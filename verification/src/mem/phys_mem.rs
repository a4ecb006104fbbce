//! What a backend offers: reading and writing physical memory in batches.
use vstd::prelude::*;
use crate::architecture::Architecture;
use crate::error::Error;
use crate::types::PhysicalAddress;

verus! {

/// One request of a batch: where in physical memory, and the bytes read
/// from there or to be written there.
pub type PhysicalData = (PhysicalAddress, Vec<u8>);

/// `after` asks for the same addresses and lengths as `before`.
pub open spec fn same_requests(before: Seq<PhysicalData>, after: Seq<PhysicalData>) -> bool {
    &&& after.len() == before.len()
    &&& forall|i: int| 0 <= i < before.len() ==> (#[trigger] after[i]).0 == before[i].0 && after[i].1.len() == before[i].1.len()
}

/// The request lies inside `mem` and its buffer holds the bytes of `mem`
/// at its address.
pub open spec fn holds_bytes(mem: Seq<u8>, request: PhysicalData) -> bool {
    &&& request.0.address.0 + request.1.len() <= mem.len()
    &&& request.1@ == mem.subrange(request.0.address.0 as int, request.0.address.0 + request.1.len())
}

/// Address `a` lies in the range of one of the requests.
pub open spec fn touched(batch: Seq<PhysicalData>, a: int) -> bool {
    exists|i: int| 0 <= i < batch.len() && (#[trigger] batch[i]).0.address.0 <= a < batch[i].0.address.0 + batch[i].1.len()
}

/// `mem` with `data` written at `addr`.
pub open spec fn write_at(mem: Seq<u8>, addr: int, data: Seq<u8>) -> Seq<u8> {
    Seq::new(mem.len(), |a: int| if addr <= a < addr + data.len() { data[a - addr] } else { mem[a] })
}

/// `mem` after the requests of `batch` were written to it, first to last.
pub open spec fn write_all(mem: Seq<u8>, batch: Seq<PhysicalData>) -> Seq<u8>
    decreases batch.len(),
{
    if batch.len() == 0 {
        mem
    } else {
        write_at(write_all(mem, batch.drop_last()), batch.last().0.address.0 as int, batch.last().1@)
    }
}

/// Every request of `batch` lies inside a memory of `len` bytes.
pub open spec fn all_in_bounds(len: nat, batch: Seq<PhysicalData>) -> bool {
    forall|i: int| 0 <= i < batch.len() ==> (#[trigger] batch[i]).0.address.0 + batch[i].1.len() <= len
}

/// Writing a batch keeps the length of the memory and every byte that no
/// request touches; so does writing its first `upto` requests.
pub proof fn lemma_write_all_frame(mem: Seq<u8>, batch: Seq<PhysicalData>, upto: int)
    requires
        0 <= upto <= batch.len(),
    ensures
        write_all(mem, batch.take(upto)).len() == mem.len(),
        forall|a: int| 0 <= a < mem.len() && !touched(batch, a) ==> #[trigger] write_all(mem, batch.take(upto))[a] == mem[a],
    decreases upto,
{
    let part = batch.take(upto);
    if upto > 0 {
        assert(part.drop_last() =~= batch.take(upto - 1));
        lemma_write_all_frame(mem, batch, upto - 1);
        assert forall|a: int| 0 <= a < mem.len() && !touched(batch, a) implies #[trigger] write_all(mem, part)[a] == mem[a] by {
            assert(part.last() == batch[upto - 1]);
            assert(!(batch[upto - 1].0.address.0 <= a < batch[upto - 1].0.address.0 + batch[upto - 1].1.len()));
        }
    }
}

/// After a batch was written, a byte that a request touches is a byte of
/// a request that touches it.
pub proof fn lemma_write_all_source(mem: Seq<u8>, batch: Seq<PhysicalData>, a: int)
    requires
        0 <= a < mem.len(),
        touched(batch, a),
    ensures
        exists|j: int|
            0 <= j < batch.len() && (#[trigger] batch[j]).0.address.0 <= a < batch[j].0.address.0 + batch[j].1.len() && write_all(
                mem,
                batch,
            )[a] == batch[j].1@[a - batch[j].0.address.0],
    decreases batch.len(),
{
    let last = batch.last();
    let rest = batch.drop_last();
    lemma_write_all_frame(mem, rest, rest.len() as int);
    assert(rest.take(rest.len() as int) =~= rest);
    if last.0.address.0 <= a < last.0.address.0 + last.1.len() {
        assert(batch[batch.len() - 1] == last);
    } else {
        let i = choose|i: int| 0 <= i < batch.len() && (#[trigger] batch[i]).0.address.0 <= a < batch[i].0.address.0 + batch[i].1.len();
        assert(rest[i] == batch[i]);
        assert(touched(rest, a));
        lemma_write_all_source(mem, rest, a);
        let j = choose|j: int|
            0 <= j < rest.len() && (#[trigger] rest[j]).0.address.0 <= a < rest[j].0.address.0 + rest[j].1.len() && write_all(mem, rest)[a]
                == rest[j].1@[a - rest[j].0.address.0];
        assert(batch[j] == rest[j]);
    }
}

/// A backend: the physical memory of a target, seen as a sequence of bytes.
///
/// A backend may fail any call. What it promises is what a call that
/// returned means: a read that returned `Ok` filled every buffer with the
/// target's bytes, and a write that returned `Ok` changed exactly the
/// bytes that it was asked to.
pub trait AccessPhysicalMemory: Sized {
    /// The bytes of the target's physical memory; the index is the address.
    spec fn view(&self) -> Seq<u8>;

    /// What the backend needs to hold of itself between calls.
    spec fn inv(&self) -> bool;

    /// Whatever the backend remembers of the translations of `arch` is
    /// what a walk of the target's paging structures gives as they are
    /// now. A backend that remembers none is faithful.
    spec fn faithful(&self, arch: Architecture) -> bool;

    /// What one read of a batch can do: asked for `before`, the backend
    /// went to `next`, left the requests as `after` and gave `r`.
    spec fn read_step(&self, before: Seq<PhysicalData>, next: Self, after: Seq<PhysicalData>, r: Result<(), Error>) -> bool;

    /// What one write of a batch can do: asked to write `batch`, the
    /// backend went to `next` and gave `r`.
    spec fn write_step(&self, batch: Seq<PhysicalData>, next: Self, r: Result<(), Error>) -> bool;

    /// Fills the buffer of each request with the bytes at its address.
    fn phys_read_raw_iter(&mut self, batch: &mut Vec<PhysicalData>) -> (r: Result<(), Error>)
        requires
            old(self).inv(),
        ensures
            final(self).inv(),
            final(self).view() == old(self).view(),
            old(self).read_step(old(batch)@, *final(self), final(batch)@, r),
            forall|arch: Architecture| old(self).faithful(arch) ==> #[trigger] final(self).faithful(arch),
            same_requests(old(batch)@, final(batch)@),
            r is Ok ==> forall|i: int| 0 <= i < final(batch).len() ==> holds_bytes(old(self).view(), #[trigger] final(batch)[i]),
    ;

    /// Writes the buffer of each request to its address, first to last.
    fn phys_write_raw_iter(&mut self, batch: &Vec<PhysicalData>) -> (r: Result<(), Error>)
        requires
            old(self).inv(),
        ensures
            final(self).inv(),
            final(self).view().len() == old(self).view().len(),
            old(self).write_step(batch@, *final(self), r),
            forall|a: int| 0 <= a < old(self).view().len() && !touched(batch@, a) ==> #[trigger] final(self).view()[a] == old(self).view()[a],
            r is Ok ==> all_in_bounds(old(self).view().len(), batch@) && final(self).view() == write_all(old(self).view(), batch@),
    ;
}

} // verus!
