//! A backend that serves a copy of physical memory held in this process.
use vstd::prelude::*;
use crate::architecture::{Architecture, Translation};
use crate::error::{Error, ErrorKind};
use crate::mem::phys_mem::{AccessPhysicalMemory, PhysicalData, all_in_bounds, holds_bytes, same_requests,
    write_all, write_at, lemma_write_all_frame};
use crate::payload::{addresses, outcomes};
use crate::types::{Address, PhysicalAddress};
use crate::vat::{VirtualAddressTranslator, keys, lemma_keys_of_walk};

verus! {

/// An image of physical memory, byte for byte from address zero, such as a
/// raw dump. It counts the batches that it served.
pub struct MemoryImage {
    bytes: Vec<u8>,
    read_only: bool,
    reads: u64,
    writes: u64,
}

/// A count of batches after one more batch, up to the greatest `u64`.
pub open spec fn counted(n: u64) -> u64 {
    if n < u64::MAX {
        (n + 1) as u64
    } else {
        u64::MAX
    }
}

/// The number of requests at the head of `batch` that lie inside a memory
/// of `len` bytes.
pub open spec fn served(len: nat, batch: Seq<PhysicalData>) -> int
    decreases batch.len(),
{
    if batch.len() == 0 || batch[0].0.address.0 + batch[0].1.len() > len {
        0
    } else {
        1 + served(len, batch.drop_first())
    }
}

/// `served` counts the requests before the first that lies outside.
pub proof fn lemma_served(len: nat, batch: Seq<PhysicalData>)
    ensures
        0 <= served(len, batch) <= batch.len(),
        all_in_bounds(len, batch.take(served(len, batch))),
        served(len, batch) < batch.len() ==> batch[served(len, batch)].0.address.0 + batch[served(len, batch)].1.len() > len,
        served(len, batch) == batch.len() <==> all_in_bounds(len, batch),
    decreases batch.len(),
{
    if batch.len() == 0 || batch[0].0.address.0 + batch[0].1.len() > len {
        if batch.len() > 0 {
            assert(!all_in_bounds(len, batch));
        }
    } else {
        let rest = batch.drop_first();
        lemma_served(len, rest);
        let k = served(len, rest);
        assert forall|i: int| 0 <= i < 1 + k implies (#[trigger] batch.take(1 + k)[i]).0.address.0 + batch.take(1 + k)[i].1.len() <= len by {
            if i > 0 {
                assert(batch.take(1 + k)[i] == rest.take(k)[i - 1]);
            }
        }
        if k == rest.len() {
            assert(batch.take(1 + k) =~= batch);
        } else {
            assert(batch[1 + k] == rest[k]);
            assert(!all_in_bounds(len, batch));
        }
    }
}

/// The entry that the walk for `vaddr` reads at `level` does not lie
/// inside `mem`.
pub open spec fn outside(arch: Architecture, mem: Seq<u8>, dtb: Address, vaddr: Address, level: u8) -> bool {
    arch.table_at(mem, dtb, vaddr, level) is Some && arch.spec_entry_address(arch.table_at(mem, dtb, vaddr, level)->Some_0, vaddr, level)
        + arch.spec_entry_size() > mem.len()
}

/// An entry that the walker reads at `level` for one of `addrs` does not
/// lie inside `mem`.
pub open spec fn entry_outside(arch: Architecture, mem: Seq<u8>, dtb: Address, addrs: Seq<Address>, level: u8) -> bool {
    exists|j: int| 0 <= j < addrs.len() && #[trigger] outside(arch, mem, dtb, addrs[j], level)
}

/// The number of reads by which the walker translates `addrs` on an image
/// of the bytes `mem`, from `level` downwards: one at each level that a
/// walk comes to, down to the first at which an entry lies outside the
/// image.
pub open spec fn walk_reads(arch: Architecture, mem: Seq<u8>, dtb: Address, addrs: Seq<Address>, level: u8) -> nat
    decreases level,
{
    if level == 0 {
        0
    } else if !arch.reaches(mem, dtb, addrs, level) {
        walk_reads(arch, mem, dtb, addrs, (level - 1) as u8)
    } else if entry_outside(arch, mem, dtb, addrs, level) {
        1
    } else {
        1 + walk_reads(arch, mem, dtb, addrs, (level - 1) as u8)
    }
}

/// An image serves the read of the entries of one level where all of them
/// lie inside it, and fails it otherwise; it counts the read either way.
pub proof fn lemma_image_read(
    arch: Architecture,
    pre: MemoryImage,
    dtb: Address,
    addrs: Seq<Address>,
    level: u8,
    asked: Seq<PhysicalData>,
    post: MemoryImage,
    after: Seq<PhysicalData>,
    r: Result<(), Error>,
)
    requires
        arch.asks_entries(pre.bytes(), dtb, addrs, level, asked),
        pre.read_step(asked, post, after, r),
    ensures
        r is Ok <==> !entry_outside(arch, pre.bytes(), dtb, addrs, level),
        post.reads() == counted(pre.reads()),
        post.bytes() == pre.bytes(),
{
    let mem = pre.bytes();
    lemma_served(mem.len(), asked);
    if entry_outside(arch, mem, dtb, addrs, level) {
        let j = choose|j: int| 0 <= j < addrs.len() && #[trigger] outside(arch, mem, dtb, addrs[j], level);
        assert(arch.asks_entry(mem, dtb, addrs[j], level, asked[j]));
        assert(asked[j].0.address.0 + asked[j].1.len() > mem.len());
        assert(!all_in_bounds(mem.len(), asked));
    } else {
        assert forall|j: int| 0 <= j < asked.len() implies (#[trigger] asked[j]).0.address.0 + asked[j].1.len() <= mem.len() by {
            assert(arch.asks_entry(mem, dtb, addrs[j], level, asked[j]));
            assert(!outside(arch, mem, dtb, addrs[j], level));
        }
        assert(all_in_bounds(mem.len(), asked));
    }
}

/// Of the states that an image went through while the walker translated
/// `addrs`, the last has counted `walk_reads` reads more than the state
/// before the pass of `level`, where no read failed above that level; it
/// is that state where one did.
pub proof fn lemma_walk_reads(arch: Architecture, states: Seq<MemoryImage>, mem: Seq<u8>, dtb: Address, addrs: Seq<Address>, failed: u8, level: u8)
    requires
        arch.passes(states, mem, dtb, addrs, failed),
        level <= arch.spec_levels(),
        states[arch.spec_levels() - level].reads() + level <= u64::MAX,
    ensures
        level < failed ==> states[arch.spec_levels() as int] == states[arch.spec_levels() - level],
        level >= failed ==> states[arch.spec_levels() as int].reads() == states[arch.spec_levels() - level].reads() + walk_reads(
            arch,
            mem,
            dtb,
            addrs,
            level,
        ),
    decreases level,
{
    if level > 0 {
        let k = arch.spec_levels() - level;
        let pre = states[k];
        let post = states[k + 1];
        assert(pre.view() == mem);
        assert((arch.spec_levels() - k) as u8 == level);
        if level >= failed {
            assert(arch.level_pass(pre, mem, dtb, addrs, level, post, level > failed));
            if arch.reaches(mem, dtb, addrs, level) {
                let (asked, after, r) = choose|asked: Seq<PhysicalData>, after: Seq<PhysicalData>, r: Result<(), Error>|
                    arch.asks_entries(mem, dtb, addrs, level, asked) && #[trigger] pre.read_step(asked, post, after, r) && (r is Ok <==> level
                        > failed);
                lemma_image_read(arch, pre, dtb, addrs, level, asked, post, after, r);
            }
        } else {
            assert(post == pre);
        }
        lemma_walk_reads(arch, states, mem, dtb, addrs, failed, (level - 1) as u8);
    }
}

/// On an image the walker makes `walk_reads` reads for a batch: the
/// number depends on the bytes of the image and on the batch, not on what
/// the image served before.
pub proof fn lemma_walk_cost(arch: Architecture, pre: MemoryImage, dtb: Address, addrs: Seq<Address>, post: MemoryImage, found: Seq<Result<PhysicalAddress, Error>>)
    requires
        arch.walked(pre, dtb, addrs, post, found),
        pre.reads() + 4 <= u64::MAX,
    ensures
        post.reads() == pre.reads() + walk_reads(arch, pre.bytes(), dtb, addrs, arch.spec_levels()),
        post.bytes() == pre.bytes(),
{
    let (states, failed) = choose|states: Seq<MemoryImage>, failed: u8| #[trigger]
        arch.passes(states, pre.view(), dtb, addrs, failed) && states[0] == pre && states[arch.spec_levels() as int] == post;
    lemma_walk_reads(arch, states, pre.view(), dtb, addrs, failed, arch.spec_levels());
    assert(post.view() == pre.view());
}

impl MemoryImage {
    /// The bytes of the image.
    pub closed spec fn bytes(&self) -> Seq<u8> {
        self.bytes@
    }

    /// The image refuses every write.
    pub closed spec fn is_read_only(&self) -> bool {
        self.read_only
    }

    /// The number of read batches served so far, up to the greatest `u64`.
    pub closed spec fn reads(&self) -> u64 {
        self.reads
    }

    /// The number of write batches served so far, up to the greatest `u64`.
    pub closed spec fn writes(&self) -> u64 {
        self.writes
    }

    /// An image that can be read and written.
    pub fn new(bytes: Vec<u8>) -> (image: Self)
        ensures
            image.bytes() == bytes@,
            !image.is_read_only(),
            image.reads() == 0,
            image.writes() == 0,
    {
        MemoryImage { bytes, read_only: false, reads: 0, writes: 0 }
    }

    /// An image that can only be read, such as a dump: every write to it
    /// fails with `PhysicalWriteError`.
    pub fn new_read_only(bytes: Vec<u8>) -> (image: Self)
        ensures
            image.bytes() == bytes@,
            image.is_read_only(),
            image.reads() == 0,
            image.writes() == 0,
    {
        MemoryImage { bytes, read_only: true, reads: 0, writes: 0 }
    }

    /// The number of bytes of the image.
    pub fn len(&self) -> (n: usize)
        ensures
            n == self.bytes().len(),
    {
        self.bytes.len()
    }

    /// The number of read batches served so far.
    pub fn read_passes(&self) -> (n: u64)
        ensures
            n == self.reads(),
    {
        self.reads
    }

    /// The number of write batches served so far.
    pub fn write_passes(&self) -> (n: u64)
        ensures
            n == self.writes(),
    {
        self.writes
    }

    /// Gives the bytes back.
    pub fn into_bytes(self) -> (bytes: Vec<u8>)
        ensures
            bytes@ == self.bytes(),
    {
        self.bytes
    }
}

impl AccessPhysicalMemory for MemoryImage {
    open spec fn view(&self) -> Seq<u8> {
        self.bytes()
    }

    open spec fn inv(&self) -> bool {
        true
    }

    /// The image remembers no translation.
    open spec fn faithful(&self, arch: Architecture) -> bool {
        true
    }

    /// The image counts the batch and serves the requests that come before
    /// the first that lies outside it; it gives `OutOfBounds` for that one
    /// and leaves it and those after it as they are.
    open spec fn read_step(&self, before: Seq<PhysicalData>, next: Self, after: Seq<PhysicalData>, r: Result<(), Error>) -> bool {
        let k = served(self.bytes().len(), before);
        &&& next.bytes() == self.bytes()
        &&& next.is_read_only() == self.is_read_only()
        &&& next.reads() == counted(self.reads())
        &&& next.writes() == self.writes()
        &&& same_requests(before, after)
        &&& forall|i: int|
            0 <= i < before.len() ==> if i < k {
                holds_bytes(self.bytes(), #[trigger] after[i])
            } else {
                after[i] == before[i]
            }
        &&& r == if k == before.len() {
            Ok::<(), Error>(())
        } else {
            Err::<(), Error>(Error { kind: ErrorKind::OutOfBounds, addr: before[k].0.address, level: 0 })
        }
    }

    /// The image counts the batch. One that can only be read refuses it
    /// with `PhysicalWriteError` at address zero. Another writes the
    /// requests that come before the first that lies outside it, and gives
    /// `OutOfBounds` for that one.
    open spec fn write_step(&self, batch: Seq<PhysicalData>, next: Self, r: Result<(), Error>) -> bool {
        let k = served(self.bytes().len(), batch);
        &&& next.is_read_only() == self.is_read_only()
        &&& next.reads() == self.reads()
        &&& next.writes() == counted(self.writes())
        &&& if self.is_read_only() {
            &&& next.bytes() == self.bytes()
            &&& r == Err::<(), Error>(Error { kind: ErrorKind::PhysicalWriteError, addr: Address(0), level: 0 })
        } else {
            &&& next.bytes() == write_all(self.bytes(), batch.take(k))
            &&& r == if k == batch.len() {
                Ok::<(), Error>(())
            } else {
                Err::<(), Error>(Error { kind: ErrorKind::OutOfBounds, addr: batch[k].0.address, level: 0 })
            }
        }
    }

    /// Serves the requests first to last and stops with `OutOfBounds` at
    /// the first that does not lie inside the image.
    fn phys_read_raw_iter(&mut self, batch: &mut Vec<PhysicalData>) -> (r: Result<(), Error>)
        ensures
            final(self).reads() == if old(self).reads() < u64::MAX { (old(self).reads() + 1) as u64 } else { u64::MAX },
            final(self).writes() == old(self).writes(),
            final(self).is_read_only() == old(self).is_read_only(),
            r is Ok <==> all_in_bounds(old(self).bytes().len(), old(batch)@),
            r matches Err(e) ==> e == (Error {
                kind: ErrorKind::OutOfBounds,
                addr: old(batch)[served(old(self).bytes().len(), old(batch)@)].0.address,
                level: 0,
            }),
            forall|i: int|
                0 <= i < old(batch).len() ==> if i < served(old(self).bytes().len(), old(batch)@) {
                    holds_bytes(old(self).bytes(), #[trigger] final(batch)[i])
                } else {
                    final(batch)[i] == old(batch)[i]
                },
    {
        self.reads = self.reads.saturating_add(1);
        proof {
            lemma_served(self.bytes@.len(), batch@);
            assert(batch@.skip(0) =~= batch@);
        }
        let n: usize = batch.len();
        let size: usize = self.bytes.len();
        let mut i: usize = 0;
        while i < n
            invariant
                i <= n,
                n == batch.len(),
                size == self.bytes.len(),
                self.bytes == old(self).bytes,
                self.read_only == old(self).read_only,
                self.writes == old(self).writes,
                self.reads == if old(self).reads() < u64::MAX { (old(self).reads() + 1) as u64 } else { u64::MAX },
                same_requests(old(batch)@, batch@),
                forall|j: int| 0 <= j < i ==> holds_bytes(self.bytes@, #[trigger] batch[j]),
                forall|j: int| i <= j < n ==> #[trigger] batch[j] == old(batch)[j],
                served(self.bytes@.len(), old(batch)@) == i + served(self.bytes@.len(), old(batch)@.skip(i as int)),
            decreases n - i,
        {
            let addr: u64 = batch[i].0.address.0;
            let len: usize = batch[i].1.len();
            proof {
                assert(old(batch)@.skip(i as int)[0] == old(batch)[i as int]);
                assert(old(batch)@.skip(i as int).drop_first() =~= old(batch)@.skip(i + 1));
            }
            if addr > size as u64 || len > size - addr as usize {
                proof {
                    assert(old(batch)@[i as int].0 == batch[i as int].0);
                }
                return Err(Error::new(ErrorKind::OutOfBounds, Address(addr)));
            }
            let start: usize = addr as usize;
            let mut data: Vec<u8> = Vec::with_capacity(len);
            let mut k: usize = 0;
            while k < len
                invariant
                    k <= len,
                    start + len <= self.bytes.len(),
                    data@ == self.bytes@.subrange(start as int, start + k),
                decreases len - k,
            {
                data.push(self.bytes[start + k]);
                proof {
                    assert(self.bytes@.subrange(start as int, start + k).push(self.bytes@[start + k]) =~= self.bytes@.subrange(
                        start as int,
                        start + k + 1,
                    ));
                }
                k += 1;
            }
            let ghost prev = batch@;
            batch[i].1 = data;
            proof {
                assert forall|j: int| 0 <= j < i + 1 implies holds_bytes(self.bytes@, #[trigger] batch[j]) by {
                    if j < i {
                        assert(batch[j] == prev[j]);
                    }
                }
                assert forall|j: int| i + 1 <= j < n implies #[trigger] batch[j] == old(batch)[j] by {
                    assert(batch[j] == prev[j]);
                }
            }
            i += 1;
        }
        proof {
            assert forall|j: int| 0 <= j < n implies (#[trigger] old(batch)@[j]).0.address.0 + old(batch)@[j].1.len() <= size by {
                assert(holds_bytes(self.bytes@, batch[j]));
            }
        }
        Ok(())
    }

    /// Serves the requests first to last and stops with `OutOfBounds` at
    /// the first that does not lie inside the image; those before it stay
    /// written. An image that can only be read refuses the batch with
    /// `PhysicalWriteError` and stays as it is.
    fn phys_write_raw_iter(&mut self, batch: &Vec<PhysicalData>) -> (r: Result<(), Error>)
        ensures
            final(self).writes() == if old(self).writes() < u64::MAX { (old(self).writes() + 1) as u64 } else { u64::MAX },
            final(self).reads() == old(self).reads(),
            final(self).is_read_only() == old(self).is_read_only(),
            r is Ok <==> !old(self).is_read_only() && all_in_bounds(old(self).bytes().len(), batch@),
            old(self).is_read_only() ==> final(self).bytes() == old(self).bytes() && (r matches Err(e) && e.kind
                == ErrorKind::PhysicalWriteError),
            !old(self).is_read_only() ==> (r matches Err(e) ==> e == (Error {
                kind: ErrorKind::OutOfBounds,
                addr: batch[served(old(self).bytes().len(), batch@)].0.address,
                level: 0,
            })),
            !old(self).is_read_only() ==> final(self).bytes() == write_all(
                old(self).bytes(),
                batch@.take(served(old(self).bytes().len(), batch@)),
            ),
    {
        proof {
            lemma_served(self.bytes@.len(), batch@);
            assert(batch@.skip(0) =~= batch@);
        }
        self.writes = self.writes.saturating_add(1);
        if self.read_only {
            return Err(Error::new(ErrorKind::PhysicalWriteError, Address(0)));
        }
        let n: usize = batch.len();
        let size: usize = self.bytes.len();
        let mut i: usize = 0;
        while i < n
            invariant
                i <= n,
                n == batch.len(),
                size == self.bytes.len(),
                size == old(self).bytes.len(),
                self.reads == old(self).reads,
                self.read_only == old(self).read_only,
                !self.read_only,
                self.writes == if old(self).writes() < u64::MAX { (old(self).writes() + 1) as u64 } else { u64::MAX },
                all_in_bounds(size as nat, batch@.take(i as int)),
                self.bytes@ == write_all(old(self).bytes@, batch@.take(i as int)),
                served(size as nat, batch@) == i + served(size as nat, batch@.skip(i as int)),
            decreases n - i,
        {
            let addr: u64 = batch[i].0.address.0;
            let len: usize = batch[i].1.len();
            proof {
                assert(batch@.skip(i as int)[0] == batch[i as int]);
                assert(batch@.skip(i as int).drop_first() =~= batch@.skip(i + 1));
            }
            if addr > size as u64 || len > size - addr as usize {
                proof {
                    lemma_write_all_frame(old(self).bytes@, batch@, i as int);
                }
                return Err(Error::new(ErrorKind::OutOfBounds, Address(addr)));
            }
            let start: usize = addr as usize;
            let ghost prev = self.bytes@;
            let mut k: usize = 0;
            while k < len
                invariant
                    k <= len,
                    i < n,
                    n == batch.len(),
                    len == batch[i as int].1.len(),
                    start + len <= self.bytes.len(),
                    self.bytes.len() == prev.len(),
                    self.reads == old(self).reads,
                    self.read_only == old(self).read_only,
                    self.writes == if old(self).writes() < u64::MAX { (old(self).writes() + 1) as u64 } else { u64::MAX },
                    forall|a: int| 0 <= a < prev.len() ==> self.bytes@[a] == if start <= a < start + k {
                        batch[i as int].1@[a - start]
                    } else {
                        prev[a]
                    },
                decreases len - k,
            {
                self.bytes[start + k] = batch[i].1[k];
                k += 1;
            }
            proof {
                assert(batch@.take(i + 1).drop_last() =~= batch@.take(i as int));
                assert(batch@.take(i + 1).last() == batch[i as int]);
                assert(self.bytes@ =~= write_at(prev, start as int, batch[i as int].1@));
                assert forall|j: int| 0 <= j < i + 1 implies (#[trigger] batch@.take(i + 1)[j]).0.address.0 + batch@.take(
                    i + 1,
                )[j].1.len() <= size by {
                    if j < i {
                        assert(batch@.take(i as int)[j] == batch@.take(i + 1)[j]);
                    }
                }
            }
            i += 1;
        }
        proof {
            assert(batch@.take(n as int) =~= batch@);
            lemma_write_all_frame(old(self).bytes@, batch@, n as int);
        }
        Ok(())
    }
}

impl VirtualAddressTranslator for MemoryImage {
    /// The image is walked for each address, as `walked` says, and the
    /// results come in the order of `addrs`.
    open spec fn translate_step(&self, arch: Architecture, dtb: Address, addrs: Seq<(Address, usize)>, next: Self, found: Seq<Translation>) -> bool {
        arch.walked(*self, dtb, addresses(addrs), next, outcomes(found)) && keys(found) == addrs
    }

    /// Walks the paging structures in the image for each address.
    fn virt_to_phys_tagged(&mut self, arch: Architecture, dtb: Address, addrs: &[(Address, usize)], out: &mut Vec<Translation>)
    {
        arch.virt_to_phys_tagged(self, dtb, addrs, out);
        proof {
            lemma_keys_of_walk(addrs@, old(out)@, out@);
            assert(keys(out@.skip(old(out).len() as int)) =~= addrs@);
        }
    }
}

} // verus!
