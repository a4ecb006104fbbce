//! The memory of one address space, on top of a translator.
use vstd::prelude::*;
use crate::architecture::{Architecture, Translation, agrees};
use crate::error::{Error, ErrorKind};
use crate::mem::phys_mem::{PhysicalData, all_in_bounds, holds_bytes, lemma_write_all_frame,
    lemma_write_all_source, touched, write_all};
use crate::mem::virt_mem::{Chunk, VirtualMemory, VirtualReadIterator, VirtualWriteIterator, all_empty,
    all_in_range, all_mapped, all_requests_mapped, aimed, any_mapped, any_request_mapped, beyond_error, chunked,
    covered, covers, extents, unmapped_at,
    lies_at, merged, read_outcome, same_shape, split_requests, write_effect, write_frame, write_outcome};
use crate::types::{Address, Length, Page, PageType, PhysicalAddress};
use crate::payload::{lemma_tags_are_places, tagged};
use crate::vat::{VirtualAddressTranslator, keys, lemma_keys_cover};

verus! {

/// The byte at each address that the paging structures of `dtb` in `mem`
/// map.
pub open spec fn mapped_bytes(arch: Architecture, mem: Seq<u8>, dtb: Address) -> Map<int, u8> {
    Map::new(
        |a: int| 0 <= a <= u64::MAX && arch.walk(mem, dtb, Address(a as u64)) is Ok,
        |a: int| mem[arch.walk(mem, dtb, Address(a as u64))->Ok_0.address.0 as int],
    )
}

/// The physical address of each address that the paging structures of
/// `dtb` in `mem` map.
pub open spec fn mapped_targets(arch: Architecture, mem: Seq<u8>, dtb: Address) -> Map<int, int> {
    Map::new(
        |a: int| 0 <= a <= u64::MAX && arch.walk(mem, dtb, Address(a as u64)) is Ok,
        |a: int| arch.walk(mem, dtb, Address(a as u64))->Ok_0.address.0 as int,
    )
}

/// What is known of the translation of each chunk: `resolved` has what
/// the walk gives for its first byte, and that is no failure to read.
pub open spec fn resolved_ok(
    arch: Architecture,
    mem: Seq<u8>,
    dtb: Address,
    chunks: Seq<Chunk>,
    resolved: Seq<Result<PhysicalAddress, Error>>,
) -> bool {
    &&& resolved.len() == chunks.len()
    &&& forall|c: int|
        0 <= c < chunks.len() ==> #[trigger] resolved[c] == arch.walk(mem, dtb, chunks[c].vaddr) && (resolved[c] matches Err(e)
            ==> e.kind != ErrorKind::PhysicalReadError)
}

/// The buffers after the bytes of the first `upto` chunks were stored:
/// a byte of one of those chunks, where the chunk was translated, is the
/// byte that was read for it, and every other byte is as it was.
pub open spec fn stored(
    chunks: Seq<Chunk>,
    resolved: Seq<Result<PhysicalAddress, Error>>,
    batch: Seq<PhysicalData>,
    before: Seq<(Address, Seq<u8>)>,
    now: Seq<(Address, Seq<u8>)>,
    upto: int,
) -> bool {
    forall|c: int, i: int, p: int|
        0 <= c < chunks.len() && #[trigger] covers(chunks[c], i, p) ==> now[i].1[p] == if c < upto && resolved[c] is Ok {
            batch[c].1@[p - chunks[c].offset]
        } else {
            before[i].1[p]
        }
}

/// The request of a batch read that belongs to a chunk: for the bytes of
/// the chunk at the address that the chunk was translated to, or for no
/// byte where it was not translated.
pub open spec fn fits(chunk: Chunk, resolved: Result<PhysicalAddress, Error>, request: PhysicalData) -> bool {
    match resolved {
        Ok(found) => request.0 == found && request.1.len() == chunk.len,
        Err(_) => request.1.len() == 0,
    }
}

/// The request by which a chunk is read: a buffer of zeros for the bytes
/// of the chunk at the address that the chunk was translated to, or no
/// byte at address zero where it was not translated.
pub open spec fn asks(chunk: Chunk, resolved: Result<PhysicalAddress, Error>, request: PhysicalData) -> bool {
    match resolved {
        Ok(found) => request.0 == found && request.1@ == Seq::new(chunk.len as nat, |p: int| 0u8),
        Err(_) => request.0 == (PhysicalAddress { address: Address(0), page: Page { page_type: PageType(0), page_size: Length(0) } })
            && request.1.len() == 0,
    }
}

/// The requests of the batch read for the chunks, one for each, and
/// whether any chunk was translated.
fn read_requests(chunks: &Vec<Chunk>, resolved: &Vec<Result<PhysicalAddress, Error>>) -> (r: (Vec<PhysicalData>, bool))
    requires
        resolved.len() == chunks.len(),
    ensures
        r.0.len() == chunks.len(),
        forall|j: int| 0 <= j < chunks.len() ==> fits(chunks[j], #[trigger] resolved[j], r.0[j]),
        forall|j: int| 0 <= j < chunks.len() ==> asks(chunks[j], #[trigger] resolved[j], r.0[j]),
        r.1 <==> exists|j: int| 0 <= j < chunks.len() && (#[trigger] resolved[j]) is Ok,
{
    let m: usize = chunks.len();
    let mut batch: Vec<PhysicalData> = Vec::with_capacity(m);
    let mut any: bool = false;
    let mut c: usize = 0;
    while c < m
        invariant
            c <= m,
            m == chunks.len(),
            resolved.len() == m,
            batch.len() == c,
            forall|j: int| 0 <= j < c ==> fits(chunks[j], #[trigger] resolved[j], batch[j]),
            forall|j: int| 0 <= j < c ==> asks(chunks[j], #[trigger] resolved[j], batch[j]),
            any <==> exists|j: int| 0 <= j < c && (#[trigger] resolved[j]) is Ok,
        decreases m - c,
    {
        match resolved[c] {
            Ok(found) => {
                let zeros: Vec<u8> = vec![0u8; chunks[c].len];
                proof {
                    assert(zeros@ =~= Seq::new(chunks[c as int].len as nat, |p: int| 0u8));
                }
                batch.push((found, zeros));
                any = true;
            },
            Err(_) => {
                batch.push((PhysicalAddress::from_address(Address(0)), Vec::new()));
            },
        }
        c += 1;
    }
    (batch, any)
}

/// Stores what was read for each translated chunk in the buffer of its
/// request.
fn scatter<VI: VirtualReadIterator>(
    iter: &mut VI,
    chunks: &Vec<Chunk>,
    resolved: &Vec<Result<PhysicalAddress, Error>>,
    batch: &Vec<PhysicalData>,
    Ghost(descs): Ghost<Seq<(Address, usize)>>,
)
    requires
        resolved.len() == chunks.len(),
        batch.len() == chunks.len(),
        chunked(chunks@, descs, descs.len() as int, 0),
        descs.len() == old(iter).requests().len(),
        forall|i: int| 0 <= i < descs.len() ==> (#[trigger] descs[i]).0 == old(iter).requests()[i].0 && descs[i].1 == old(
            iter,
        ).requests()[i].1.len(),
        forall|j: int| 0 <= j < chunks.len() ==> fits(chunks[j], #[trigger] resolved[j], batch[j]),
    ensures
        same_shape(old(iter).requests(), final(iter).requests()),
        stored(chunks@, resolved@, batch@, old(iter).requests(), final(iter).requests(), chunks.len() as int),
{
    let ghost before = iter.requests();
    let m: usize = chunks.len();
    let mut c: usize = 0;
    while c < m
        invariant
            c <= m,
            m == chunks.len(),
            resolved.len() == m,
            batch.len() == m,
            chunked(chunks@, descs, descs.len() as int, 0),
            descs.len() == before.len(),
            forall|i: int| 0 <= i < descs.len() ==> (#[trigger] descs[i]).0 == before[i].0 && descs[i].1 == before[i].1.len(),
            same_shape(before, iter.requests()),
            forall|j: int| 0 <= j < m ==> fits(chunks[j], #[trigger] resolved[j], batch[j]),
            stored(chunks@, resolved@, batch@, before, iter.requests(), c as int),
        decreases m - c,
    {
        match resolved[c] {
            Ok(_) => {
                let ghost prev = iter.requests();
                let chunk = chunks[c];
                proof {
                    assert(fits(chunks[c as int], resolved[c as int], batch[c as int]));
                    assert(descs[chunk.req as int].1 == before[chunk.req as int].1.len());
                }
                iter.store(chunk.req, chunk.offset, &batch[c].1);
                proof {
                    let now = iter.requests();
                    assert forall|d: int, i: int, p: int| 0 <= d < chunks.len() && #[trigger] covers(chunks[d], i, p) implies now[i].1[p]
                        == if d < c + 1 && resolved[d] is Ok {
                        batch[d].1@[p - chunks[d].offset]
                    } else {
                        before[i].1[p]
                    } by {
                        if i == chunk.req && chunk.offset <= p < chunk.offset + chunk.len {
                            lemma_one_chunk(chunks@, descs, c as int, d, i, p);
                        } else {
                            assert(now[i].1[p] == prev[i].1[p]);
                        }
                    }
                }
            },
            Err(_) => {},
        }
        c += 1;
    }
}

/// After the bytes of all chunks were stored, every buffer holds what a
/// read leaves in it, and one of the addresses asked is mapped where one
/// of the chunks was translated.
pub proof fn lemma_read_result(
    arch: Architecture,
    mem: Seq<u8>,
    dtb: Address,
    chunks: Seq<Chunk>,
    descs: Seq<(Address, usize)>,
    resolved: Seq<Result<PhysicalAddress, Error>>,
    batch: Seq<PhysicalData>,
    before: Seq<(Address, Seq<u8>)>,
    now: Seq<(Address, Seq<u8>)>,
)
    requires
        chunked(chunks, descs, descs.len() as int, 0),
        all_in_range(descs),
        descs.len() == before.len(),
        forall|i: int| 0 <= i < descs.len() ==> (#[trigger] descs[i]).0 == before[i].0 && descs[i].1 == before[i].1.len(),
        same_shape(before, now),
        resolved_ok(arch, mem, dtb, chunks, resolved),
        batch.len() == chunks.len(),
        forall|j: int| 0 <= j < chunks.len() ==> fits(chunks[j], #[trigger] resolved[j], batch[j]),
        forall|j: int| 0 <= j < batch.len() ==> holds_bytes(mem, #[trigger] batch[j]),
        stored(chunks, resolved, batch, before, now, chunks.len() as int),
    ensures
        forall|i: int| 0 <= i < before.len() ==> (#[trigger] now[i]).1 == merged(mapped_bytes(arch, mem, dtb), before[i].0.0 as int, before[i].1),
        (exists|j: int| 0 <= j < chunks.len() && (#[trigger] resolved[j]) is Ok) ==> any_request_mapped(
            mapped_bytes(arch, mem, dtb),
            descs,
        ),
{
    let view = mapped_bytes(arch, mem, dtb);
    assert forall|i: int| 0 <= i < before.len() implies (#[trigger] now[i]).1 == merged(view, before[i].0.0 as int, before[i].1) by {
        assert forall|p: int| 0 <= p < before[i].1.len() implies now[i].1[p] == merged(view, before[i].0.0 as int, before[i].1)[p] by {
            assert(descs[i].1 == before[i].1.len());
            assert(covered(chunks, i, p));
            let c = choose|c: int| 0 <= c < chunks.len() && #[trigger] covers(chunks[c], i, p);
            lemma_chunk_byte(arch, mem, dtb, chunks, descs, c, i, p);
            assert(fits(chunks[c], resolved[c], batch[c]));
            assert(holds_bytes(mem, batch[c]));
        }
        assert(now[i].1 =~= merged(view, before[i].0.0 as int, before[i].1));
    }
    if exists|j: int| 0 <= j < chunks.len() && (#[trigger] resolved[j]) is Ok {
        let c = choose|c: int| 0 <= c < chunks.len() && (#[trigger] resolved[c]) is Ok;
        let ch = chunks[c];
        assert(covers(ch, ch.req as int, ch.offset as int));
        lemma_chunk_byte(arch, mem, dtb, chunks, descs, c, ch.req as int, ch.offset as int);
        assert(view.dom().contains(descs[ch.req as int].0.0 + ch.offset));
        assert(any_mapped(view, descs[ch.req as int].0.0 as int, descs[ch.req as int].1 as int));
    }
}

/// After the chunks of a batch, all of them translated, were written, the
/// physical memory is what `write_effect` says.
pub proof fn lemma_write_effect(
    arch: Architecture,
    mem: Seq<u8>,
    dtb: Address,
    chunks: Seq<Chunk>,
    descs: Seq<(Address, usize)>,
    resolved: Seq<Result<PhysicalAddress, Error>>,
    batch: Seq<PhysicalData>,
    requests: Seq<(Address, Seq<u8>)>,
)
    requires
        chunked(chunks, descs, descs.len() as int, 0),
        all_in_range(descs),
        descs.len() == requests.len(),
        forall|i: int| 0 <= i < descs.len() ==> (#[trigger] descs[i]).0 == requests[i].0 && descs[i].1 == requests[i].1.len(),
        resolved_ok(arch, mem, dtb, chunks, resolved),
        batch.len() == chunks.len(),
        forall|c: int| 0 <= c < chunks.len() ==> carries(chunks[c], resolved[c], #[trigger] batch[c], requests),
        all_in_bounds(mem.len(), batch),
    ensures
        write_effect(mapped_targets(arch, mem, dtb), requests, mem, write_all(mem, batch)),
{
    let targets = mapped_targets(arch, mem, dtb);
    let after = write_all(mem, batch);
    lemma_write_all_frame(mem, batch, batch.len() as int);
    assert(batch.take(batch.len() as int) =~= batch);
    assert forall|a: int| 0 <= a < mem.len() implies if aimed(targets, requests, a) {
        exists|i: int, p: int| #[trigger] lies_at(targets, requests, i, p, a) && after[a] == requests[i].1[p]
    } else {
        #[trigger] after[a] == mem[a]
    } by {
        if touched(batch, a) {
            lemma_write_all_source(mem, batch, a);
            let j = choose|j: int|
                0 <= j < batch.len() && (#[trigger] batch[j]).0.address.0 <= a < batch[j].0.address.0 + batch[j].1.len() && write_all(
                    mem,
                    batch,
                )[a] == batch[j].1@[a - batch[j].0.address.0];
            assert(carries(chunks[j], resolved[j], batch[j], requests));
            let q = a - batch[j].0.address.0;
            let i = chunks[j].req as int;
            let p = chunks[j].offset + q;
            assert(covers(chunks[j], i, p));
            lemma_chunk_byte(arch, mem, dtb, chunks, descs, j, i, p);
            assert(lies_at(targets, requests, i, p, a));
        } else {
            if aimed(targets, requests, a) {
                let (i, p) = choose|i: int, p: int| lies_at(targets, requests, i, p, a);
                assert(descs[i].1 == requests[i].1.len());
                assert(covered(chunks, i, p));
                let c = choose|c: int| 0 <= c < chunks.len() && #[trigger] covers(chunks[c], i, p);
                lemma_chunk_byte(arch, mem, dtb, chunks, descs, c, i, p);
                assert(carries(chunks[c], resolved[c], batch[c], requests));
                assert(batch[c].0.address.0 <= a < batch[c].0.address.0 + batch[c].1.len());
            }
        }
    }
}

/// An address that a batch of chunks, all of them translated, touches is
/// an address where a byte of a request lies.
pub proof fn lemma_touched_is_aimed(
    arch: Architecture,
    mem: Seq<u8>,
    dtb: Address,
    chunks: Seq<Chunk>,
    descs: Seq<(Address, usize)>,
    resolved: Seq<Result<PhysicalAddress, Error>>,
    batch: Seq<PhysicalData>,
    requests: Seq<(Address, Seq<u8>)>,
    a: int,
)
    requires
        chunked(chunks, descs, descs.len() as int, 0),
        all_in_range(descs),
        descs.len() == requests.len(),
        forall|i: int| 0 <= i < descs.len() ==> (#[trigger] descs[i]).0 == requests[i].0 && descs[i].1 == requests[i].1.len(),
        resolved_ok(arch, mem, dtb, chunks, resolved),
        batch.len() == chunks.len(),
        forall|c: int| 0 <= c < chunks.len() ==> carries(chunks[c], resolved[c], #[trigger] batch[c], requests),
        touched(batch, a),
    ensures
        aimed(mapped_targets(arch, mem, dtb), requests, a),
{
    let j = choose|j: int| 0 <= j < batch.len() && (#[trigger] batch[j]).0.address.0 <= a < batch[j].0.address.0 + batch[j].1.len();
    assert(carries(chunks[j], resolved[j], batch[j], requests));
    let i = chunks[j].req as int;
    let p = chunks[j].offset + (a - batch[j].0.address.0);
    assert(covers(chunks[j], i, p));
    lemma_chunk_byte(arch, mem, dtb, chunks, descs, j, i, p);
    assert(lies_at(mapped_targets(arch, mem, dtb), requests, i, p, a));
}

/// The request of a batch write that belongs to a chunk: the bytes of the
/// chunk, for the address that the chunk was translated to.
pub open spec fn carries(chunk: Chunk, resolved: Result<PhysicalAddress, Error>, request: PhysicalData, requests: Seq<(Address, Seq<u8>)>) -> bool {
    &&& resolved == Ok::<PhysicalAddress, Error>(request.0)
    &&& request.1@ == requests[chunk.req as int].1.subrange(chunk.offset as int, chunk.offset + chunk.len)
}

/// Two chunks that hold the same byte are the same chunk.
pub proof fn lemma_one_chunk(chunks: Seq<Chunk>, requests: Seq<(Address, usize)>, c: int, d: int, i: int, p: int)
    requires
        chunked(chunks, requests, requests.len() as int, 0),
        0 <= c < chunks.len(),
        0 <= d < chunks.len(),
        covers(chunks[c], i, p),
        covers(chunks[d], i, p),
    ensures
        c == d,
{
    if c < d {
        assert(chunks[c].req < chunks[d].req || chunks[c].offset + chunks[c].len <= chunks[d].offset);
    } else if d < c {
        assert(chunks[d].req < chunks[c].req || chunks[d].offset + chunks[d].len <= chunks[c].offset);
    }
}

/// A byte of a chunk is mapped just when the first byte of the chunk is,
/// and then it lies as far from it physically as virtually.
pub proof fn lemma_chunk_byte(
    arch: Architecture,
    mem: Seq<u8>,
    dtb: Address,
    chunks: Seq<Chunk>,
    requests: Seq<(Address, usize)>,
    c: int,
    i: int,
    p: int,
)
    requires
        chunked(chunks, requests, requests.len() as int, 0),
        all_in_range(requests),
        0 <= c < chunks.len(),
        covers(chunks[c], i, p),
    ensures
        0 <= i < requests.len(),
        0 <= p < requests[i].1,
        0 <= requests[i].0.0 + p <= u64::MAX,
        mapped_bytes(arch, mem, dtb).dom().contains(requests[i].0.0 + p) <==> arch.walk(mem, dtb, chunks[c].vaddr) is Ok,
        arch.walk(mem, dtb, chunks[c].vaddr) matches Ok(found) ==> mapped_bytes(arch, mem, dtb)[requests[i].0.0 + p]
            == mem[found.address.0 + (p - chunks[c].offset)],
        mapped_targets(arch, mem, dtb).dom().contains(requests[i].0.0 + p) <==> arch.walk(mem, dtb, chunks[c].vaddr) is Ok,
        arch.walk(mem, dtb, chunks[c].vaddr) matches Ok(found) ==> mapped_targets(arch, mem, dtb)[requests[i].0.0 + p]
            == found.address.0 + (p - chunks[c].offset),
{
    let ch = chunks[c];
    let v = Address((requests[i].0.0 + p) as u64);
    arch.lemma_walk_within_page(mem, dtb, ch.vaddr, v);
}

impl<T: VirtualAddressTranslator> VirtualFromPhysical<T> {
    /// The translator, which is the backend too.
    pub closed spec fn translator(&self) -> T {
        self.mem
    }

    /// The architecture of the address space.
    pub closed spec fn arch(&self) -> Architecture {
        self.arch
    }

    /// The directory table base of the address space.
    pub closed spec fn dtb(&self) -> Address {
        self.dtb
    }

    /// The memory of the address space of `dtb` as `mem` translates it.
    pub fn new(mem: T, arch: Architecture, dtb: Address) -> (vm: Self)
        requires
            mem.inv(),
        ensures
            vm.inv(),
            vm.translator() == mem,
            vm.arch() == arch,
            vm.dtb() == dtb,
    {
        VirtualFromPhysical { mem, arch, dtb }
    }

    /// Gives the translator back.
    pub fn into_inner(self) -> (mem: T)
        ensures
            mem == self.translator(),
    {
        self.mem
    }

    /// A read-only look at the translator.
    pub fn translator_ref(&self) -> (mem: &T)
        ensures
            *mem == self.translator(),
    {
        &self.mem
    }
}

/// The address at which each chunk starts, tagged with the place of the
/// chunk.
pub open spec fn chunk_places(chunks: Seq<Chunk>) -> Seq<(Address, usize)> {
    Seq::new(chunks.len(), |c: int| (chunks[c].vaddr, c as usize))
}

/// `result` is the result with the tag `c`.
pub open spec fn given(found: Seq<Translation>, c: int, result: Result<PhysicalAddress, Error>) -> bool {
    exists|k: int| 0 <= k < found.len() && (#[trigger] found[k]).2 == c && found[k].0 == result
}

/// One of the chunks was translated, and `asked` holds for each chunk
/// the request by which it is read, as `asks` says of the chunk and its
/// translation among `found`.
pub open spec fn fetches(chunks: Seq<Chunk>, found: Seq<Translation>, asked: Seq<PhysicalData>) -> bool {
    &&& asked.len() == chunks.len()
    &&& exists|k: int| 0 <= k < found.len() && (#[trigger] found[k]).0 is Ok
    &&& forall|k: int|
        0 <= k < found.len() ==> (#[trigger] found[k]).2 < chunks.len() && asks(
            chunks[found[k].2 as int],
            found[k].0,
            asked[found[k].2 as int],
        )
}

/// What a failed read of the backend is reported as: an `OutOfBounds` as
/// it is, every other error as a `PhysicalReadError` with the same
/// address and level.
pub open spec fn read_report(e: Error) -> Error {
    if e.kind == ErrorKind::OutOfBounds {
        e
    } else {
        Error { kind: ErrorKind::PhysicalReadError, addr: e.addr, level: e.level }
    }
}

/// What a failed write of the backend is reported as: an `OutOfBounds` as
/// it is, every other error as a `PhysicalWriteError` with the same
/// address and level.
pub open spec fn write_report(e: Error) -> Error {
    if e.kind == ErrorKind::OutOfBounds {
        e
    } else {
        Error { kind: ErrorKind::PhysicalWriteError, addr: e.addr, level: e.level }
    }
}

/// The result reports a backend that could not read for the translation.
pub open spec fn unread(result: Translation) -> bool {
    result.0 is Err && result.0->Err_0.kind == ErrorKind::PhysicalReadError
}

/// `e` is the first of the results that reports a backend that could not
/// read.
pub open spec fn first_unread(found: Seq<Translation>, e: Error) -> bool {
    exists|k: int|
        0 <= k < found.len() && (#[trigger] found[k]).0 == Err::<PhysicalAddress, Error>(e) && unread(found[k]) && forall|j: int|
            0 <= j < k ==> !unread(#[trigger] found[j])
}

/// `e` is the error of the chunk with the lowest place among the chunks
/// that were not translated.
pub open spec fn first_failed(found: Seq<Translation>, e: Error) -> bool {
    exists|k: int|
        0 <= k < found.len() && (#[trigger] found[k]).0 == Err::<PhysicalAddress, Error>(e) && forall|j: int|
            0 <= j < found.len() && (#[trigger] found[j]).0 is Err ==> found[k].2 <= found[j].2
}

/// `batch` holds for each chunk the request by which it is written, as
/// `carries` says of the chunk and its translation among `found`.
pub open spec fn sends(chunks: Seq<Chunk>, requests: Seq<(Address, Seq<u8>)>, found: Seq<Translation>, batch: Seq<PhysicalData>) -> bool {
    &&& batch.len() == chunks.len()
    &&& forall|k: int|
        0 <= k < found.len() ==> (#[trigger] found[k]).2 < chunks.len() && carries(
            chunks[found[k].2 as int],
            found[k].0,
            batch[found[k].2 as int],
            requests,
        )
}

/// What a batch read does once the first address of each chunk was
/// translated, with the results `found` and the translator at `mid`.
/// Where a translation reports a backend that could not read, the read
/// fails with the first such report and nothing more is done. Where no chunk was
/// translated, it fails with `PartialTranslation` for the first request
/// that asks for bytes, and nothing more is done. Else the backend is
/// asked once, for what `fetches` says, and the read gives what the
/// backend gave, an error as `read_report` says.
pub open spec fn read_after<T: VirtualAddressTranslator>(
    chunks: Seq<Chunk>,
    requests: Seq<(Address, usize)>,
    found: Seq<Translation>,
    mid: T,
    post: T,
    r: Result<(), Error>,
) -> bool {
    if exists|k: int| 0 <= k < found.len() && unread(#[trigger] found[k]) {
        post == mid && r is Err && first_unread(found, r->Err_0)
    } else if forall|k: int| 0 <= k < found.len() ==> (#[trigger] found[k]).0 is Err {
        post == mid && r == Err::<(), Error>(
            Error { kind: ErrorKind::PartialTranslation, addr: requests[chunks[0].req as int].0, level: 0 },
        )
    } else {
        exists|asked: Seq<PhysicalData>, after: Seq<PhysicalData>, got: Result<(), Error>|
            fetches(chunks, found, asked) && #[trigger] mid.read_step(asked, post, after, got) && r == match got {
                Ok(_) => Ok::<(), Error>(()),
                Err(f) => Err::<(), Error>(read_report(f)),
            }
    }
}

/// What a batch read that asks for bytes inside the address space does
/// with the translator: the requests are cut into chunks, the first
/// address of each chunk is translated in one step, and the rest is as
/// `read_after` says.
pub open spec fn read_steps<T: VirtualAddressTranslator>(
    pre: T,
    arch: Architecture,
    dtb: Address,
    requests: Seq<(Address, usize)>,
    post: T,
    r: Result<(), Error>,
) -> bool {
    exists|chunks: Seq<Chunk>, found: Seq<Translation>, mid: T|
        chunked(chunks, requests, requests.len() as int, 0) && chunks.len() > 0 && #[trigger] pre.translate_step(
            arch,
            dtb,
            chunk_places(chunks),
            mid,
            found,
        ) && read_after(chunks, requests, found, mid, post, r)
}

/// What a batch write does once the first address of each chunk was
/// translated, with the results `found` and the translator at `mid`.
/// Where a translation reports a backend that could not read, the write
/// fails with the first such report; where a chunk was not translated
/// for another reason, it fails with the error of the first such chunk.
/// Nothing is written then. Else the backend
/// is asked once, to write what `sends` says, and the write gives what
/// the backend gave, an error as `write_report` says.
pub open spec fn write_after<T: VirtualAddressTranslator>(
    chunks: Seq<Chunk>,
    requests: Seq<(Address, Seq<u8>)>,
    found: Seq<Translation>,
    mid: T,
    post: T,
    r: Result<(), Error>,
) -> bool {
    if exists|k: int| 0 <= k < found.len() && unread(#[trigger] found[k]) {
        post == mid && r is Err && first_unread(found, r->Err_0)
    } else if exists|k: int| 0 <= k < found.len() && (#[trigger] found[k]).0 is Err {
        post == mid && r is Err && first_failed(found, r->Err_0)
    } else {
        exists|batch: Seq<PhysicalData>, got: Result<(), Error>|
            sends(chunks, requests, found, batch) && #[trigger] mid.write_step(batch, post, got) && r == match got {
                Ok(_) => Ok::<(), Error>(()),
                Err(f) => Err::<(), Error>(write_report(f)),
            }
    }
}

/// What a batch write of data inside the address space does with the
/// translator: the requests are cut into chunks, the first address of
/// each chunk is translated in one step, and the rest is as `write_after`
/// says.
pub open spec fn write_steps<T: VirtualAddressTranslator>(
    pre: T,
    arch: Architecture,
    dtb: Address,
    requests: Seq<(Address, Seq<u8>)>,
    post: T,
    r: Result<(), Error>,
) -> bool {
    exists|chunks: Seq<Chunk>, found: Seq<Translation>, mid: T|
        chunked(chunks, extents(requests), requests.len() as int, 0) && chunks.len() > 0 && #[trigger] pre.translate_step(
            arch,
            dtb,
            chunk_places(chunks),
            mid,
            found,
        ) && write_after(chunks, requests, found, mid, post, r)
}

/// The memory of one address space of the target: a translator, an
/// architecture and the directory table base of the address space. Reads
/// and writes are cut at page boundaries; the parts are translated in one
/// batch and then handed to the backend in one batch.
pub struct VirtualFromPhysical<T: VirtualAddressTranslator> {
    mem: T,
    arch: Architecture,
    dtb: Address,
}

/// The error that a failed read of the backend is reported as.
fn read_failure(e: Error) -> (f: Error)
    ensures
        f.kind == ErrorKind::OutOfBounds || f.kind == ErrorKind::PhysicalReadError,
        f.addr == e.addr,
        e.kind == ErrorKind::OutOfBounds ==> f == e,
        f == read_report(e),
{
    match e.kind {
        ErrorKind::OutOfBounds => e,
        _ => Error::at_level(ErrorKind::PhysicalReadError, e.addr, e.level),
    }
}

/// The error that a failed write of the backend is reported as.
fn write_failure(e: Error) -> (f: Error)
    ensures
        f.kind == ErrorKind::OutOfBounds || f.kind == ErrorKind::PhysicalWriteError,
        f.addr == e.addr,
        e.kind == ErrorKind::OutOfBounds ==> f == e,
        f == write_report(e),
{
    match e.kind {
        ErrorKind::OutOfBounds => e,
        _ => Error::at_level(ErrorKind::PhysicalWriteError, e.addr, e.level),
    }
}

/// Translates the first byte of each chunk in one batch. Fails where
/// the backend could not read on the way. The ghost result holds the
/// results as the translator gave them.
#[verifier::loop_isolation(false)]
fn resolve<T: VirtualAddressTranslator>(mem: &mut T, arch: Architecture, dtb: Address, chunks: &Vec<Chunk>) -> (r: (
    Result<Vec<Result<PhysicalAddress, Error>>, Error>,
    Ghost<Seq<Translation>>,
))
    requires
        old(mem).inv(),
    ensures
        final(mem).inv(),
        final(mem).view() == old(mem).view(),
        old(mem).faithful(arch) ==> final(mem).faithful(arch),
        r.0 matches Ok(resolved) ==> resolved.len() == chunks.len(),
        r.0 matches Ok(resolved) ==> (old(mem).faithful(arch) ==> resolved_ok(arch, old(mem).view(), dtb, chunks@, resolved@)),
        r.0 matches Err(e) ==> e.kind == ErrorKind::PhysicalReadError,
        old(mem).translate_step(arch, dtb, chunk_places(chunks@), *final(mem), r.1@),
        r.0 matches Ok(resolved) ==> forall|k: int|
            0 <= k < r.1@.len() ==> (#[trigger] r.1@[k]).2 < chunks.len() && resolved[r.1@[k].2 as int] == r.1@[k].0,
        r.0 matches Err(e) ==> first_unread(r.1@, e),
        r.0 is Ok ==> forall|k: int| 0 <= k < r.1@.len() ==> !unread(#[trigger] r.1@[k]),
        r.0 matches Ok(resolved) ==> forall|c: int| 0 <= c < chunks.len() ==> #[trigger] given(r.1@, c, resolved[c]),
        r.0 matches Ok(resolved) ==> forall|c: int|
            0 <= c < resolved.len() ==> ((#[trigger] resolved[c]) matches Err(e) ==> e.kind != ErrorKind::PhysicalReadError),
{
    let ghost image = mem.view();
    let ghost faithful = mem.faithful(arch);
    let m: usize = chunks.len();
    let mut inputs: Vec<(Address, usize)> = Vec::with_capacity(m);
    let mut resolved: Vec<Result<PhysicalAddress, Error>> = Vec::with_capacity(m);
    let mut c: usize = 0;
    while c < m
        invariant
            c <= m,
            m == chunks.len(),
            inputs.len() == c,
            resolved.len() == c,
            forall|j: int| 0 <= j < c ==> #[trigger] inputs[j] == (chunks[j].vaddr, j as usize),
            forall|j: int| 0 <= j < c ==> ((#[trigger] resolved[j]) matches Err(e) ==> e.kind != ErrorKind::PhysicalReadError),
        decreases m - c,
    {
        inputs.push((chunks[c].vaddr, c));
        resolved.push(Err(Error::new(ErrorKind::PageNotPresent, chunks[c].vaddr)));
        c += 1;
    }
    let mut out: Vec<Translation> = Vec::new();
    mem.virt_to_phys_tagged(arch, dtb, inputs.as_slice(), &mut out);
    proof {
        assert(out@.skip(0) =~= out@);
        assert(inputs@ =~= chunk_places(chunks@));
        assert(tagged(inputs@) =~= inputs@);
        lemma_tags_are_places(inputs@, out@);
        lemma_keys_cover(inputs@, out@);
        assert forall|k: int| 0 <= k < out.len() implies (#[trigger] out[k]).2 < m && out[k].1 == chunks[out[k].2 as int].vaddr by {
            let key = (out[k].1, out[k].2);
            assert(inputs@.contains(key));
            let j = choose|j: int| 0 <= j < inputs.len() && inputs[j] == key;
            assert(inputs[j] == (chunks[j].vaddr, j as usize));
        }
    }
    let total: usize = out.len();
    let mut k: usize = 0;
    while k < total
        invariant
            k <= total,
            total == out.len(),
            m == chunks.len(),
            resolved.len() == m,
            forall|j: int| 0 <= j < out.len() ==> (#[trigger] out[j]).2 < m && out[j].1 == chunks[out[j].2 as int].vaddr,
            forall|i: int, j: int| 0 <= i < j < out.len() ==> (#[trigger] out[i]).2 != (#[trigger] out[j]).2,
            forall|j: int| 0 <= j < k ==> resolved[(#[trigger] out[j]).2 as int] == out[j].0,
            forall|j: int| 0 <= j < k ==> !unread(#[trigger] out[j]),
            forall|j: int| 0 <= j < m ==> ((#[trigger] resolved[j]) matches Err(e) ==> e.kind != ErrorKind::PhysicalReadError),
            faithful ==> forall|j: int|
                0 <= j < out.len() ==> agrees((#[trigger] out[j]).0, arch.walk(image, dtb, out[j].1), out[j].1),
            faithful ==> forall|j: int|
                0 <= j < k ==> resolved[(#[trigger] out[j]).2 as int] == arch.walk(image, dtb, out[j].1) && (out[j].0 matches Err(e)
                    ==> e.kind != ErrorKind::PhysicalReadError),
        decreases total - k,
    {
        let tag: usize = out[k].2;
        match out[k].0 {
            Ok(found) => {
                resolved[tag] = Ok(found);
            },
            Err(e) => {
                match e.kind {
                    ErrorKind::PhysicalReadError => {
                        return (Err(e), Ghost(out@));
                    },
                    _ => {
                        resolved[tag] = Err(e);
                    },
                }
            },
        }
        k += 1;
    }
    proof {
        assert forall|c: int| 0 <= c < m implies #[trigger] given(out@, c, resolved[c]) by {
            assert(keys(out@).contains(inputs[c]));
            let j = choose|j: int| 0 <= j < keys(out@).len() && keys(out@)[j] == inputs[c];
            assert(out[j].2 == c);
            assert(resolved[out[j].2 as int] == out[j].0);
        }
        if faithful {
            assert forall|c: int| 0 <= c < m implies #[trigger] resolved[c] == arch.walk(image, dtb, chunks[c].vaddr) && (
            resolved[c] matches Err(e) ==> e.kind != ErrorKind::PhysicalReadError) by {
                assert(keys(out@).contains(inputs[c]));
                let j = choose|j: int| 0 <= j < keys(out@).len() && keys(out@)[j] == inputs[c];
                assert(out[j].2 == c);
                assert(resolved[out[j].2 as int] == arch.walk(image, dtb, out[j].1));
            }
        }
    }
    (Ok(resolved), Ghost(out@))
}

/// Reads each request of the batch in the address space of `dtb`. The
/// requests are cut at page boundaries; the parts are translated in one
/// batch and what was translated is read from the backend in one batch.
/// Bytes at addresses that are not mapped stay as they are in the buffer.
#[verifier::loop_isolation(false)]
pub fn read_virtual<T: VirtualAddressTranslator, VI: VirtualReadIterator>(mem: &mut T, arch: Architecture, dtb: Address, iter: &mut VI) -> (r: Result<(), Error>)
    requires
        old(mem).inv(),
    ensures
        final(mem).inv(),
        final(mem).view() == old(mem).view(),
        old(mem).faithful(arch) ==> final(mem).faithful(arch),
        same_shape(old(iter).requests(), final(iter).requests()),
        old(mem).faithful(arch) ==> read_outcome(
            mapped_bytes(arch, old(mem).view(), dtb),
            old(iter).requests(),
            final(iter).requests(),
            r,
        ),
        !all_in_range(extents(old(iter).requests())) ==> beyond_error(extents(old(iter).requests()), r) && final(iter).requests() == old(
            iter,
        ).requests(),
        all_empty(extents(old(iter).requests())) ==> r is Ok,
        all_empty(extents(old(iter).requests())) || !all_in_range(extents(old(iter).requests())) ==> *final(mem) == *old(mem),
        all_in_range(extents(old(iter).requests())) && !all_empty(extents(old(iter).requests())) ==> read_steps(
            *old(mem),
            arch,
            dtb,
            extents(old(iter).requests()),
            *final(mem),
            match r {
                Ok(_) => Ok::<(), Error>(()),
                Err(e) => Err::<(), Error>(e),
            },
        ),
{
    let ghost image = mem.view();
    let ghost view = mapped_bytes(arch, mem.view(), dtb);
    let ghost before = iter.requests();
    let ghost faithful = mem.faithful(arch);
    let nreq: usize = iter.count();
    let mut descs: Vec<(Address, usize)> = Vec::with_capacity(nreq);
    let mut i: usize = 0;
    while i < nreq
        invariant
            i <= nreq,
            nreq == before.len(),
            iter.requests() == before,
            descs.len() == i,
            forall|j: int| 0 <= j < i ==> (#[trigger] descs[j]).0 == before[j].0 && descs[j].1 == before[j].1.len(),
        decreases nreq - i,
    {
        descs.push(iter.request(i));
        i += 1;
    }
    proof {
        assert(descs@ =~= extents(before));
    }
    let chunks = match split_requests(&descs) {
        Ok(chunks) => chunks,
        Err(e) => {
            return Err(e);
        },
    };
    let m: usize = chunks.len();
    if m == 0 {
        proof {
            assert forall|i: int| 0 <= i < before.len() implies (#[trigger] before[i]).1 == merged(
                view,
                before[i].0.0 as int,
                before[i].1,
            ) by {
                assert(descs[i].1 == 0);
                assert(before[i].1 =~= merged(view, before[i].0.0 as int, before[i].1));
            }
        }
        return Ok(());
    }
    let (translated, Ghost(found)) = resolve(mem, arch, dtb, &chunks);
    let ghost mid = *mem;
    let resolved = match translated {
        Ok(resolved) => resolved,
        Err(e) => {
            proof {
                let k = choose|k: int|
                    0 <= k < found.len() && (#[trigger] found[k]).0 == Err::<PhysicalAddress, Error>(e) && unread(found[k]) && forall|j: int|
                        0 <= j < k ==> !unread(#[trigger] found[j]);
                assert(unread(found[k]));
                assert(read_after(chunks@, descs@, found, mid, *mem, Err::<(), Error>(e)));
            }
            return Err(e);
        },
    };
    let (mut batch, any) = read_requests(&chunks, &resolved);
    if !any {
        proof {
            if faithful {
                assert(!all_empty(descs@));
                if any_request_mapped(view, descs@) {
                    let i = choose|i: int| 0 <= i < descs.len() && any_mapped(view, (#[trigger] descs[i]).0.0 as int, descs[i].1 as int);
                    let p = choose|p: int| 0 <= p < descs[i].1 && #[trigger] view.dom().contains(descs[i].0.0 + p);
                    assert(covered(chunks@, i, p));
                    let c = choose|c: int| 0 <= c < chunks.len() && #[trigger] covers(chunks[c], i, p);
                    lemma_chunk_byte(arch, image, dtb, chunks@, descs@, c, i, p);
                    assert(resolved[c] is Err);
                }
            }
        }
        proof {
            assert forall|k: int| 0 <= k < found.len() implies (#[trigger] found[k]).0 is Err by {
                assert(resolved[found[k].2 as int] == found[k].0);
            }
            assert(read_after(
                chunks@,
                descs@,
                found,
                mid,
                *mem,
                Err::<(), Error>(Error { kind: ErrorKind::PartialTranslation, addr: descs[chunks[0].req as int].0, level: 0 }),
            ));
        }
        return Err(Error::new(ErrorKind::PartialTranslation, descs[chunks[0].req].0));
    }
    let ghost asked = batch@;
    proof {
        let j = choose|j: int| 0 <= j < chunks.len() && (#[trigger] resolved[j]) is Ok;
        assert(given(found, j, resolved[j]));
        let k = choose|k: int| 0 <= k < found.len() && (#[trigger] found[k]).2 == j && found[k].0 == resolved[j];
        assert(found[k].0 is Ok);
        assert forall|k: int| 0 <= k < found.len() implies (#[trigger] found[k]).2 < chunks.len() && asks(
            chunks[found[k].2 as int],
            found[k].0,
            asked[found[k].2 as int],
        ) by {
            assert(asks(chunks[found[k].2 as int], resolved[found[k].2 as int], asked[found[k].2 as int]));
        }
        assert(fetches(chunks@, found, asked));
    }
    let fetched = mem.phys_read_raw_iter(&mut batch);
    proof {
        assert(mid.read_step(asked, *mem, batch@, fetched));
        assert(read_after(
            chunks@,
            descs@,
            found,
            mid,
            *mem,
            match fetched {
                Ok(_) => Ok::<(), Error>(()),
                Err(f) => Err::<(), Error>(read_report(f)),
            },
        ));
    }
    match fetched {
        Ok(_) => {},
        Err(e) => {
            return Err(read_failure(e));
        },
    }
    proof {
        assert forall|j: int| 0 <= j < m implies fits(chunks[j], #[trigger] resolved[j], batch[j]) by {
            assert(fits(chunks[j], resolved[j], asked[j]));
            assert(batch[j].0 == asked[j].0);
        }
    }
    scatter(iter, &chunks, &resolved, &batch, Ghost(descs@));
    proof {
        if faithful {
            lemma_read_result(arch, image, dtb, chunks@, descs@, resolved@, batch@, before, iter.requests());
        }
    }
    Ok(())
}

/// Writes each request of the batch in the address space of `dtb`, or
/// none where one of their addresses is not mapped. The requests are cut
/// at page boundaries; the parts are translated in one batch and written
/// to the backend in one batch.
#[verifier::loop_isolation(false)]
pub fn write_virtual<T: VirtualAddressTranslator, VI: VirtualWriteIterator>(mem: &mut T, arch: Architecture, dtb: Address, iter: &VI) -> (r: Result<(), Error>)
    requires
        old(mem).inv(),
    ensures
        final(mem).inv(),
        final(mem).view().len() == old(mem).view().len(),
        old(mem).faithful(arch) ==> write_outcome(mapped_bytes(arch, old(mem).view(), dtb), iter.requests(), r),
        old(mem).faithful(arch) && r is Ok ==> write_effect(
            mapped_targets(arch, old(mem).view(), dtb),
            iter.requests(),
            old(mem).view(),
            final(mem).view(),
        ),
        r matches Err(e) && e.kind != ErrorKind::OutOfBounds && e.kind != ErrorKind::PhysicalWriteError ==> final(mem).view() == old(
            mem,
        ).view(),
        old(mem).faithful(arch) ==> (r matches Err(e) ==> e.kind == ErrorKind::InvalidArgument || e.kind == ErrorKind::OutOfBounds
            || e.kind == ErrorKind::PhysicalReadError || e.kind == ErrorKind::PhysicalWriteError || arch.walk(
            old(mem).view(),
            dtb,
            e.addr,
        ) == Err::<PhysicalAddress, Error>(e)),
        old(mem).faithful(arch) ==> write_frame(mapped_targets(arch, old(mem).view(), dtb), iter.requests(), old(mem).view(), final(mem).view()),
        !all_in_range(extents(iter.requests())) ==> beyond_error(extents(iter.requests()), r),
        old(mem).faithful(arch) && !all_requests_mapped(mapped_bytes(arch, old(mem).view(), dtb), extents(iter.requests())) ==> r is Err
            && final(mem).view() == old(mem).view(),
        all_empty(extents(iter.requests())) ==> r is Ok,
        all_empty(extents(iter.requests())) || !all_in_range(extents(iter.requests())) ==> *final(mem) == *old(mem),
        all_in_range(extents(iter.requests())) && !all_empty(extents(iter.requests())) ==> write_steps(
            *old(mem),
            arch,
            dtb,
            iter.requests(),
            *final(mem),
            match r {
                Ok(_) => Ok::<(), Error>(()),
                Err(e) => Err::<(), Error>(e),
            },
        ),
{
    let ghost image = mem.view();
    let ghost view = mapped_bytes(arch, mem.view(), dtb);
    let ghost requests = iter.requests();
    let ghost faithful = mem.faithful(arch);
    let nreq: usize = iter.count();
    let mut descs: Vec<(Address, usize)> = Vec::with_capacity(nreq);
    let mut i: usize = 0;
    while i < nreq
        invariant
            i <= nreq,
            nreq == requests.len(),
            iter.requests() == requests,
            descs.len() == i,
            forall|j: int| 0 <= j < i ==> (#[trigger] descs[j]).0 == requests[j].0 && descs[j].1 == requests[j].1.len(),
        decreases nreq - i,
    {
        descs.push(iter.request(i));
        i += 1;
    }
    proof {
        assert(descs@ =~= extents(requests));
    }
    let chunks = match split_requests(&descs) {
        Ok(chunks) => chunks,
        Err(e) => {
            return Err(e);
        },
    };
    let m: usize = chunks.len();
    if m == 0 {
        proof {
            assert forall|i: int| 0 <= i < descs.len() implies all_mapped(view, (#[trigger] descs[i]).0.0 as int, descs[i].1 as int) by {
                assert(descs[i].1 == 0);
            }
            assert forall|a: int| 0 <= a < image.len() implies !aimed(mapped_targets(arch, image, dtb), requests, a) by {
                if aimed(mapped_targets(arch, image, dtb), requests, a) {
                    let (i, p) = choose|i: int, p: int| lies_at(mapped_targets(arch, image, dtb), requests, i, p, a);
                    assert(descs[i].1 == 0);
                }
            }
        }
        return Ok(());
    }
    let (translated, Ghost(found)) = resolve(mem, arch, dtb, &chunks);
    let ghost mid = *mem;
    let resolved = match translated {
        Ok(resolved) => resolved,
        Err(e) => {
            proof {
                let k = choose|k: int|
                    0 <= k < found.len() && (#[trigger] found[k]).0 == Err::<PhysicalAddress, Error>(e) && unread(found[k]) && forall|j: int|
                        0 <= j < k ==> !unread(#[trigger] found[j]);
                assert(unread(found[k]));
                assert(write_after(chunks@, requests, found, mid, *mem, Err::<(), Error>(e)));
            }
            return Err(e);
        },
    };
    let mut batch: Vec<PhysicalData> = Vec::with_capacity(m);
    let mut c: usize = 0;
    while c < m
        invariant
            c <= m,
            m == chunks.len(),
            resolved.len() == m,
            batch.len() == c,
            iter.requests() == requests,
            descs@ == extents(requests),
            chunked(chunks@, descs@, descs.len() as int, 0),
            forall|j: int| 0 <= j < c ==> carries(chunks[j], resolved[j], #[trigger] batch[j], requests),
        decreases m - c,
    {
        let chunk = chunks[c];
        match resolved[c] {
            Ok(found) => {
                assert(descs[chunk.req as int].1 == requests[chunk.req as int].1.len());
                batch.push((found, iter.data(chunk.req, chunk.offset, chunk.len)));
            },
            Err(e) => {
                proof {
                    if faithful {
                        assert(covers(chunk, chunk.req as int, chunk.offset as int));
                        lemma_chunk_byte(arch, image, dtb, chunks@, descs@, c as int, chunk.req as int, chunk.offset as int);
                        assert(!all_mapped(view, descs[chunk.req as int].0.0 as int, descs[chunk.req as int].1 as int));
                        arch.lemma_walk_error(image, dtb, chunk.vaddr);
                        assert(descs[chunk.req as int].1 == requests[chunk.req as int].1.len());
                        assert(unmapped_at(view, requests, chunk.req as int, chunk.offset as int));
                        assert(e.addr.0 == requests[chunk.req as int].0.0 + chunk.offset);
                    }
                    assert(given(found, c as int, resolved[c as int]));
                    let k = choose|k: int| 0 <= k < found.len() && (#[trigger] found[k]).2 == c && found[k].0 == resolved[c as int];
                    assert(found[k].0 is Err);
                    assert forall|j: int| 0 <= j < found.len() && (#[trigger] found[j]).0 is Err implies found[k].2 <= found[j].2 by {
                        let t = found[j].2 as int;
                        assert(resolved[t] == found[j].0);
                        if t < c {
                            assert(carries(chunks[t], resolved[t], batch[t], requests));
                        }
                    }
                    assert(first_failed(found, e));
                    assert(write_after(chunks@, requests, found, mid, *mem, Err::<(), Error>(e)));
                }
                return Err(e);
            },
        }
        c += 1;
    }
    proof {
        if faithful {
            assert forall|i: int| 0 <= i < descs.len() implies all_mapped(view, (#[trigger] descs[i]).0.0 as int, descs[i].1 as int) by {
                assert forall|p: int| 0 <= p < descs[i].1 implies #[trigger] view.dom().contains(descs[i].0.0 + p) by {
                    assert(covered(chunks@, i, p));
                    let c = choose|c: int| 0 <= c < chunks.len() && #[trigger] covers(chunks[c], i, p);
                    lemma_chunk_byte(arch, image, dtb, chunks@, descs@, c, i, p);
                    assert(carries(chunks[c], resolved[c], batch[c], requests));
                }
            }
        }
    }
    proof {
        assert forall|k: int| 0 <= k < found.len() implies (#[trigger] found[k]).2 < chunks.len() && carries(
            chunks[found[k].2 as int],
            found[k].0,
            batch[found[k].2 as int],
            requests,
        ) by {
            assert(carries(chunks[found[k].2 as int], resolved[found[k].2 as int], batch[found[k].2 as int], requests));
        }
        assert(sends(chunks@, requests, found, batch@));
    }
    let r = mem.phys_write_raw_iter(&batch);
    proof {
        assert(mid.write_step(batch@, *mem, r));
        assert(write_after(
            chunks@,
            requests,
            found,
            mid,
            *mem,
            match r {
                Ok(_) => Ok::<(), Error>(()),
                Err(f) => Err::<(), Error>(write_report(f)),
            },
        ));
    }
    proof {
        if faithful {
            assert forall|a: int| 0 <= a < image.len() && !aimed(mapped_targets(arch, image, dtb), requests, a) implies #[trigger] mem.view()[a]
                == image[a] by {
                if touched(batch@, a) {
                    lemma_touched_is_aimed(arch, image, dtb, chunks@, descs@, resolved@, batch@, requests, a);
                }
            }
        }
    }
    match r {
        Ok(_) => {
            proof {
                if faithful {
                    lemma_write_effect(arch, image, dtb, chunks@, descs@, resolved@, batch@, requests);
                }
            }
            Ok(())
        },
        Err(e) => Err(write_failure(e)),
    }
}

impl<T: VirtualAddressTranslator> VirtualMemory for VirtualFromPhysical<T> {
    open spec fn inv(&self) -> bool {
        self.translator().inv()
    }

    open spec fn faithful(&self) -> bool {
        self.translator().faithful(self.arch())
    }

    open spec fn virt_view(&self) -> Map<int, u8> {
        mapped_bytes(self.arch(), self.translator().view(), self.dtb())
    }

    open spec fn virt_targets(&self) -> Map<int, int> {
        mapped_targets(self.arch(), self.translator().view(), self.dtb())
    }

    open spec fn phys_view(&self) -> Seq<u8> {
        self.translator().view()
    }

    /// The translator is used as `read_steps` says.
    open spec fn virt_read_step(&self, requests: Seq<(Address, usize)>, next: Self, r: Result<(), Error>) -> bool {
        next.arch() == self.arch() && next.dtb() == self.dtb() && read_steps(
            self.translator(),
            self.arch(),
            self.dtb(),
            requests,
            next.translator(),
            r,
        )
    }

    /// The translator is used as `write_steps` says.
    open spec fn virt_write_step(&self, requests: Seq<(Address, Seq<u8>)>, next: Self, r: Result<(), Error>) -> bool {
        next.arch() == self.arch() && next.dtb() == self.dtb() && write_steps(
            self.translator(),
            self.arch(),
            self.dtb(),
            requests,
            next.translator(),
            r,
        )
    }

    /// The address is translated in one step, and the page is that of the
    /// translation.
    open spec fn virt_info_step(&self, addr: Address, next: Self, r: Result<Page, Error>) -> bool {
        next.arch() == self.arch() && next.dtb() == self.dtb() && exists|found: Seq<Translation>| #[trigger]
            self.translator().translate_step(self.arch(), self.dtb(), seq![(addr, 0usize)], next.translator(), found) && found.len() == 1
                && r == match found[0].0 {
                Ok(there) => Ok::<Page, Error>(there.page),
                Err(e) => Err::<Page, Error>(e),
            }
    }

    fn virt_read_raw_iter<VI: VirtualReadIterator>(&mut self, iter: &mut VI) -> (r: Result<(), Error>)
        ensures
            final(self).translator().view() == old(self).translator().view(),
            final(self).arch() == old(self).arch(),
            final(self).dtb() == old(self).dtb(),
    {
        read_virtual(&mut self.mem, self.arch, self.dtb, iter)
    }

    fn virt_write_raw_iter<VI: VirtualWriteIterator>(&mut self, iter: &VI) -> (r: Result<(), Error>)
        ensures
            final(self).arch() == old(self).arch(),
            final(self).dtb() == old(self).dtb(),
    {
        write_virtual(&mut self.mem, self.arch, self.dtb, iter)
    }

    fn virt_page_info(&mut self, addr: Address) -> (r: Result<Page, Error>)
        ensures
            final(self).translator().view() == old(self).translator().view(),
            final(self).arch() == old(self).arch(),
            final(self).dtb() == old(self).dtb(),
            old(self).faithful() ==> (r matches Ok(page) ==> old(self).arch().walk(old(self).translator().view(), old(self).dtb(), addr)
                matches Ok(found) && found.page == page),
            old(self).faithful() ==> (r matches Err(e) ==> e.kind == ErrorKind::PhysicalReadError || old(self).arch().walk(
                old(self).translator().view(),
                old(self).dtb(),
                addr,
            ) == Err::<PhysicalAddress, Error>(e)),
    {
        let first = self.mem.virt_to_phys(self.arch, self.dtb, addr);
        proof {
            let found = choose|found: Seq<Translation>| #[trigger]
                old(self).mem.translate_step(self.arch, self.dtb, seq![(addr, 0usize)], self.mem, found) && found.len() == 1 && found[0].0
                    == first;
            assert(old(self).translator().translate_step(old(self).arch(), old(self).dtb(), seq![(addr, 0usize)], self.translator(), found));
        }
        match first {
            Ok(found) => Ok(found.page),
            Err(e) => Err(e),
        }
    }
}

} // verus!
