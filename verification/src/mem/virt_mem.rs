//! Reading and writing the target's memory by virtual address.
use vstd::prelude::*;

use crate::bytes::{le_value, read_le, lemma_le_value_bound, lemma_pow256_values};
use crate::error::{Error, ErrorKind};
use crate::mem::phys_mem::write_at;
use crate::types::{Address, Length, Page};

verus! {

/// One read request: where in virtual memory, and the buffer to fill.
pub type VirtualReadData = (Address, Vec<u8>);

/// One write request: where in virtual memory, and the bytes to write.
pub type VirtualWriteData = (Address, Vec<u8>);

/// The requests of `after` have the addresses and the lengths of those of
/// `before`.
pub open spec fn same_shape(before: Seq<(Address, Seq<u8>)>, after: Seq<(Address, Seq<u8>)>) -> bool {
    &&& after.len() == before.len()
    &&& forall|i: int| 0 <= i < before.len() ==> (#[trigger] after[i]).0 == before[i].0 && after[i].1.len() == before[i].1.len()
}

/// What a read of `before.len()` bytes at `addr` leaves in a buffer that
/// held `before`: the byte of `view` where the address is mapped, and the
/// byte that was there where it is not.
pub open spec fn merged(view: Map<int, u8>, addr: int, before: Seq<u8>) -> Seq<u8> {
    Seq::new(before.len(), |p: int| if view.dom().contains(addr + p) { view[addr + p] } else { before[p] })
}

/// One of the `len` addresses from `addr` on is mapped.
pub open spec fn any_mapped(view: Map<int, u8>, addr: int, len: int) -> bool {
    exists|p: int| 0 <= p < len && #[trigger] view.dom().contains(addr + p)
}

/// Every one of the `len` addresses from `addr` on is mapped.
pub open spec fn all_mapped(view: Map<int, u8>, addr: int, len: int) -> bool {
    forall|p: int| 0 <= p < len ==> #[trigger] view.dom().contains(addr + p)
}

/// The address and the length of each request.
pub open spec fn extents(requests: Seq<(Address, Seq<u8>)>) -> Seq<(Address, usize)> {
    requests.map_values(|r: (Address, Seq<u8>)| (r.0, r.1.len() as usize))
}

/// One of the addresses of one of the requests is mapped.
pub open spec fn any_request_mapped(view: Map<int, u8>, requests: Seq<(Address, usize)>) -> bool {
    exists|i: int| 0 <= i < requests.len() && any_mapped(view, (#[trigger] requests[i]).0.0 as int, requests[i].1 as int)
}

/// Every address of every request is mapped.
pub open spec fn all_requests_mapped(view: Map<int, u8>, requests: Seq<(Address, usize)>) -> bool {
    forall|i: int| 0 <= i < requests.len() ==> all_mapped(view, (#[trigger] requests[i]).0.0 as int, requests[i].1 as int)
}

/// Every request lies inside the address space.
pub open spec fn all_in_range(requests: Seq<(Address, usize)>) -> bool {
    forall|i: int| 0 <= i < requests.len() ==> (#[trigger] requests[i]).0.0 + requests[i].1 <= 0x1_0000_0000_0000_0000
}

/// Request `k` is the first that reaches beyond the address space.
pub open spec fn first_beyond(requests: Seq<(Address, usize)>, k: int) -> bool {
    &&& 0 <= k < requests.len()
    &&& requests[k].0.0 + requests[k].1 > 0x1_0000_0000_0000_0000
    &&& forall|j: int| 0 <= j < k ==> (#[trigger] requests[j]).0.0 + requests[j].1 <= 0x1_0000_0000_0000_0000
}

/// Request `k` is the first that asks for a byte.
pub open spec fn first_asking(requests: Seq<(Address, usize)>, k: int) -> bool {
    &&& 0 <= k < requests.len()
    &&& requests[k].1 > 0
    &&& forall|j: int| 0 <= j < k ==> (#[trigger] requests[j]).1 == 0
}

/// The error for a batch with a request beyond the address space:
/// `InvalidArgument` for the address of the first such request.
pub open spec fn beyond_error(requests: Seq<(Address, usize)>, r: Result<(), Error>) -> bool {
    exists|k: int| #[trigger] first_beyond(requests, k) && r == Err::<(), Error>(
        Error { kind: ErrorKind::InvalidArgument, addr: requests[k].0, level: 0 },
    )
}

/// No request asks for a byte.
pub open spec fn all_empty(requests: Seq<(Address, usize)>) -> bool {
    forall|i: int| 0 <= i < requests.len() ==> (#[trigger] requests[i]).1 == 0
}

/// A batch of read requests.
pub trait VirtualReadIterator {
    /// The requests: for each its address and what its buffer holds.
    spec fn requests(&self) -> Seq<(Address, Seq<u8>)>;

    /// The number of requests.
    fn count(&self) -> (n: usize)
        ensures
            n == self.requests().len(),
    ;

    /// The address of request `i` and the number of bytes it asks for.
    fn request(&self, i: usize) -> (r: (Address, usize))
        requires
            i < self.requests().len(),
        ensures
            r.0 == self.requests()[i as int].0,
            r.1 == self.requests()[i as int].1.len(),
    ;

    /// Puts `data` into the buffer of request `i`, from `offset` on.
    fn store(&mut self, i: usize, offset: usize, data: &Vec<u8>)
        requires
            i < old(self).requests().len(),
            offset + data.len() <= old(self).requests()[i as int].1.len(),
        ensures
            final(self).requests() == old(self).requests().update(
                i as int,
                (old(self).requests()[i as int].0, write_at(old(self).requests()[i as int].1, offset as int, data@)),
            ),
    ;
}

/// A batch of write requests.
pub trait VirtualWriteIterator {
    /// The requests: for each its address and the bytes to write there.
    spec fn requests(&self) -> Seq<(Address, Seq<u8>)>;

    /// The number of requests.
    fn count(&self) -> (n: usize)
        ensures
            n == self.requests().len(),
    ;

    /// The address of request `i` and the number of its bytes.
    fn request(&self, i: usize) -> (r: (Address, usize))
        requires
            i < self.requests().len(),
        ensures
            r.0 == self.requests()[i as int].0,
            r.1 == self.requests()[i as int].1.len(),
    ;

    /// A copy of `len` bytes of request `i`, from `offset` on.
    fn data(&self, i: usize, offset: usize, len: usize) -> (bytes: Vec<u8>)
        requires
            i < self.requests().len(),
            offset + len <= self.requests()[i as int].1.len(),
        ensures
            bytes@ == self.requests()[i as int].1.subrange(offset as int, offset + len),
    ;
}

/// What the requests of a vector hold.
pub open spec fn requests_of(batch: Seq<(Address, Vec<u8>)>) -> Seq<(Address, Seq<u8>)> {
    batch.map_values(|r: (Address, Vec<u8>)| (r.0, r.1@))
}

impl VirtualReadIterator for Vec<VirtualReadData> {
    open spec fn requests(&self) -> Seq<(Address, Seq<u8>)> {
        requests_of(self@)
    }

    fn count(&self) -> (n: usize) {
        self.len()
    }

    fn request(&self, i: usize) -> (r: (Address, usize)) {
        (self[i].0, self[i].1.len())
    }

    fn store(&mut self, i: usize, offset: usize, data: &Vec<u8>) {
        let n: usize = data.len();
        let ghost before = self@;
        let mut k: usize = 0;
        while k < n
            invariant
                k <= n,
                n == data.len(),
                i < self.len(),
                self.len() == before.len(),
                offset + n <= before[i as int].1.len(),
                self[i as int].0 == before[i as int].0,
                self[i as int].1@ == write_at(before[i as int].1@, offset as int, data@.take(k as int)),
                forall|j: int| 0 <= j < self.len() && j != i ==> self[j] == before[j],
            decreases n - k,
        {
            let ghost prev = self[i as int].1@;
            self[i].1[offset + k] = data[k];
            proof {
                assert(self[i as int].1@ =~= write_at(before[i as int].1@, offset as int, data@.take(k + 1)));
            }
            k += 1;
        }
        proof {
            assert(data@.take(n as int) =~= data@);
            assert(requests_of(self@) =~= requests_of(before).update(
                i as int,
                (before[i as int].0, write_at(before[i as int].1@, offset as int, data@)),
            ));
        }
    }
}

impl VirtualWriteIterator for Vec<VirtualWriteData> {
    open spec fn requests(&self) -> Seq<(Address, Seq<u8>)> {
        requests_of(self@)
    }

    fn count(&self) -> (n: usize) {
        self.len()
    }

    fn request(&self, i: usize) -> (r: (Address, usize)) {
        (self[i].0, self[i].1.len())
    }

    fn data(&self, i: usize, offset: usize, len: usize) -> (bytes: Vec<u8>) {
        let mut bytes: Vec<u8> = Vec::with_capacity(len);
        let mut k: usize = 0;
        while k < len
            invariant
                k <= len,
                i < self.len(),
                offset + len <= self[i as int].1.len(),
                bytes@ == self[i as int].1@.subrange(offset as int, offset + k),
            decreases len - k,
        {
            bytes.push(self[i].1[offset + k]);
            proof {
                assert(self[i as int].1@.subrange(offset as int, offset + k).push(self[i as int].1@[offset + k])
                    =~= self[i as int].1@.subrange(offset as int, offset + k + 1));
            }
            k += 1;
        }
        bytes
    }
}

/// A part of a request that lies in one page.
#[derive(Clone, Copy, Debug, PartialEq, Eq, Structural)]
pub struct Chunk {
    /// The request that the part belongs to.
    pub req: usize,
    /// Where in the request the part begins.
    pub offset: usize,
    /// The number of its bytes.
    pub len: usize,
    /// The virtual address of its first byte.
    pub vaddr: Address,
}

/// Byte `p` of request `i` belongs to the chunk.
pub open spec fn covers(chunk: Chunk, i: int, p: int) -> bool {
    chunk.req == i && chunk.offset <= p < chunk.offset + chunk.len
}

/// Byte `p` of request `i` belongs to one of the chunks.
pub open spec fn covered(chunks: Seq<Chunk>, i: int, p: int) -> bool {
    exists|c: int| 0 <= c < chunks.len() && #[trigger] covers(chunks[c], i, p)
}

/// `chunks` cuts the first `upto` requests, and the first `pos` bytes of
/// the next, into parts of one page each: every part lies in its request
/// and in one page, the parts come in the order of the requests and of
/// their bytes, every part but the last of a request ends where its page
/// ends, and every byte belongs to a part.
pub open spec fn chunked(chunks: Seq<Chunk>, requests: Seq<(Address, usize)>, upto: int, pos: int) -> bool {
    &&& forall|c: int|
        0 <= c < chunks.len() ==> {
            let ch = #[trigger] chunks[c];
            &&& 0 <= ch.req < requests.len()
            &&& ch.req <= upto
            &&& ch.req == upto ==> ch.offset + ch.len <= pos
            &&& 0 < ch.len
            &&& ch.offset + ch.len <= requests[ch.req as int].1
            &&& ch.vaddr.0 == requests[ch.req as int].0.0 + ch.offset
            &&& ch.vaddr.0 % 4096 + ch.len <= 4096
            &&& ch.offset + ch.len == requests[ch.req as int].1 || ch.vaddr.0 % 4096 + ch.len == 4096
        }
    &&& forall|c: int, d: int|
        0 <= c < d < chunks.len() ==> (#[trigger] chunks[c]).req < (#[trigger] chunks[d]).req || (chunks[c].req == chunks[d].req
            && chunks[c].offset + chunks[c].len <= chunks[d].offset)
    &&& forall|i: int, p: int|
        0 <= i < requests.len() && 0 <= p < requests[i].1 && (i < upto || (i == upto && p < pos)) ==> #[trigger] covered(
            chunks,
            i,
            p,
        )
}

/// Cuts the requests of a batch into parts of one page each. Fails with
/// `InvalidArgument` where a request reaches beyond the address space.
pub fn split_requests(requests: &Vec<(Address, usize)>) -> (r: Result<Vec<Chunk>, Error>)
    ensures
        r is Ok <==> all_in_range(requests@),
        r matches Ok(chunks) ==> chunked(chunks@, requests@, requests.len() as int, 0),
        r matches Ok(chunks) ==> (chunks.len() == 0 <==> all_empty(requests@)),
        r matches Ok(chunks) ==> (chunks.len() > 0 ==> first_asking(requests@, chunks[0].req as int)),
        r matches Err(e) ==> e.kind == ErrorKind::InvalidArgument,
        r matches Err(e) ==> exists|k: int| #[trigger] first_beyond(requests@, k) && e == (Error {
            kind: ErrorKind::InvalidArgument,
            addr: requests[k].0,
            level: 0,
        }),
{
    let n: usize = requests.len();
    let mut chunks: Vec<Chunk> = Vec::new();
    let mut i: usize = 0;
    while i < n
        invariant
            i <= n,
            n == requests.len(),
            chunked(chunks@, requests@, i as int, 0),
            forall|j: int| 0 <= j < i ==> (#[trigger] requests[j]).0.0 + requests[j].1 <= 0x1_0000_0000_0000_0000,
            chunks.len() == 0 <==> forall|j: int| 0 <= j < i ==> (#[trigger] requests[j]).1 == 0,
        decreases n - i,
    {
        let addr: Address = requests[i].0;
        let len: usize = requests[i].1;
        if len > 0 && (len - 1) as u64 > u64::MAX - addr.0 {
            proof {
                assert(first_beyond(requests@, i as int));
            }
            return Err(Error::new(ErrorKind::InvalidArgument, addr));
        }
        let mut pos: usize = 0;
        while pos < len
            invariant
                pos <= len,
                i < n,
                n == requests.len(),
                addr == requests[i as int].0,
                len == requests[i as int].1,
                addr.0 + len <= 0x1_0000_0000_0000_0000,
                chunked(chunks@, requests@, i as int, pos as int),
                pos > 0 ==> chunks.len() > 0,
                pos == 0 ==> (chunks.len() == 0 <==> forall|j: int| 0 <= j < i ==> (#[trigger] requests[j]).1 == 0),
            decreases len - pos,
        {
            let vaddr: u64 = addr.0 + pos as u64;
            let room: u64 = 4096 - vaddr % 4096;
            let part: usize = if (len - pos) as u64 <= room {
                len - pos
            } else {
                room as usize
            };
            let ghost before = chunks@;
            let chunk = Chunk { req: i, offset: pos, len: part, vaddr: Address(vaddr) };
            chunks.push(chunk);
            proof {
                assert forall|c: int| 0 <= c < before.len() implies chunks[c] == before[c] by {}
                assert forall|j: int, p: int|
                    0 <= j < requests.len() && 0 <= p < requests[j].1 && (j < i || (j == i && p < pos + part)) implies #[trigger] covered(
                    chunks@,
                    j,
                    p,
                ) by {
                    if j < i || p < pos {
                        assert(covered(before, j, p));
                        let c = choose|c: int| 0 <= c < before.len() && #[trigger] covers(before[c], j, p);
                        assert(covers(chunks[c], j, p));
                    } else {
                        assert(covers(chunks[before.len() as int], j, p));
                    }
                }
            }
            pos += part;
        }
        i += 1;
    }
    proof {
        if chunks.len() > 0 {
            lemma_first_chunk(chunks@, requests@);
        }
    }
    Ok(chunks)
}

/// The first chunk belongs to the first request that asks for a byte.
pub proof fn lemma_first_chunk(chunks: Seq<Chunk>, requests: Seq<(Address, usize)>)
    requires
        chunked(chunks, requests, requests.len() as int, 0),
        chunks.len() > 0,
    ensures
        first_asking(requests, chunks[0].req as int),
{
    let q = chunks[0].req as int;
    assert forall|j: int| 0 <= j < q implies (#[trigger] requests[j]).1 == 0 by {
        if requests[j].1 > 0 {
            assert(covered(chunks, j, 0));
            let c = choose|c: int| 0 <= c < chunks.len() && #[trigger] covers(chunks[c], j, 0);
            if c > 0 {
                assert(chunks[0].req < chunks[c].req || (chunks[0].req == chunks[c].req && chunks[0].offset + chunks[0].len
                    <= chunks[c].offset));
            }
        }
    }
}

/// The bytes that a read of `len` bytes at `addr` gives in a buffer of
/// zeros.
pub open spec fn read_value(view: Map<int, u8>, addr: int, len: int) -> Seq<u8> {
    merged(view, addr, Seq::new(len as nat, |p: int| 0u8))
}

/// What a batch read that ended with `r` did, where `before` and `after`
/// are the requests before and after it. A read that gave `Ok` had all
/// requests inside the address space and found a mapped address unless it
/// asked for no byte, and every buffer holds what `merged` says. A read
/// that failed changed no buffer. One that gave `InvalidArgument` had a
/// request beyond the address space, and the error carries the address
/// of the first such request; one that gave `PartialTranslation` asked
/// for bytes and found no address mapped, and the error carries the
/// address of the first request that asked for bytes. The only other
/// errors are `OutOfBounds` and `PhysicalReadError`, for what the backend
/// could not read of requests inside the address space; when they come
/// is not a matter of the address space, and is said by the step relation
/// of the implementation.
pub open spec fn read_outcome(
    view: Map<int, u8>,
    before: Seq<(Address, Seq<u8>)>,
    after: Seq<(Address, Seq<u8>)>,
    r: Result<(), Error>,
) -> bool {
    match r {
        Ok(_) => {
            &&& all_in_range(extents(before))
            &&& all_empty(extents(before)) || any_request_mapped(view, extents(before))
            &&& forall|i: int| 0 <= i < before.len() ==> (#[trigger] after[i]).1 == merged(view, before[i].0.0 as int, before[i].1)
        },
        Err(e) => after == before && match e.kind {
            ErrorKind::InvalidArgument => beyond_error(extents(before), r),
            ErrorKind::PartialTranslation => all_in_range(extents(before)) && !any_request_mapped(view, extents(before))
                && exists|k: int| #[trigger]
                first_asking(extents(before), k) && e == (Error { kind: ErrorKind::PartialTranslation, addr: before[k].0, level: 0 }),
            ErrorKind::OutOfBounds | ErrorKind::PhysicalReadError => all_in_range(extents(before)),
            _ => false,
        },
    }
}

/// What a batch write that ended with `r` met. A write that gave `Ok` had
/// all requests inside the address space and every address mapped. A write
/// that gave `InvalidArgument` had a request beyond the address space; one
/// that gave a translation fault carries an address of a request that is
/// not mapped. A `PhysicalReadError` is a walk that the backend could not
/// read for. `OutOfBounds` and `PhysicalWriteError` are what the backend
/// could not write, and come only where every address is mapped.
pub open spec fn write_outcome(view: Map<int, u8>, requests: Seq<(Address, Seq<u8>)>, r: Result<(), Error>) -> bool {
    match r {
        Ok(_) => all_in_range(extents(requests)) && all_requests_mapped(view, extents(requests)),
        Err(e) => match e.kind {
            ErrorKind::InvalidArgument => beyond_error(extents(requests), r),
            ErrorKind::PageNotPresent | ErrorKind::InvalidEntry | ErrorKind::AddressNonCanonical => all_in_range(extents(requests))
                && exists|i: int, p: int| #[trigger] unmapped_at(view, requests, i, p) && e.addr.0 == requests[i].0.0 + p,
            ErrorKind::PhysicalReadError => all_in_range(extents(requests)),
            ErrorKind::OutOfBounds | ErrorKind::PhysicalWriteError => all_in_range(extents(requests)) && all_requests_mapped(
                view,
                extents(requests),
            ),
            _ => false,
        },
    }
}

/// Byte `p` of request `i` is not mapped.
pub open spec fn unmapped_at(view: Map<int, u8>, requests: Seq<(Address, Seq<u8>)>, i: int, p: int) -> bool {
    &&& 0 <= i < requests.len()
    &&& 0 <= p < requests[i].1.len()
    &&& !view.dom().contains(requests[i].0.0 + p)
}

/// Byte `p` of request `i` is mapped and lies at physical address `a`.
pub open spec fn lies_at(targets: Map<int, int>, requests: Seq<(Address, Seq<u8>)>, i: int, p: int, a: int) -> bool {
    &&& 0 <= i < requests.len()
    &&& 0 <= p < requests[i].1.len()
    &&& targets.dom().contains(requests[i].0.0 + p)
    &&& targets[requests[i].0.0 + p] == a
}

/// One of the bytes of one of the requests lies at physical address `a`.
pub open spec fn aimed(targets: Map<int, int>, requests: Seq<(Address, Seq<u8>)>, a: int) -> bool {
    exists|i: int, p: int| lies_at(targets, requests, i, p, a)
}

/// What a batch write leaves in physical memory: at an address where a
/// byte of a request lies, a byte of a request that lies there; everywhere
/// else the byte that was there. `targets` gives the physical address of
/// each mapped virtual address.
pub open spec fn write_effect(targets: Map<int, int>, requests: Seq<(Address, Seq<u8>)>, before: Seq<u8>, after: Seq<u8>) -> bool {
    &&& after.len() == before.len()
    &&& forall|a: int|
        0 <= a < before.len() ==> if aimed(targets, requests, a) {
            exists|i: int, p: int| #[trigger] lies_at(targets, requests, i, p, a) && after[a] == requests[i].1[p]
        } else {
            #[trigger] after[a] == before[a]
        }
}

/// What every batch write leaves in physical memory, whether it gave
/// `Ok` or not: at an address where no byte of a request lies, the byte
/// that was there.
pub open spec fn write_frame(targets: Map<int, int>, requests: Seq<(Address, Seq<u8>)>, before: Seq<u8>, after: Seq<u8>) -> bool {
    &&& after.len() == before.len()
    &&& forall|a: int| 0 <= a < before.len() && !aimed(targets, requests, a) ==> #[trigger] after[a] == before[a]
}

/// The address that `width` bytes at `addr` hold, least significant byte
/// first and unmapped bytes read as zero: none where the bytes reach
/// beyond the address space or none of them is mapped.
pub open spec fn addr_at(view: Map<int, u8>, addr: int, width: int) -> Option<Address> {
    if addr + width <= 0x1_0000_0000_0000_0000 && any_mapped(view, addr, width) {
        Some(Address(le_value(read_value(view, addr, width)) as u64))
    } else {
        None
    }
}

/// Where a chain of pointers of `width` bytes ends: from `base`, each
/// offset is added to the address reached and the address held there is
/// read. None where one of the reads gives none.
pub open spec fn chain_at(view: Map<int, u8>, base: Address, offsets: Seq<Length>, width: int) -> Option<Address>
    decreases offsets.len(),
{
    if offsets.len() == 0 {
        Some(base)
    } else {
        match chain_at(view, base, offsets.drop_last(), width) {
            None => None,
            Some(at) => addr_at(view, at.plus(offsets.last()).0 as int, width),
        }
    }
}

/// A chain with one more offset is the chain without it, followed by one
/// read at the address that it ends at plus the offset.
pub proof fn lemma_chain_step(view: Map<int, u8>, base: Address, offsets: Seq<Length>, last: Length, width: int)
    ensures
        chain_at(view, base, offsets.push(last), width) == match chain_at(view, base, offsets, width) {
            None => None,
            Some(at) => addr_at(view, at.plus(last).0 as int, width),
        },
{
    assert(offsets.push(last).drop_last() =~= offsets);
}

/// A chain that fails after some of its offsets fails with all of them.
pub proof fn lemma_chain_fails(view: Map<int, u8>, base: Address, offsets: Seq<Length>, width: int, upto: int)
    requires
        0 <= upto <= offsets.len(),
        chain_at(view, base, offsets.take(upto), width) is None,
    ensures
        chain_at(view, base, offsets, width) is None,
    decreases offsets.len() - upto,
{
    if upto < offsets.len() {
        assert(offsets.take(upto + 1).drop_last() =~= offsets.take(upto));
        lemma_chain_fails(view, base, offsets, width, upto + 1);
    } else {
        assert(offsets.take(upto) =~= offsets);
    }
}

/// The number of bytes of `bytes` before its first zero byte: all of them
/// where it has none.
pub open spec fn nul_position(bytes: Seq<u8>) -> int
    decreases bytes.len(),
{
    if bytes.len() == 0 || bytes[0] == 0 {
        0
    } else {
        1 + nul_position(bytes.drop_first())
    }
}

/// Cuts `buf` off before its first zero byte.
pub fn truncate_at_nul(buf: &mut Vec<u8>)
    ensures
        final(buf)@ == old(buf)@.take(nul_position(old(buf)@)),
        0 <= nul_position(old(buf)@) <= old(buf).len(),
        forall|i: int| 0 <= i < final(buf).len() ==> final(buf)[i] != 0,
        final(buf).len() < old(buf).len() ==> old(buf)[final(buf).len() as int] == 0,
{
    let n: usize = buf.len();
    let mut k: usize = 0;
    proof {
        assert(buf@.skip(0) =~= buf@);
    }
    while k < n && buf[k] != 0
        invariant
            k <= n,
            n == buf.len(),
            buf@ == old(buf)@,
            forall|i: int| 0 <= i < k ==> buf[i] != 0,
            nul_position(buf@) == k + nul_position(buf@.skip(k as int)),
        decreases n - k,
    {
        proof {
            assert(buf@.skip(k as int).drop_first() =~= buf@.skip(k + 1));
        }
        k += 1;
    }
    proof {
        if k < n {
            assert(buf@.skip(k as int)[0] == 0);
        } else {
            assert(buf@.skip(k as int).len() == 0);
        }
    }
    buf.truncate(k);
}

/// The text that `String::from_utf8_lossy` gives for a sequence of bytes.
pub uninterp spec fn lossy_utf8(bytes: Seq<u8>) -> Seq<char>;

/// Calls `String::from_utf8_lossy`, which decodes the bytes as UTF-8 and
/// puts the replacement character in place of what is not; the result is
/// a function of the bytes alone, which the contract names. Bytes that
/// are UTF-8 decode to the text they encode.
#[verifier::external_body]
fn string_from_utf8_lossy(bytes: &Vec<u8>) -> (text: String)
    ensures
        text@ == lossy_utf8(bytes@),
        vstd::utf8::valid_utf8(bytes@) ==> text@ == vstd::utf8::decode_utf8(bytes@),
{
    String::from_utf8_lossy(bytes.as_slice()).into_owned()
}

/// A guest pointer of 32 bits.
#[derive(Clone, Copy, Debug, PartialEq, Eq, Structural)]
pub struct Pointer32 {
    pub address: u32,
}

/// A guest pointer of 64 bits.
#[derive(Clone, Copy, Debug, PartialEq, Eq, Structural)]
pub struct Pointer64 {
    pub address: u64,
}

/// What a single read that ended with `r` did, as `read_outcome` says it
/// of a batch of one request.
pub open spec fn read_into_outcome(view: Map<int, u8>, addr: Address, before: Seq<u8>, after: Seq<u8>, r: Result<(), Error>) -> bool {
    read_outcome(view, seq![(addr, before)], seq![(addr, after)], r)
}

/// What a single read of `len` bytes into a new buffer did: `Ok` holds
/// `read_value`, and the errors mean what they mean in `read_outcome`.
pub open spec fn read_raw_outcome(view: Map<int, u8>, addr: Address, len: int, r: Result<Seq<u8>, Error>) -> bool {
    match r {
        Ok(bytes) => {
            &&& addr.0 + len <= 0x1_0000_0000_0000_0000
            &&& len == 0 || any_mapped(view, addr.0 as int, len)
            &&& bytes == read_value(view, addr.0 as int, len)
        },
        Err(e) => match e.kind {
            ErrorKind::InvalidArgument => (addr.0 + len > 0x1_0000_0000_0000_0000 || len > usize::MAX) && e == beyond(addr),
            ErrorKind::PartialTranslation => addr.0 + len <= 0x1_0000_0000_0000_0000 && len > 0 && !any_mapped(
                view,
                addr.0 as int,
                len,
            ) && e == (Error { kind: ErrorKind::PartialTranslation, addr, level: 0 }),
            ErrorKind::OutOfBounds | ErrorKind::PhysicalReadError => addr.0 + len <= 0x1_0000_0000_0000_0000 && len <= usize::MAX,
            _ => false,
        },
    }
}

/// The error for a read or a write at `addr` that reaches beyond the
/// address space or is longer than a buffer can be.
pub open spec fn beyond(addr: Address) -> Error {
    Error { kind: ErrorKind::InvalidArgument, addr, level: 0 }
}

/// What reading an address of `width` bytes did: `Ok` holds `addr_at`, and
/// where `addr_at` has none the read failed.
pub open spec fn read_addr_outcome(view: Map<int, u8>, addr: Address, width: int, r: Result<Address, Error>) -> bool {
    match r {
        Ok(found) => addr_at(view, addr.0 as int, width) == Some(found),
        Err(e) => match e.kind {
            ErrorKind::InvalidArgument => addr.0 + width > 0x1_0000_0000_0000_0000 && e == beyond(addr) && addr_at(
                view,
                addr.0 as int,
                width,
            ) is None,
            ErrorKind::PartialTranslation => addr.0 + width <= 0x1_0000_0000_0000_0000 && e == (Error {
                kind: ErrorKind::PartialTranslation,
                addr,
                level: 0,
            }) && addr_at(view, addr.0 as int, width) is None,
            ErrorKind::OutOfBounds | ErrorKind::PhysicalReadError => addr.0 + width <= 0x1_0000_0000_0000_0000,
            _ => false,
        },
    }
}

/// What following a chain did: `Ok` holds `chain_at`. A chain that failed
/// came through some of its offsets and failed with the error of the read
/// for the next; where that was for want of a mapped address, `chain_at`
/// has none.
pub open spec fn chain_outcome(view: Map<int, u8>, base: Address, offsets: Seq<Length>, width: int, r: Result<Address, Error>) -> bool {
    match r {
        Ok(found) => chain_at(view, base, offsets, width) == Some(found),
        Err(e) => {
            &&& exists|j: int|
                0 <= j < offsets.len() && #[trigger] failed_step(view, base, offsets, width, j, e)
            &&& match e.kind {
                ErrorKind::InvalidArgument | ErrorKind::PartialTranslation => chain_at(view, base, offsets, width) is None,
                ErrorKind::OutOfBounds | ErrorKind::PhysicalReadError => true,
                _ => false,
            }
        },
    }
}

/// The chain came through its first `j` offsets, and the read for offset
/// `j` failed with `e`.
pub open spec fn failed_step(view: Map<int, u8>, base: Address, offsets: Seq<Length>, width: int, j: int, e: Error) -> bool {
    match chain_at(view, base, offsets.take(j), width) {
        Some(at) => read_addr_outcome(view, at.plus(offsets[j]), width, Err(e)),
        None => false,
    }
}

/// The memory of one address space of the target.
///
/// The contracts speak of `virt_view`, the bytes at the mapped addresses.
/// They hold of an implementation that is `faithful`: one whose cached
/// translations, if it has any, are those of the target as it is now.
/// What a call does to the implementation itself, and with that when an
/// error of the backend comes back, is said by `virt_read_step` and
/// `virt_write_step`, which each implementation defines.
pub trait VirtualMemory: Sized {
    /// What the implementation needs to hold of itself between calls.
    spec fn inv(&self) -> bool;

    /// What the implementation says of the address space is true of the
    /// target as it is now.
    spec fn faithful(&self) -> bool;

    /// The byte at each mapped virtual address.
    spec fn virt_view(&self) -> Map<int, u8>;

    /// The physical address of each mapped virtual address.
    spec fn virt_targets(&self) -> Map<int, int>;

    /// The bytes of the target's physical memory.
    spec fn phys_view(&self) -> Seq<u8>;

    /// What one read of a batch can do where it asks for bytes inside the
    /// address space: asked for requests with these addresses and
    /// lengths, the implementation went to `next` and gave `r`.
    spec fn virt_read_step(&self, requests: Seq<(Address, usize)>, next: Self, r: Result<(), Error>) -> bool;

    /// What one write of a batch can do where it holds bytes for
    /// addresses inside the address space: asked to write `requests`, the
    /// implementation went to `next` and gave `r`.
    spec fn virt_write_step(&self, requests: Seq<(Address, Seq<u8>)>, next: Self, r: Result<(), Error>) -> bool;

    /// What asking for the page of an address can do: asked for `addr`,
    /// the implementation went to `next` and gave `r`.
    spec fn virt_info_step(&self, addr: Address, next: Self, r: Result<Page, Error>) -> bool;

    /// Reads each request of the batch into its buffer. Bytes at addresses
    /// that are not mapped stay as they are in the buffer.
    fn virt_read_raw_iter<VI: VirtualReadIterator>(&mut self, iter: &mut VI) -> (r: Result<(), Error>)
        requires
            old(self).inv(),
        ensures
            final(self).inv(),
            final(self).virt_view() == old(self).virt_view(),
            final(self).virt_targets() == old(self).virt_targets(),
            final(self).phys_view() == old(self).phys_view(),
            old(self).faithful() ==> final(self).faithful(),
            same_shape(old(iter).requests(), final(iter).requests()),
            old(self).faithful() ==> read_outcome(old(self).virt_view(), old(iter).requests(), final(iter).requests(), r),
            all_empty(extents(old(iter).requests())) ==> r is Ok,
            !all_in_range(extents(old(iter).requests())) ==> beyond_error(extents(old(iter).requests()), r) && *final(self) == *old(
                self,
            ) && final(iter).requests() == old(iter).requests(),
            all_in_range(extents(old(iter).requests())) && !all_empty(extents(old(iter).requests())) ==> old(self).virt_read_step(
                extents(old(iter).requests()),
                *final(self),
                match r {
                    Ok(_) => Ok::<(), Error>(()),
                    Err(e) => Err::<(), Error>(e),
                },
            ),
    ;

    /// Writes each request of the batch, or none where one of their
    /// addresses is not mapped.
    fn virt_write_raw_iter<VI: VirtualWriteIterator>(&mut self, iter: &VI) -> (r: Result<(), Error>)
        requires
            old(self).inv(),
        ensures
            final(self).inv(),
            final(self).phys_view().len() == old(self).phys_view().len(),
            old(self).faithful() ==> write_outcome(old(self).virt_view(), iter.requests(), r),
            old(self).faithful() && r is Ok ==> write_effect(
                old(self).virt_targets(),
                iter.requests(),
                old(self).phys_view(),
                final(self).phys_view(),
            ),
            r matches Err(e) && e.kind != ErrorKind::OutOfBounds && e.kind != ErrorKind::PhysicalWriteError ==> final(self).phys_view()
                == old(self).phys_view(),
            old(self).faithful() ==> write_frame(old(self).virt_targets(), iter.requests(), old(self).phys_view(), final(self).phys_view()),
            all_empty(extents(iter.requests())) ==> r is Ok,
            !all_in_range(extents(iter.requests())) ==> beyond_error(extents(iter.requests()), r) && *final(self) == *old(self),
            old(self).faithful() && !all_requests_mapped(old(self).virt_view(), extents(iter.requests())) ==> r is Err
                && final(self).phys_view() == old(self).phys_view(),
            all_in_range(extents(iter.requests())) && !all_empty(extents(iter.requests())) ==> old(self).virt_write_step(
                iter.requests(),
                *final(self),
                match r {
                    Ok(_) => Ok::<(), Error>(()),
                    Err(e) => Err::<(), Error>(e),
                },
            ),
    ;

    /// The page that holds `addr`.
    fn virt_page_info(&mut self, addr: Address) -> (r: Result<Page, Error>)
        requires
            old(self).inv(),
        ensures
            final(self).inv(),
            final(self).virt_view() == old(self).virt_view(),
            final(self).virt_targets() == old(self).virt_targets(),
            final(self).phys_view() == old(self).phys_view(),
            old(self).faithful() ==> final(self).faithful(),
            old(self).faithful() && r is Ok ==> old(self).virt_view().dom().contains(addr.0 as int),
            old(self).faithful() && r is Err && r->Err_0.kind != ErrorKind::PhysicalReadError ==> !old(self).virt_view().dom().contains(
                addr.0 as int,
            ),
            old(self).virt_info_step(addr, *final(self), r),
    ;

    /// Reads `out.len()` bytes at `addr` into `out`.
    fn virt_read_raw_into(&mut self, addr: Address, out: &mut Vec<u8>) -> (r: Result<(), Error>)
        requires
            old(self).inv(),
        ensures
            final(self).inv(),
            final(self).virt_view() == old(self).virt_view(),
            final(self).virt_targets() == old(self).virt_targets(),
            final(self).phys_view() == old(self).phys_view(),
            old(self).faithful() ==> final(self).faithful(),
            final(out).len() == old(out).len(),
            old(self).faithful() ==> read_into_outcome(old(self).virt_view(), addr, old(out)@, final(out)@, r),
            old(out).len() == 0 ==> r is Ok,
            addr.0 + old(out).len() > 0x1_0000_0000_0000_0000 ==> r == Err::<(), Error>(beyond(addr)) && *final(self) == *old(self)
                && final(out)@ == old(out)@,
            addr.0 + old(out).len() <= 0x1_0000_0000_0000_0000 && old(out).len() > 0 ==> old(self).virt_read_step(
                seq![(addr, old(out).len())],
                *final(self),
                match r {
                    Ok(_) => Ok::<(), Error>(()),
                    Err(e) => Err::<(), Error>(e),
                },
            ),
    {
        let mut buf: Vec<u8> = Vec::new();
        core::mem::swap(out, &mut buf);
        let mut batch: Vec<VirtualReadData> = Vec::new();
        batch.push((addr, buf));
        let ghost before = requests_of(batch@);
        proof {
            assert(before =~= seq![(addr, old(out)@)]);
            assert(extents(before)[0].1 == old(out).len());
            assert(extents(before) =~= seq![(addr, old(out).len())]);
        }
        let r = self.virt_read_raw_iter(&mut batch);
        let ghost after = requests_of(batch@);
        let ghost filled = batch@;
        let (_, mut buf) = batch.pop().unwrap();
        proof {
            assert(after.len() == 1);
            assert(after[0] == (filled[0].0, filled[0].1@));
            assert(before[0] == (addr, old(out)@));
            assert(buf@ == after[0].1);
        }
        core::mem::swap(out, &mut buf);
        proof {
            assert(after =~= seq![(addr, out@)]);
        }
        r
    }

    /// Reads `len` bytes at `addr` into a new buffer of zeros.
    fn virt_read_raw(&mut self, addr: Address, len: Length) -> (r: Result<Vec<u8>, Error>)
        requires
            old(self).inv(),
        ensures
            final(self).inv(),
            final(self).virt_view() == old(self).virt_view(),
            final(self).virt_targets() == old(self).virt_targets(),
            final(self).phys_view() == old(self).phys_view(),
            old(self).faithful() ==> final(self).faithful(),
            r matches Ok(bytes) ==> bytes.len() == len.0,
            old(self).faithful() ==> read_raw_outcome(
                old(self).virt_view(),
                addr,
                len.0 as int,
                match r {
                    Ok(bytes) => Ok(bytes@),
                    Err(e) => Err(e),
                },
            ),
            len.0 == 0 ==> r is Ok,
            addr.0 + len.0 > 0x1_0000_0000_0000_0000 || len.0 > usize::MAX ==> r is Err && r->Err_0 == beyond(addr) && *final(self)
                == *old(self),
            addr.0 + len.0 <= 0x1_0000_0000_0000_0000 && 0 < len.0 <= usize::MAX ==> old(self).virt_read_step(
                seq![(addr, len.0 as usize)],
                *final(self),
                match r {
                    Ok(_) => Ok::<(), Error>(()),
                    Err(e) => Err::<(), Error>(e),
                },
            ),
    {
        if len.0 > usize::MAX as u64 {
            return Err(Error::new(ErrorKind::InvalidArgument, addr));
        }
        let mut buf: Vec<u8> = vec![0u8; len.0 as usize];
        proof {
            assert(buf@ =~= Seq::new(len.0 as nat, |p: int| 0u8));
            assert(extents(seq![(addr, buf@)])[0] == (addr, len.0 as usize));
            if len.0 > 0 && any_request_mapped(self.virt_view(), extents(seq![(addr, buf@)])) {
                assert(any_mapped(self.virt_view(), addr.0 as int, len.0 as int));
            }
            if any_mapped(self.virt_view(), addr.0 as int, len.0 as int) {
                assert(any_mapped(
                    self.virt_view(),
                    extents(seq![(addr, buf@)])[0].0.0 as int,
                    extents(seq![(addr, buf@)])[0].1 as int,
                ));
            }
        }
        let ghost zeros = buf@;
        let ghost size = buf.len();
        let read = self.virt_read_raw_into(addr, &mut buf);
        proof {
            assert(size == len.0 as usize);
            assert(seq![(addr, size)] =~= seq![(addr, len.0 as usize)]);
        }
        match read {
            Ok(_) => {
                proof {
                    if old(self).faithful() {
                        assert(seq![(addr, buf@)][0].1 == merged(old(self).virt_view(), addr.0 as int, zeros));
                    }
                }
                Ok(buf)
            },
            Err(e) => Err(e),
        }
    }

    /// Writes `data` at `addr`.
    fn virt_write_raw(&mut self, addr: Address, data: &Vec<u8>) -> (r: Result<(), Error>)
        requires
            old(self).inv(),
        ensures
            final(self).inv(),
            final(self).phys_view().len() == old(self).phys_view().len(),
            old(self).faithful() ==> write_outcome(old(self).virt_view(), seq![(addr, data@)], r),
            old(self).faithful() && r is Ok ==> write_effect(
                old(self).virt_targets(),
                seq![(addr, data@)],
                old(self).phys_view(),
                final(self).phys_view(),
            ),
            r matches Err(e) && e.kind != ErrorKind::OutOfBounds && e.kind != ErrorKind::PhysicalWriteError ==> final(self).phys_view()
                == old(self).phys_view(),
            old(self).faithful() ==> write_frame(old(self).virt_targets(), seq![(addr, data@)], old(self).phys_view(), final(self).phys_view()),
            data.len() == 0 ==> r is Ok,
            addr.0 + data.len() > 0x1_0000_0000_0000_0000 ==> r == Err::<(), Error>(beyond(addr)) && *final(self) == *old(self),
            old(self).faithful() && !all_mapped(old(self).virt_view(), addr.0 as int, data.len() as int) ==> r is Err && final(self).phys_view() == old(self).phys_view(),
            addr.0 + data.len() <= 0x1_0000_0000_0000_0000 && data.len() > 0 ==> old(self).virt_write_step(
                seq![(addr, data@)],
                *final(self),
                match r {
                    Ok(_) => Ok::<(), Error>(()),
                    Err(e) => Err::<(), Error>(e),
                },
            ),
    {
        let mut batch: Vec<VirtualWriteData> = Vec::new();
        batch.push((addr, data.clone()));
        proof {
            assert(requests_of(batch@) =~= seq![(addr, data@)]);
            assert(extents(requests_of(batch@))[0].1 == data.len());
            assert(extents(requests_of(batch@)) =~= seq![(addr, data.len())]);
        }
        self.virt_write_raw_iter(&batch)
    }

    /// Reads the 32-bit address held at `addr`.
    fn virt_read_addr32(&mut self, addr: Address) -> (r: Result<Address, Error>)
        requires
            old(self).inv(),
        ensures
            final(self).inv(),
            final(self).virt_view() == old(self).virt_view(),
            final(self).virt_targets() == old(self).virt_targets(),
            final(self).phys_view() == old(self).phys_view(),
            old(self).faithful() ==> final(self).faithful(),
            old(self).faithful() ==> read_addr_outcome(old(self).virt_view(), addr, 4, r),
            addr.0 + 4 > 0x1_0000_0000_0000_0000 ==> r is Err && r->Err_0 == beyond(addr) && *final(self) == *old(self),
            addr.0 + 4 <= 0x1_0000_0000_0000_0000 ==> old(self).virt_read_step(
                seq![(addr, 4usize)],
                *final(self),
                match r {
                    Ok(_) => Ok::<(), Error>(()),
                    Err(e) => Err::<(), Error>(e),
                },
            ),
    {
        match self.virt_read_raw(addr, Length(4)) {
            Ok(bytes) => {
                proof {
                    lemma_le_value_bound(bytes@);
                    lemma_pow256_values();
                }
                Ok(Address(read_le(&bytes)))
            },
            Err(e) => Err(e),
        }
    }

    /// Reads the 64-bit address held at `addr`.
    fn virt_read_addr64(&mut self, addr: Address) -> (r: Result<Address, Error>)
        requires
            old(self).inv(),
        ensures
            final(self).inv(),
            final(self).virt_view() == old(self).virt_view(),
            final(self).virt_targets() == old(self).virt_targets(),
            final(self).phys_view() == old(self).phys_view(),
            old(self).faithful() ==> final(self).faithful(),
            old(self).faithful() ==> read_addr_outcome(old(self).virt_view(), addr, 8, r),
            addr.0 + 8 > 0x1_0000_0000_0000_0000 ==> r is Err && r->Err_0 == beyond(addr) && *final(self) == *old(self),
            addr.0 + 8 <= 0x1_0000_0000_0000_0000 ==> old(self).virt_read_step(
                seq![(addr, 8usize)],
                *final(self),
                match r {
                    Ok(_) => Ok::<(), Error>(()),
                    Err(e) => Err::<(), Error>(e),
                },
            ),
    {
        match self.virt_read_raw(addr, Length(8)) {
            Ok(bytes) => {
                proof {
                    lemma_le_value_bound(bytes@);
                    lemma_pow256_values();
                }
                Ok(Address(read_le(&bytes)))
            },
            Err(e) => Err(e),
        }
    }

    /// Reads what a 32-bit pointer points to into `out`.
    fn virt_read_ptr32_into(&mut self, ptr: Pointer32, out: &mut Vec<u8>) -> (r: Result<(), Error>)
        requires
            old(self).inv(),
        ensures
            final(self).inv(),
            final(self).virt_view() == old(self).virt_view(),
            final(self).virt_targets() == old(self).virt_targets(),
            final(self).phys_view() == old(self).phys_view(),
            old(self).faithful() ==> final(self).faithful(),
            final(out).len() == old(out).len(),
            old(self).faithful() ==> read_into_outcome(old(self).virt_view(), Address(ptr.address as u64), old(out)@, final(out)@, r),
            old(out).len() == 0 ==> r is Ok,
            ptr.address + old(out).len() > 0x1_0000_0000_0000_0000 ==> r == Err::<(), Error>(beyond(Address(ptr.address as u64)))
                && *final(self) == *old(self) && final(out)@ == old(out)@,
            ptr.address + old(out).len() <= 0x1_0000_0000_0000_0000 && old(out).len() > 0 ==> old(self).virt_read_step(
                seq![(Address(ptr.address as u64), old(out).len())],
                *final(self),
                match r {
                    Ok(_) => Ok::<(), Error>(()),
                    Err(e) => Err::<(), Error>(e),
                },
            ),
    {
        self.virt_read_raw_into(Address::from_u32(ptr.address), out)
    }

    /// Reads `len` bytes of what a 32-bit pointer points to.
    fn virt_read_ptr32(&mut self, ptr: Pointer32, len: Length) -> (r: Result<Vec<u8>, Error>)
        requires
            old(self).inv(),
        ensures
            final(self).inv(),
            final(self).virt_view() == old(self).virt_view(),
            final(self).virt_targets() == old(self).virt_targets(),
            final(self).phys_view() == old(self).phys_view(),
            old(self).faithful() ==> final(self).faithful(),
            old(self).faithful() ==> read_raw_outcome(
                old(self).virt_view(),
                Address(ptr.address as u64),
                len.0 as int,
                match r {
                    Ok(bytes) => Ok(bytes@),
                    Err(e) => Err(e),
                },
            ),            len.0 == 0 ==> r is Ok,
            Address(ptr.address as u64).0 + len.0 > 0x1_0000_0000_0000_0000 || len.0 > usize::MAX ==> r is Err && r->Err_0 == beyond(Address(ptr.address as u64)) && *final(self) == *old(self),
            ptr.address + len.0 <= 0x1_0000_0000_0000_0000 && 0 < len.0 <= usize::MAX ==> old(self).virt_read_step(
                seq![(Address(ptr.address as u64), len.0 as usize)],
                *final(self),
                match r {
                    Ok(_) => Ok::<(), Error>(()),
                    Err(e) => Err::<(), Error>(e),
                },
            ),
    {
        self.virt_read_raw(Address::from_u32(ptr.address), len)
    }

    /// Reads what a 64-bit pointer points to into `out`.
    fn virt_read_ptr64_into(&mut self, ptr: Pointer64, out: &mut Vec<u8>) -> (r: Result<(), Error>)
        requires
            old(self).inv(),
        ensures
            final(self).inv(),
            final(self).virt_view() == old(self).virt_view(),
            final(self).virt_targets() == old(self).virt_targets(),
            final(self).phys_view() == old(self).phys_view(),
            old(self).faithful() ==> final(self).faithful(),
            final(out).len() == old(out).len(),
            old(self).faithful() ==> read_into_outcome(old(self).virt_view(), Address(ptr.address), old(out)@, final(out)@, r),
            old(out).len() == 0 ==> r is Ok,
            ptr.address + old(out).len() > 0x1_0000_0000_0000_0000 ==> r == Err::<(), Error>(beyond(Address(ptr.address))) && *final(self) == *old(self) && final(out)@ == old(out)@,
            ptr.address + old(out).len() <= 0x1_0000_0000_0000_0000 && old(out).len() > 0 ==> old(self).virt_read_step(
                seq![(Address(ptr.address), old(out).len())],
                *final(self),
                match r {
                    Ok(_) => Ok::<(), Error>(()),
                    Err(e) => Err::<(), Error>(e),
                },
            ),
    {
        self.virt_read_raw_into(Address::from_u64(ptr.address), out)
    }

    /// Reads `len` bytes of what a 64-bit pointer points to.
    fn virt_read_ptr64(&mut self, ptr: Pointer64, len: Length) -> (r: Result<Vec<u8>, Error>)
        requires
            old(self).inv(),
        ensures
            final(self).inv(),
            final(self).virt_view() == old(self).virt_view(),
            final(self).virt_targets() == old(self).virt_targets(),
            final(self).phys_view() == old(self).phys_view(),
            old(self).faithful() ==> final(self).faithful(),
            old(self).faithful() ==> read_raw_outcome(
                old(self).virt_view(),
                Address(ptr.address),
                len.0 as int,
                match r {
                    Ok(bytes) => Ok(bytes@),
                    Err(e) => Err(e),
                },
            ),            len.0 == 0 ==> r is Ok,
            Address(ptr.address).0 + len.0 > 0x1_0000_0000_0000_0000 || len.0 > usize::MAX ==> r is Err && r->Err_0 == beyond(Address(ptr.address)) && *final(self) == *old(self),
            ptr.address + len.0 <= 0x1_0000_0000_0000_0000 && 0 < len.0 <= usize::MAX ==> old(self).virt_read_step(
                seq![(Address(ptr.address), len.0 as usize)],
                *final(self),
                match r {
                    Ok(_) => Ok::<(), Error>(()),
                    Err(e) => Err::<(), Error>(e),
                },
            ),
    {
        self.virt_read_raw(Address::from_u64(ptr.address), len)
    }

    /// Reads up to `len` bytes at `addr` as text: the bytes before the
    /// first zero byte, decoded as UTF-8 with the replacement character in
    /// place of what is not UTF-8.
    fn virt_read_cstr(&mut self, addr: Address, len: Length) -> (r: Result<String, Error>)
        requires
            old(self).inv(),
        ensures
            final(self).inv(),
            final(self).virt_view() == old(self).virt_view(),
            final(self).virt_targets() == old(self).virt_targets(),
            final(self).phys_view() == old(self).phys_view(),
            old(self).faithful() ==> final(self).faithful(),
            old(self).faithful() ==> match r {
                Ok(text) => {
                    let bytes = read_value(old(self).virt_view(), addr.0 as int, len.0 as int);
                    let cut = bytes.take(nul_position(bytes));
                    &&& read_raw_outcome(old(self).virt_view(), addr, len.0 as int, Ok(bytes))
                    &&& text@ == lossy_utf8(cut)
                    &&& vstd::utf8::valid_utf8(cut) ==> text@ == vstd::utf8::decode_utf8(cut)
                },
                Err(e) => read_raw_outcome(old(self).virt_view(), addr, len.0 as int, Err(e)),
            },
            len.0 == 0 ==> r is Ok,
            addr.0 + len.0 > 0x1_0000_0000_0000_0000 || len.0 > usize::MAX ==> r is Err && r->Err_0 == beyond(addr) && *final(self)
                == *old(self),
            addr.0 + len.0 <= 0x1_0000_0000_0000_0000 && 0 < len.0 <= usize::MAX ==> old(self).virt_read_step(
                seq![(addr, len.0 as usize)],
                *final(self),
                match r {
                    Ok(_) => Ok::<(), Error>(()),
                    Err(e) => Err::<(), Error>(e),
                },
            ),
    {
        match self.virt_read_raw(addr, len) {
            Ok(bytes) => {
                let mut buf = bytes;
                truncate_at_nul(&mut buf);
                Ok(string_from_utf8_lossy(&buf))
            },
            Err(e) => Err(e),
        }
    }

    /// Follows a chain of 32-bit pointers: starting at `base_addr`, adds
    /// each offset to the address reached and reads the address held there.
    /// Stops at the first read that fails, with its error.
    fn virt_read_addr32_chain(&mut self, base_addr: Address, offsets: Vec<Length>) -> (r: Result<Address, Error>)
        requires
            old(self).inv(),
        ensures
            final(self).inv(),
            final(self).virt_view() == old(self).virt_view(),
            final(self).virt_targets() == old(self).virt_targets(),
            final(self).phys_view() == old(self).phys_view(),
            old(self).faithful() ==> final(self).faithful(),
            old(self).faithful() ==> chain_outcome(old(self).virt_view(), base_addr, offsets@, 4, r),
            offsets.len() == 0 ==> r == Ok::<Address, Error>(base_addr) && *final(self) == *old(self),
            offsets.len() > 0 && base_addr.plus(offsets[0]).0 + 4 > 0x1_0000_0000_0000_0000 ==> r is Err && r->Err_0 == beyond(
                base_addr.plus(offsets[0]),
            ) && *final(self) == *old(self),
            r matches Err(e) ==> (e.kind != ErrorKind::InvalidArgument ==> exists|pre: Self, at: Address|
                pre.phys_view() == old(self).phys_view() && #[trigger] pre.virt_read_step(seq![(at, 4usize)], *final(self), Err::<(), Error>(e))),
    {
        let n: usize = offsets.len();
        let mut at: Address = base_addr;
        let mut k: usize = 0;
        proof {
            assert(offsets@.take(0) =~= Seq::<Length>::empty());
        }
        while k < n
            invariant
                k <= n,
                n == offsets.len(),
                self.inv(),
                self.virt_view() == old(self).virt_view(),
                self.virt_targets() == old(self).virt_targets(),
                self.phys_view() == old(self).phys_view(),
                old(self).faithful() ==> self.faithful(),
                old(self).faithful() ==> chain_at(old(self).virt_view(), base_addr, offsets@.take(k as int), 4) == Some(at),
                k == 0 ==> at == base_addr && *self == *old(self),
                k > 0 ==> base_addr.plus(offsets[0]).0 + 4 <= 0x1_0000_0000_0000_0000,
            decreases n - k,
        {
            proof {
                assert(offsets@.take(k + 1).drop_last() =~= offsets@.take(k as int));
            }
            let ghost was = *self;
            match self.virt_read_addr32(at.saturating_add(offsets[k])) {
                Ok(next) => {
                    at = next;
                },
                Err(e) => {
                    proof {
                        if e.kind != ErrorKind::InvalidArgument {
                            let there = at.plus(offsets[k as int]);
                            assert(was.virt_read_step(seq![(there, 4usize)], *self, Err::<(), Error>(e)));
                        }
                        if old(self).faithful() {
                            assert(failed_step(old(self).virt_view(), base_addr, offsets@, 4, k as int, e));
                            match e.kind {
                                ErrorKind::InvalidArgument | ErrorKind::PartialTranslation => {
                                    lemma_chain_fails(old(self).virt_view(), base_addr, offsets@, 4, k + 1);
                                },
                                _ => {},
                            }
                        }
                    }
                    return Err(e);
                },
            }
            k += 1;
        }
        proof {
            assert(offsets@.take(n as int) =~= offsets@);
        }
        Ok(at)
    }

    /// Follows a chain of 64-bit pointers: starting at `base_addr`, adds
    /// each offset to the address reached and reads the address held there.
    /// Stops at the first read that fails, with its error.
    fn virt_read_addr64_chain(&mut self, base_addr: Address, offsets: Vec<Length>) -> (r: Result<Address, Error>)
        requires
            old(self).inv(),
        ensures
            final(self).inv(),
            final(self).virt_view() == old(self).virt_view(),
            final(self).virt_targets() == old(self).virt_targets(),
            final(self).phys_view() == old(self).phys_view(),
            old(self).faithful() ==> final(self).faithful(),
            old(self).faithful() ==> chain_outcome(old(self).virt_view(), base_addr, offsets@, 8, r),
            offsets.len() == 0 ==> r == Ok::<Address, Error>(base_addr) && *final(self) == *old(self),
            offsets.len() > 0 && base_addr.plus(offsets[0]).0 + 8 > 0x1_0000_0000_0000_0000 ==> r is Err && r->Err_0 == beyond(
                base_addr.plus(offsets[0]),
            ) && *final(self) == *old(self),
            r matches Err(e) ==> (e.kind != ErrorKind::InvalidArgument ==> exists|pre: Self, at: Address|
                pre.phys_view() == old(self).phys_view() && #[trigger] pre.virt_read_step(seq![(at, 8usize)], *final(self), Err::<(), Error>(e))),
    {
        let n: usize = offsets.len();
        let mut at: Address = base_addr;
        let mut k: usize = 0;
        proof {
            assert(offsets@.take(0) =~= Seq::<Length>::empty());
        }
        while k < n
            invariant
                k <= n,
                n == offsets.len(),
                self.inv(),
                self.virt_view() == old(self).virt_view(),
                self.virt_targets() == old(self).virt_targets(),
                self.phys_view() == old(self).phys_view(),
                old(self).faithful() ==> self.faithful(),
                old(self).faithful() ==> chain_at(old(self).virt_view(), base_addr, offsets@.take(k as int), 8) == Some(at),
                k == 0 ==> at == base_addr && *self == *old(self),
                k > 0 ==> base_addr.plus(offsets[0]).0 + 8 <= 0x1_0000_0000_0000_0000,
            decreases n - k,
        {
            proof {
                assert(offsets@.take(k + 1).drop_last() =~= offsets@.take(k as int));
            }
            let ghost was = *self;
            match self.virt_read_addr64(at.saturating_add(offsets[k])) {
                Ok(next) => {
                    at = next;
                },
                Err(e) => {
                    proof {
                        if e.kind != ErrorKind::InvalidArgument {
                            let there = at.plus(offsets[k as int]);
                            assert(was.virt_read_step(seq![(there, 8usize)], *self, Err::<(), Error>(e)));
                        }
                        if old(self).faithful() {
                            assert(failed_step(old(self).virt_view(), base_addr, offsets@, 8, k as int, e));
                            match e.kind {
                                ErrorKind::InvalidArgument | ErrorKind::PartialTranslation => {
                                    lemma_chain_fails(old(self).virt_view(), base_addr, offsets@, 8, k + 1);
                                },
                                _ => {},
                            }
                        }
                    }
                    return Err(e);
                },
            }
            k += 1;
        }
        proof {
            assert(offsets@.take(n as int) =~= offsets@);
        }
        Ok(at)
    }
}

} // verus!
