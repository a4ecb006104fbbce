//! A backend behind a cache of the pages that were read from it.
use vstd::prelude::*;
use crate::architecture::Architecture;
use crate::cache::timed_cache::{TimedCache, lemma_invalid_is_no_page};
use crate::error::Error;
use crate::mem::phys_mem::{AccessPhysicalMemory, PhysicalData, holds_bytes, same_requests, touched,
    write_all, write_at};
use crate::types::{Address, Length, PageType, PhysicalAddress, INVALID_ADDRESS, lemma_aligned};

verus! {

/// A backend together with a page cache. A read that lies in one page of
/// a cached type is served from the cache where the cache holds the page,
/// and fills the cache from the backend where it does not. Every other
/// read goes to the backend, and so does every write, after the pages
/// that it touches were dropped from the cache.
pub struct CachedMemoryAccess<T: AccessPhysicalMemory> {
    mem: T,
    cache: TimedCache,
}

/// Every slot of `cache` that is tagged with the address of a page holds
/// the bytes of that page in `mem`, and is the slot that the page maps to.
pub open spec fn coherent(cache: TimedCache, mem: Seq<u8>) -> bool {
    forall|idx: int|
        0 <= idx < cache.capacity() ==> {
            let tag = #[trigger] cache.tag(idx);
            tag.0 % cache.spec_page_size().0 == 0 ==> {
                &&& cache.slot_of(tag) == idx
                &&& tag.0 + cache.spec_page_size().0 <= mem.len()
                &&& tag.0 + cache.spec_page_size().0 <= 0x1_0000_0000_0000_0000
                &&& cache.page(idx) == mem.subrange(tag.0 as int, tag.0 + cache.spec_page_size().0)
            }
        }
}

/// The cache serves the request at clock reading `now` without the
/// backend: the request asks for bytes of one page of a cached type, and
/// the slot of the page holds it.
pub open spec fn served_by(cache: TimedCache, request: PhysicalData, now: crate::clock::Ticks) -> bool {
    let page_size = cache.spec_page_size();
    let page = request.0.address.aligned(page_size);
    &&& request.1.len() > 0
    &&& cache.mask().has(request.0.page.page_type)
    &&& request.0.address.0 % page_size.0 + request.1.len() <= page_size.0
    &&& cache.holds_at(cache.slot_of(request.0.address), page, now)
}

/// `len` bytes of zero.
pub open spec fn zeros(len: nat) -> Seq<u8> {
    Seq::new(len, |i: int| 0u8)
}

/// The bytes where the backend gave `Ok`, and its error where it did not.
pub open spec fn outcome(given: Result<(), Error>, bytes: Seq<u8>) -> Result<Seq<u8>, Error> {
    match given {
        Ok(_) => Ok(bytes),
        Err(e) => Err(e),
    }
}

/// The backend `pre` was asked, in a batch of one request, for `len`
/// bytes at `paddr` into a buffer of zeros; it went to `post` and gave `r`.
pub open spec fn fetched<T: AccessPhysicalMemory>(pre: T, paddr: PhysicalAddress, len: nat, post: T, r: Result<Seq<u8>, Error>) -> bool {
    exists|before: Seq<PhysicalData>, after: Seq<PhysicalData>, given: Result<(), Error>|
        {
            &&& #[trigger] pre.read_step(before, post, after, given)
            &&& before.len() == 1
            &&& before[0].0 == paddr
            &&& before[0].1@ == zeros(len)
            &&& after.len() == 1
            &&& r == outcome(given, after[0].1@)
        }
}

/// The request asks for bytes of one page of a cached type.
pub open spec fn shaped(cache: TimedCache, paddr: PhysicalAddress, len: nat) -> bool {
    let page_size = cache.spec_page_size();
    &&& len > 0
    &&& cache.mask().has(paddr.page.page_type)
    &&& paddr.address.0 % page_size.0 + len <= page_size.0
}

/// `post` is `pre` after slot `idx` was filled with `page`, tagged with
/// `tag` and stamped with `now`.
pub open spec fn refilled(pre: TimedCache, post: TimedCache, idx: int, tag: Address, page: Seq<u8>, now: crate::clock::Ticks) -> bool {
    &&& post.wf()
    &&& post.same_layout(pre)
    &&& post.retagged(pre, idx, tag, now)
    &&& post.page(idx) == page
    &&& forall|i: int| 0 <= i < pre.capacity() && i != idx ==> #[trigger] post.page(i) == pre.page(i)
}

/// The tag of a slot after it was emptied, where it was, and the tag it
/// had, where it was not.
pub open spec fn emptied(tag: Address, was: bool) -> Address {
    if was {
        Address(INVALID_ADDRESS)
    } else {
        tag
    }
}

/// One of the `len` addresses from `addr` on maps to slot `idx`.
pub open spec fn hit(cache: TimedCache, addr: Address, len: nat, idx: int) -> bool {
    exists|a: int| addr.0 <= a < addr.0 + len && a <= u64::MAX && #[trigger] cache.slot_of(Address(a as u64)) == idx
}

/// One of the addresses from `addr` up to `last` that lie below `bound`
/// maps to slot `idx`.
pub open spec fn hit_below(cache: TimedCache, addr: Address, last: u64, bound: int, idx: int) -> bool {
    exists|a: int| addr.0 <= a <= last && a < bound && #[trigger] cache.slot_of(Address(a as u64)) == idx
}

/// Caches of the same layout map the same addresses to a slot.
pub proof fn lemma_hit_same_layout(first: TimedCache, second: TimedCache, addr: Address, len: nat, idx: int)
    requires
        first.same_layout(second),
    ensures
        hit(first, addr, len, idx) == hit(second, addr, len, idx),
{
    if hit(first, addr, len, idx) {
        let a = choose|a: int| addr.0 <= a < addr.0 + len && a <= u64::MAX && #[trigger] first.slot_of(Address(a as u64)) == idx;
        assert(second.slot_of(Address(a as u64)) == idx);
    }
    if hit(second, addr, len, idx) {
        let a = choose|a: int| addr.0 <= a < addr.0 + len && a <= u64::MAX && #[trigger] second.slot_of(Address(a as u64)) == idx;
        assert(first.slot_of(Address(a as u64)) == idx);
    }
}

/// A slot is struck by a batch with one more request where it is struck
/// by the batch or hit by the request.
pub proof fn lemma_struck_step(cache: TimedCache, batch: Seq<PhysicalData>, upto: int, idx: int)
    requires
        0 <= upto < batch.len(),
    ensures
        struck(cache, batch.take(upto + 1), idx) <==> struck(cache, batch.take(upto), idx) || hit(
            cache,
            batch[upto].0.address,
            batch[upto].1.len() as nat,
            idx,
        ),
{
    let less = batch.take(upto);
    let more = batch.take(upto + 1);
    if struck(cache, more, idx) {
        let j = choose|j: int| 0 <= j < more.len() && #[trigger] hit(cache, more[j].0.address, more[j].1.len() as nat, idx);
        if j < upto {
            assert(less[j] == more[j]);
            assert(hit(cache, less[j].0.address, less[j].1.len() as nat, idx));
        }
    }
    if struck(cache, less, idx) {
        let j = choose|j: int| 0 <= j < less.len() && #[trigger] hit(cache, less[j].0.address, less[j].1.len() as nat, idx);
        assert(more[j] == less[j]);
        assert(hit(cache, more[j].0.address, more[j].1.len() as nat, idx));
    }
    if hit(cache, batch[upto].0.address, batch[upto].1.len() as nat, idx) {
        assert(more[upto] == batch[upto]);
        assert(hit(cache, more[upto].0.address, more[upto].1.len() as nat, idx));
    }
}

/// One of the addresses of one of the requests maps to slot `idx`.
pub open spec fn struck(cache: TimedCache, batch: Seq<PhysicalData>, idx: int) -> bool {
    exists|j: int| 0 <= j < batch.len() && #[trigger] hit(cache, batch[j].0.address, batch[j].1.len() as nat, idx)
}

/// `post` is `pre` after every slot that an address of `batch` maps to
/// was emptied: such a slot has the all-ones tag, and everything else is as
/// it was.
pub open spec fn dropped(pre: TimedCache, batch: Seq<PhysicalData>, post: TimedCache) -> bool {
    &&& post.wf()
    &&& post.same_layout(pre)
    &&& post.same_pages(pre)
    &&& forall|idx: int| #![trigger post.stamp(idx)] #![trigger post.tag(idx)]
        0 <= idx < pre.capacity() ==> post.stamp(idx) == pre.stamp(idx) && post.tag(idx) == emptied(pre.tag(idx), struck(pre, batch, idx))
}

/// A cache whose slots are all empty is coherent with every memory.
pub proof fn lemma_empty_cache_coherent(cache: TimedCache, mem: Seq<u8>)
    requires
        cache.wf(),
        forall|idx: int| 0 <= idx < cache.capacity() ==> (#[trigger] cache.tag(idx)).0 == INVALID_ADDRESS,
    ensures
        coherent(cache, mem),
{
    cache.lemma_wf();
    lemma_invalid_is_no_page(cache.spec_page_size().0 as int);
}

/// Reading back what was written gives what was written: after `data` was
/// written at `addr`, the bytes there are `data`.
pub proof fn lemma_read_after_write(mem: Seq<u8>, request: PhysicalData)
    requires
        request.0.address.0 + request.1.len() <= mem.len(),
    ensures
        holds_bytes(write_all(mem, seq![request]), request),
        write_all(mem, seq![request]) == write_at(mem, request.0.address.0 as int, request.1@),
{
    let batch = seq![request];
    assert(batch.drop_last() =~= Seq::<PhysicalData>::empty());
    assert(batch.last() == request);
    reveal_with_fuel(write_all, 2);
    let after = write_all(mem, batch);
    assert(after == write_at(mem, request.0.address.0 as int, request.1@));
    assert(request.1@ =~= after.subrange(request.0.address.0 as int, request.0.address.0 + request.1.len()));
}

impl<T: AccessPhysicalMemory> CachedMemoryAccess<T> {
    /// The backend.
    pub closed spec fn backend(&self) -> T {
        self.mem
    }

    /// The page cache.
    pub closed spec fn cache(&self) -> TimedCache {
        self.cache
    }

    /// A backend behind a new, empty page cache of `size` bytes for pages
    /// of the types in `page_type_mask`, whose entries live for `duration`.
    pub fn new(mem: T, arch: Architecture, size: Length, duration: crate::clock::Ticks, page_type_mask: PageType) -> (cached: Self)
        requires
            mem.inv(),
            size.0 >= arch.page_size().0,
            size.0 <= usize::MAX,
        ensures
            cached.inv(),
            cached.backend() == mem,
            cached.cache().capacity() == size.0 / arch.page_size().0,
            cached.cache().spec_page_size() == arch.page_size(),
            cached.cache().mask() == page_type_mask,
            cached.cache().cache_time() == duration,
    {
        let cache = TimedCache::new(arch, size, duration, page_type_mask);
        proof {
            lemma_empty_cache_coherent(cache, mem.view());
        }
        CachedMemoryAccess { mem, cache }
    }

    /// A backend behind `cache`.
    pub fn with(mem: T, cache: TimedCache) -> (cached: Self)
        requires
            mem.inv(),
            cache.wf(),
            coherent(cache, mem.view()),
        ensures
            cached.inv(),
            cached.backend() == mem,
            cached.cache() == cache,
    {
        CachedMemoryAccess { mem, cache }
    }

    /// Gives the backend back.
    pub fn into_inner(self) -> (mem: T)
        ensures
            mem == self.backend(),
    {
        self.mem
    }

    /// A read-only look at the page cache.
    pub fn cache_ref(&self) -> (cache: &TimedCache)
        ensures
            *cache == self.cache(),
    {
        &self.cache
    }

    /// A read-only look at the backend.
    pub fn backend_ref(&self) -> (mem: &T)
        ensures
            *mem == self.backend(),
    {
        &self.mem
    }

    /// What the cache does for a request that it may serve, at clock reading
    /// `now`. Where the slot of the page holds the page, nothing changes
    /// and the bytes come from the slot. Where the page would reach beyond
    /// the address space, nothing changes and no bytes come. Otherwise the
    /// backend is asked for the whole page: where it gives the page, the
    /// slot is refilled with it and the bytes come from it; where it fails,
    /// the cache stays as it is and no bytes come.
    pub open spec fn cache_step(pre: Self, paddr: PhysicalAddress, len: nat, now: crate::clock::Ticks, post: Self, r: Option<Seq<u8>>) -> bool {
        let cache = pre.cache();
        let page_size = cache.spec_page_size();
        let page = paddr.address.aligned(page_size);
        let slot = cache.slot_of(paddr.address);
        let offset = paddr.address.0 % page_size.0;
        if cache.holds_at(slot, page, now) {
            post == pre && r == Some(cache.page(slot).subrange(offset as int, offset + len))
        } else if page.0 + page_size.0 > 0x1_0000_0000_0000_0000 {
            post == pre && r is None
        } else {
            exists|whole: Result<Seq<u8>, Error>| #[trigger]
                fetched(pre.backend(), PhysicalAddress { address: page, page: paddr.page }, page_size.0 as nat, post.backend(), whole)
                    && match whole {
                    Ok(bytes) => refilled(cache, post.cache(), slot, page, bytes, now) && r == Some(
                        bytes.subrange(offset as int, offset + len),
                    ),
                    Err(_) => post.cache() == cache && r is None,
                }
        }
    }

    /// What one request of a read does, at clock reading `now`. A request
    /// for bytes of one page of a cached type goes by way of the cache,
    /// and to the backend where
    /// the cache gives no bytes. Every other request goes to the backend.
    pub open spec fn read_one(pre: Self, paddr: PhysicalAddress, len: nat, now: crate::clock::Ticks, post: Self, r: Result<Seq<u8>, Error>) -> bool {
        if shaped(pre.cache(), paddr, len) {
            exists|mid: Self, found: Option<Seq<u8>>| #[trigger]
                Self::cache_step(pre, paddr, len, now, mid, found) && match found {
                    Some(bytes) => post == mid && r == Ok::<Seq<u8>, Error>(bytes),
                    None => post.cache() == mid.cache() && fetched(mid.backend(), paddr, len, post.backend(), r),
                }
        } else {
            post.cache() == pre.cache() && fetched(pre.backend(), paddr, len, post.backend(), r)
        }
    }

    /// `states` are the states that the first `upto` requests of `before`
    /// led through, from `pre` on, each request served as `read_one` says;
    /// `after` are the requests with the bytes that came, and those from
    /// `upto` on as they were.
    pub open spec fn served_through(
        states: Seq<Self>,
        pre: Self,
        before: Seq<PhysicalData>,
        now: crate::clock::Ticks,
        after: Seq<PhysicalData>,
        upto: int,
    ) -> bool {
        &&& states.len() == upto + 1
        &&& states[0] == pre
        &&& after.len() == before.len()
        &&& forall|k: int| 0 <= k < before.len() ==> (#[trigger] after[k]).0 == before[k].0
        &&& forall|k: int|
            0 <= k < upto ==> Self::read_one(
                #[trigger] states[k],
                before[k].0,
                before[k].1.len() as nat,
                now,
                states[k + 1],
                Ok(after[k].1@),
            )
        &&& forall|k: int| upto <= k < before.len() ==> #[trigger] after[k] == before[k]
    }

    /// What a read of a batch does at clock reading `now`: the requests are
    /// served in turn, each as `read_one` says, up to the first that
    /// fails; the error is the error of that one, and it and the requests
    /// after it stay as they were.
    pub open spec fn read_at(
        pre: Self,
        before: Seq<PhysicalData>,
        now: crate::clock::Ticks,
        post: Self,
        after: Seq<PhysicalData>,
        r: Result<(), Error>,
    ) -> bool {
        match r {
            Ok(_) => exists|states: Seq<Self>| #[trigger]
                Self::served_through(states, pre, before, now, after, before.len() as int) && states[before.len() as int] == post,
            Err(e) => exists|states: Seq<Self>, k: int|
                0 <= k < before.len() && #[trigger] Self::served_through(states, pre, before, now, after, k) && Self::read_one(
                    states[k],
                    before[k].0,
                    before[k].1.len() as nat,
                    now,
                    post,
                    Err(e),
                ),
        }
    }

    /// Reads `len` bytes at `paddr` from the backend, past the cache.
    fn read_through(&mut self, paddr: PhysicalAddress, len: usize) -> (r: Result<Vec<u8>, Error>)
        requires
            old(self).inv(),
        ensures
            final(self).inv(),
            final(self).view() == old(self).view(),
            final(self).cache() == old(self).cache(),
            forall|arch: Architecture| old(self).faithful(arch) ==> #[trigger] final(self).faithful(arch),
            r matches Ok(bytes) ==> holds_bytes(old(self).view(), (paddr, bytes)) && bytes.len() == len,
            fetched(
                old(self).backend(),
                paddr,
                len as nat,
                final(self).backend(),
                match r {
                    Ok(bytes) => Ok(bytes@),
                    Err(e) => Err(e),
                },
            ),
    {
        let mut one: Vec<PhysicalData> = Vec::new();
        one.push((paddr, vec![0u8; len]));
        let ghost before = one@;
        proof {
            assert(before[0].1@ =~= zeros(len as nat));
        }
        let r = self.mem.phys_read_raw_iter(&mut one);
        let ghost after = one@;
        proof {
            assert(old(self).mem.read_step(before, self.mem, after, r));
        }
        match r {
            Ok(_) => {
                let (_, bytes) = one.pop().unwrap();
                Ok(bytes)
            },
            Err(e) => Err(e),
        }
    }

    /// Reads `len` bytes at `paddr`, which lie in one page, by way of the
    /// cache: from the slot of the page
    /// where it holds the page at clock reading `now`, and from the
    /// backend, by way of the slot, where it does not. Gives none where the
    /// backend could not read the page.
    fn read_cached(&mut self, paddr: PhysicalAddress, len: usize, now: crate::clock::Ticks) -> (r: Option<Vec<u8>>)
        requires
            old(self).inv(),
            old(self).cache().mask().has(paddr.page.page_type),
            paddr.address.0 % old(self).cache().spec_page_size().0 + len <= old(self).cache().spec_page_size().0,
        ensures
            final(self).inv(),
            final(self).view() == old(self).view(),
            final(self).cache().same_layout(old(self).cache()),
            forall|arch: Architecture| old(self).faithful(arch) ==> #[trigger] final(self).faithful(arch),
            r matches Some(bytes) ==> holds_bytes(old(self).view(), (paddr, bytes)) && bytes.len() == len,
            old(self).cache().holds_at(
                old(self).cache().slot_of(paddr.address),
                paddr.address.aligned(old(self).cache().spec_page_size()),
                now,
            ) ==> r is Some && *final(self) == *old(self),
            r is Some ==> final(self).cache().holds_at(
                old(self).cache().slot_of(paddr.address),
                paddr.address.aligned(old(self).cache().spec_page_size()),
                now,
            ),
            Self::cache_step(
                *old(self),
                paddr,
                len as nat,
                now,
                *final(self),
                match r {
                    Some(bytes) => Some(bytes@),
                    None => None,
                },
            ),
    {
        let ghost image = self.mem.view();
        let page_size = self.cache.page_size();
        proof {
            self.cache.lemma_wf();
            self.cache.lemma_slot_in_range(paddr.address);
            lemma_aligned(paddr.address.0 as int, page_size.0 as int);
        }
        let offset: usize = (paddr.address.0 % page_size.0) as usize;
        let entry = self.cache.cached_page_mut_with_time(paddr.address, now);
        if entry.valid {
            let bytes = self.cache.page_range(entry.index, offset, len);
            proof {
                assert(bytes@ =~= image.subrange(paddr.address.0 as int, paddr.address.0 + len));
            }
            return Some(bytes);
        }
        if entry.address.0 > u64::MAX - (page_size.0 - 1) {
            return None;
        }
        let whole = PhysicalAddress { address: entry.address, page: paddr.page };
        let page = match self.read_through(whole, page_size.0 as usize) {
            Ok(page) => page,
            Err(e) => {
                proof {
                    assert(fetched(old(self).backend(), whole, page_size.0 as nat, self.backend(), Err(e)));
                }
                return None;
            },
        };
        let ghost before = self.cache;
        let ghost mid = *self;
        proof {
            assert(fetched(old(self).backend(), whole, page_size.0 as nat, self.backend(), Ok(page@)));
        }
        self.cache.fill_page(entry.index, &page);
        self.cache.validate_page_with_time(paddr.address, paddr.page.page_type, now);
        let bytes = self.cache.page_range(entry.index, offset, len);
        proof {
            assert(bytes@ =~= image.subrange(paddr.address.0 as int, paddr.address.0 + len));
            assert forall|arch: Architecture| old(self).faithful(arch) implies #[trigger] self.faithful(arch) by {
                assert(mid.faithful(arch));
            }
            assert forall|idx: int| 0 <= idx < self.cache.capacity() implies {
                let tag = #[trigger] self.cache.tag(idx);
                tag.0 % self.cache.spec_page_size().0 == 0 ==> {
                    &&& self.cache.slot_of(tag) == idx
                    &&& tag.0 + self.cache.spec_page_size().0 <= image.len()
                    &&& tag.0 + self.cache.spec_page_size().0 <= 0x1_0000_0000_0000_0000
                    &&& self.cache.page(idx) == image.subrange(tag.0 as int, tag.0 + self.cache.spec_page_size().0)
                }
            } by {
                if idx != entry.index {
                    assert(self.cache.tag(idx) == before.tag(idx));
                    assert(self.cache.page(idx) == before.page(idx));
                }
            }
        }
        Some(bytes)
    }

    /// Serves each request in turn as the clock stands at `now`: a request
    /// of a cached page type that lies in one page by way of the cache,
    /// and every other from the backend.
    pub fn phys_read_raw_iter_with_time(&mut self, batch: &mut Vec<PhysicalData>, now: crate::clock::Ticks) -> (r: Result<(), Error>)
        requires
            old(self).inv(),
        ensures
            final(self).inv(),
            final(self).view() == old(self).view(),
            final(self).cache().same_layout(old(self).cache()),
            forall|arch: Architecture| old(self).faithful(arch) ==> #[trigger] final(self).faithful(arch),
            same_requests(old(batch)@, final(batch)@),
            r is Ok ==> forall|i: int| 0 <= i < final(batch).len() ==> holds_bytes(old(self).view(), #[trigger] final(batch)[i]),
            (forall|i: int| 0 <= i < old(batch).len() ==> served_by(old(self).cache(), #[trigger] old(batch)[i], now)) ==> r is Ok
                && *final(self) == *old(self),
            Self::read_at(*old(self), old(batch)@, now, *final(self), final(batch)@, r),
    {
        let ghost image = self.mem.view();
        let n: usize = batch.len();
        let page_size = self.cache.page_size();
        proof {
            self.cache.lemma_wf();
        }
        let ghost mut states: Seq<Self> = seq![*self];
        let mut i: usize = 0;
        while i < n
            invariant
                i <= n,
                n == batch.len(),
                self.inv(),
                self.view() == image,
                image == old(self).view(),
                page_size == self.cache.spec_page_size(),
                page_size.0 > 0,
                self.cache.same_layout(old(self).cache),
                forall|arch: Architecture| old(self).faithful(arch) ==> #[trigger] self.faithful(arch),
                same_requests(old(batch)@, batch@),
                forall|j: int| 0 <= j < i ==> holds_bytes(image, #[trigger] batch[j]),
                (forall|j: int| 0 <= j < i ==> served_by(old(self).cache(), #[trigger] old(batch)[j], now)) ==> *self == *old(self),
                Self::served_through(states, *old(self), old(batch)@, now, batch@, i as int),
                states[i as int] == *self,
            decreases n - i,
        {
            let ghost mid = *self;
            let ghost part = batch@;
            let paddr: PhysicalAddress = batch[i].0;
            proof {
                assert(old(batch)[i as int].0 == batch[i as int].0);
                assert(old(batch)[i as int].1.len() == batch[i as int].1.len());
            }
            let len: usize = batch[i].1.len();
            let offset: u64 = paddr.address.0 % page_size.0;
            proof {
                lemma_aligned(paddr.address.0 as int, page_size.0 as int);
            }
            let mut found: Option<Vec<u8>> = None;
            if len > 0 && self.cache.is_cached_page_type(paddr.page.page_type) && len as u64 <= page_size.0 - offset {
                found = self.read_cached(paddr, len, now);
            }
            let ghost tried = *self;
            let ghost given: Option<Seq<u8>> = if found is Some {
                Some(found->Some_0@)
            } else {
                None
            };
            let bytes = match found {
                Some(bytes) => bytes,
                None => match self.read_through(paddr, len) {
                    Ok(bytes) => bytes,
                    Err(e) => {
                        proof {
                            if shaped(mid.cache(), paddr, len as nat) {
                                assert(Self::cache_step(mid, paddr, len as nat, now, tried, given));
                            }
                            assert(Self::read_one(mid, paddr, len as nat, now, *self, Err(e)));
                            assert(Self::served_through(states, *old(self), old(batch)@, now, batch@, i as int));
                        }
                        return Err(e);
                    },
                },
            };
            proof {
                if shaped(mid.cache(), paddr, len as nat) {
                    assert(Self::cache_step(mid, paddr, len as nat, now, tried, given));
                }
                assert(Self::read_one(mid, paddr, len as nat, now, *self, Ok(bytes@)));
            }
            let ghost prev = batch@;
            batch[i].1 = bytes;
            proof {
                let more = states.push(*self);
                assert(Self::read_one(mid, old(batch)[i as int].0, old(batch)[i as int].1.len() as nat, now, *self, Ok(batch[i as int].1@)));
                assert forall|k: int| 0 <= k < i + 1 implies Self::read_one(
                    #[trigger] more[k],
                    old(batch)[k].0,
                    old(batch)[k].1.len() as nat,
                    now,
                    more[k + 1],
                    Ok(batch[k].1@),
                ) by {
                    if k < i {
                        assert(more[k] == states[k]);
                        assert(more[k + 1] == states[k + 1]);
                        assert(batch[k] == part[k]);
                    }
                }
                assert forall|k: int| i + 1 <= k < n implies #[trigger] batch[k] == old(batch)[k] by {
                    assert(batch[k] == part[k]);
                }
                states = more;
                assert forall|j: int| 0 <= j < i + 1 implies holds_bytes(image, #[trigger] batch[j]) by {
                    if j < i {
                        assert(batch[j] == prev[j]);
                    }
                }
            }
            i += 1;
        }
        Ok(())
    }

    /// Empties every slot that one of the `len` addresses from `addr` on
    /// maps to; every other slot stays as it is.
    fn invalidate_range(&mut self, addr: Address, len: usize)
        requires
            old(self).mem.inv(),
            old(self).cache.wf(),
        ensures
            final(self).mem == old(self).mem,
            final(self).cache.wf(),
            final(self).cache.same_layout(old(self).cache),
            final(self).cache.same_pages(old(self).cache),
            forall|idx: int| #![trigger final(self).cache.stamp(idx)] #![trigger final(self).cache.tag(idx)]
                0 <= idx < old(self).cache.capacity() ==> final(self).cache.stamp(idx) == old(self).cache.stamp(idx)
                    && final(self).cache.tag(idx) == emptied(old(self).cache.tag(idx), hit(old(self).cache, addr, len as nat, idx)),
    {
        let page_size = self.cache.page_size();
        proof {
            self.cache.lemma_wf();
        }
        if len == 0 {
            return ;
        }
        let last: u64 = if (len - 1) as u64 > u64::MAX - addr.0 {
            u64::MAX
        } else {
            addr.0 + (len - 1) as u64
        };
        let mut page: u64 = addr.as_page_aligned(page_size).0;
        proof {
            lemma_aligned(addr.0 as int, page_size.0 as int);
        }
        loop
            invariant_except_break
                forall|idx: int| #![trigger self.cache.stamp(idx)] #![trigger self.cache.tag(idx)]
                    0 <= idx < old(self).cache.capacity() ==> self.cache.stamp(idx) == old(self).cache.stamp(idx)
                        && self.cache.tag(idx) == emptied(old(self).cache.tag(idx), hit_below(old(self).cache, addr, last, page as int, idx)),
            invariant
                page_size == old(self).cache.spec_page_size(),
                page_size.0 > 0,
                old(self).cache.wf(),
                page % page_size.0 == 0,
                page <= last,
                addr.0 <= last,
                addr.0 < page + page_size.0,
                len > 0,
                last == if addr.0 + len - 1 > u64::MAX { u64::MAX as int } else { addr.0 + len - 1 },
                self.mem == old(self).mem,
                self.cache.wf(),
                self.cache.same_layout(old(self).cache),
                self.cache.same_pages(old(self).cache),
            ensures
                self.mem == old(self).mem,
                self.cache.wf(),
                self.cache.same_layout(old(self).cache),
                self.cache.same_pages(old(self).cache),
                forall|idx: int| #![trigger self.cache.stamp(idx)] #![trigger self.cache.tag(idx)]
                    0 <= idx < old(self).cache.capacity() ==> self.cache.stamp(idx) == old(self).cache.stamp(idx)
                        && self.cache.tag(idx) == emptied(old(self).cache.tag(idx), hit(old(self).cache, addr, len as nat, idx)),
            decreases last - page,
        {
            let ghost before = self.cache;
            let ghost first = old(self).cache;
            self.cache.invalidate_page(Address(page), PageType::none());
            proof {
                let none: u8 = 0;
                let m: u8 = before.mask().0;
                assert(m & none == none) by (bit_vector)
                    requires
                        none == 0,
                ;
                before.lemma_slot_in_range(Address(page));
                let slot = before.slot_of(Address(page));
                assert(first.slot_of(Address(page)) == slot);
                lemma_aligned(page as int, page_size.0 as int);
                assert(page as int == (page as int / page_size.0 as int) * page_size.0);
                assert forall|idx: int| 0 <= idx < first.capacity() implies (hit_below(first, addr, last, page + page_size.0, idx)
                    <==> hit_below(first, addr, last, page as int, idx) || idx == slot) by {
                    if hit_below(first, addr, last, page + page_size.0, idx) {
                        let a = choose|a: int| addr.0 <= a <= last && a < page + page_size.0 && #[trigger] first.slot_of(Address(a as u64)) == idx;
                        if a >= page {
                            vstd::arithmetic::div_mod::lemma_fundamental_div_mod_converse(
                                a,
                                page_size.0 as int,
                                page as int / page_size.0 as int,
                                a - page,
                            );
                        }
                    }
                    if hit_below(first, addr, last, page as int, idx) {
                        let a = choose|a: int| addr.0 <= a <= last && a < page && #[trigger] first.slot_of(Address(a as u64)) == idx;
                        assert(first.slot_of(Address(a as u64)) == idx);
                    }
                    if idx == slot {
                        let w: int = if page >= addr.0 { page as int } else { addr.0 as int };
                        vstd::arithmetic::div_mod::lemma_fundamental_div_mod_converse(
                            w,
                            page_size.0 as int,
                            page as int / page_size.0 as int,
                            w - page,
                        );
                        assert(first.slot_of(Address(w as u64)) == idx);
                    }
                }
            }
            proof {
                assert forall|idx: int| 0 <= idx < first.capacity() implies #[trigger] self.cache.stamp(idx) == first.stamp(idx) by {
                    assert(before.stamp(idx) == first.stamp(idx));
                    assert(self.cache.tag(idx) == before.tag(idx) || idx == before.slot_of(Address(page)));
                }
                assert forall|idx: int| 0 <= idx < first.capacity() implies #[trigger] self.cache.tag(idx) == emptied(
                    first.tag(idx),
                    hit_below(first, addr, last, page + page_size.0, idx),
                ) by {
                    assert(before.stamp(idx) == first.stamp(idx));
                    assert(self.cache.stamp(idx) == before.stamp(idx));
                }
            }
            if last - page < page_size.0 {
                proof {
                    assert forall|idx: int| 0 <= idx < first.capacity() implies (hit_below(first, addr, last, page + page_size.0, idx)
                        <==> hit(first, addr, len as nat, idx)) by {
                        if hit_below(first, addr, last, page + page_size.0, idx) {
                            let a = choose|a: int| addr.0 <= a <= last && a < page + page_size.0 && #[trigger] first.slot_of(Address(a as u64)) == idx;
                            assert(first.slot_of(Address(a as u64)) == idx);
                        }
                        if hit(first, addr, len as nat, idx) {
                            let a = choose|a: int| addr.0 <= a < addr.0 + len && a <= u64::MAX && #[trigger] first.slot_of(Address(a as u64)) == idx;
                            assert(first.slot_of(Address(a as u64)) == idx);
                        }
                    }
                    assert forall|idx: int| 0 <= idx < first.capacity() implies #[trigger] self.cache.tag(idx) == emptied(
                        first.tag(idx),
                        hit(first, addr, len as nat, idx),
                    ) by {}
                }
                break ;
            }
            proof {
                vstd::arithmetic::div_mod::lemma_mod_add_multiples_vanish(page as int, page_size.0 as int);
            }
            page = page + page_size.0;
        }
    }
}

impl<T: AccessPhysicalMemory> AccessPhysicalMemory for CachedMemoryAccess<T> {
    open spec fn view(&self) -> Seq<u8> {
        self.backend().view()
    }

    open spec fn inv(&self) -> bool {
        &&& self.backend().inv()
        &&& self.cache().wf()
        &&& coherent(self.cache(), self.backend().view())
    }

    open spec fn faithful(&self, arch: Architecture) -> bool {
        self.backend().faithful(arch)
    }

    /// The clock is read once, whatever it says, and the batch is read as
    /// `read_at` says for that reading.
    open spec fn read_step(&self, before: Seq<PhysicalData>, next: Self, after: Seq<PhysicalData>, r: Result<(), Error>) -> bool {
        exists|now: crate::clock::Ticks| #[trigger] Self::read_at(*self, before, now, next, after, r)
    }

    /// Every slot that an address of the batch maps to is emptied, and the
    /// backend does one write of the batch.
    open spec fn write_step(&self, batch: Seq<PhysicalData>, next: Self, r: Result<(), Error>) -> bool {
        dropped(self.cache(), batch, next.cache()) && self.backend().write_step(batch, next.backend(), r)
    }

    /// Serves each request in turn, from the cache where it can, at the
    /// clock's present reading.
    fn phys_read_raw_iter(&mut self, batch: &mut Vec<PhysicalData>) -> (r: Result<(), Error>)
        ensures
            final(self).cache().same_layout(old(self).cache()),
            exists|now: crate::clock::Ticks| #[trigger] Self::read_at(*old(self), old(batch)@, now, *final(self), final(batch)@, r),
    {
        let now = crate::clock::Ticks::now();
        let r = self.phys_read_raw_iter_with_time(batch, now);
        proof {
            assert(Self::read_at(*old(self), old(batch)@, now, *self, batch@, r));
        }
        r
    }

    /// Empties every slot of the cache that an address of the batch maps
    /// to, hands the batch to the backend and gives what the backend gives.
    fn phys_write_raw_iter(&mut self, batch: &Vec<PhysicalData>) -> (r: Result<(), Error>)
        ensures
            final(self).cache().same_layout(old(self).cache()),
            dropped(old(self).cache(), batch@, final(self).cache()),
            old(self).backend().write_step(batch@, final(self).backend(), r),
    {
        let ghost image = self.mem.view();
        let ghost before = self.cache;
        let n: usize = batch.len();
        proof {
            self.cache.lemma_wf();
            assert forall|idx: int| 0 <= idx < before.capacity() implies !struck(before, batch@.take(0), idx) by {}
        }
        let mut i: usize = 0;
        while i < n
            invariant
                i <= n,
                n == batch.len(),
                self.mem == old(self).mem,
                old(self).mem.inv(),
                before.wf(),
                self.cache.wf(),
                self.cache.same_layout(before),
                self.cache.same_pages(before),
                forall|idx: int| #![trigger self.cache.stamp(idx)] #![trigger self.cache.tag(idx)]
                    0 <= idx < before.capacity() ==> self.cache.stamp(idx) == before.stamp(idx) && self.cache.tag(idx)
                        == emptied(before.tag(idx), struck(before, batch@.take(i as int), idx)),
            decreases n - i,
        {
            let ghost mid = self.cache;
            self.invalidate_range(batch[i].0.address, batch[i].1.len());
            proof {
                assert forall|idx: int| 0 <= idx < before.capacity() implies #[trigger] self.cache.stamp(idx) == before.stamp(idx) by {
                    assert(mid.stamp(idx) == before.stamp(idx));
                }
                assert forall|idx: int| 0 <= idx < before.capacity() implies #[trigger] self.cache.tag(idx) == emptied(
                    before.tag(idx),
                    struck(before, batch@.take(i + 1), idx),
                ) by {
                    lemma_hit_same_layout(mid, before, batch[i as int].0.address, batch[i as int].1.len() as nat, idx);
                    lemma_struck_step(before, batch@, i as int, idx);
                    assert(self.cache.stamp(idx) == mid.stamp(idx));
                    assert(mid.stamp(idx) == before.stamp(idx));
                }
            }
            i += 1;
        }
        proof {
            assert(batch@.take(n as int) =~= batch@);
        }
        let r = self.mem.phys_write_raw_iter(batch);
        proof {
            let after = self.mem.view();
            let ps = self.cache.spec_page_size().0 as int;
            assert forall|idx: int| 0 <= idx < self.cache.capacity() implies {
                let tag = #[trigger] self.cache.tag(idx);
                tag.0 % self.cache.spec_page_size().0 == 0 ==> {
                    &&& self.cache.slot_of(tag) == idx
                    &&& tag.0 + self.cache.spec_page_size().0 <= after.len()
                    &&& tag.0 + self.cache.spec_page_size().0 <= 0x1_0000_0000_0000_0000
                    &&& self.cache.page(idx) == after.subrange(tag.0 as int, tag.0 + self.cache.spec_page_size().0)
                }
            } by {
                let tag = self.cache.tag(idx);
                if tag.0 % self.cache.spec_page_size().0 == 0 {
                    assert(self.cache.stamp(idx) == before.stamp(idx));
                    lemma_invalid_is_no_page(ps);
                    assert(!struck(before, batch@, idx));
                    assert(tag == before.tag(idx));
                    assert(self.cache.page(idx) == before.page(idx));
                    assert forall|a: int| tag.0 <= a < tag.0 + ps implies #[trigger] after[a] == image[a] by {
                        if touched(batch@, a) {
                            let j = choose|j: int| 0 <= j < batch.len() && (#[trigger] batch[j]).0.address.0 <= a < batch[j].0.address.0 + batch[j].1.len();
                            vstd::arithmetic::div_mod::lemma_fundamental_div_mod(tag.0 as int, ps);
                            vstd::arithmetic::div_mod::lemma_fundamental_div_mod_converse(a, ps, tag.0 as int / ps, a - tag.0);
                            assert(before.slot_of(Address(a as u64)) == before.slot_of(tag));
                            assert(hit(before, batch[j].0.address, batch[j].1.len() as nat, idx));
                        }
                    }
                    assert(after.subrange(tag.0 as int, tag.0 + ps) =~= image.subrange(tag.0 as int, tag.0 + ps));
                }
            }
        }
        r
    }
}

} // verus!
