//! A direct-mapped cache of page contents whose entries expire with time.
use vstd::prelude::*;
use crate::architecture::Architecture;
use crate::clock::Ticks;
use crate::types::{Address, Length, PageType, INVALID_ADDRESS, lemma_aligned};

verus! {

/// What a page cache knows of the page of an address.
#[derive(Clone, Copy, Debug, PartialEq, Eq, Structural)]
pub struct CacheEntry {
    /// The slot holds the page of the address and has not expired.
    pub valid: bool,
    /// The start of the page of the address.
    pub address: Address,
    /// The slot that the page maps to; its content buffer is one page long.
    pub index: usize,
}

/// A page cache of a fixed number of slots. The page at address `a` maps to
/// slot `(a / page_size) mod capacity`, and a slot is valid for a page as
/// long as it is tagged with the page's address and was validated no more
/// than `cache_time` ago.
///
/// The content buffers lie one after another in one store of bytes. Each
/// begins at a multiple of the page size inside the store; the store
/// itself is an ordinary vector, so the machine address of a buffer is
/// not aligned to the page size.
#[derive(Clone)]
pub struct TimedCache {
    address: Vec<Address>,
    time: Vec<Ticks>,
    cache: Vec<u8>,
    cache_time: Ticks,
    page_size: Length,
    page_type_mask: PageType,
}

impl TimedCache {
    /// The number of slots.
    pub closed spec fn capacity(&self) -> nat {
        self.address.len() as nat
    }

    /// The size of a page, and of the content buffer of a slot.
    pub closed spec fn spec_page_size(&self) -> Length {
        self.page_size
    }

    /// The page types whose pages are cached.
    pub closed spec fn mask(&self) -> PageType {
        self.page_type_mask
    }

    /// How long after it was filled a slot stays valid.
    pub closed spec fn cache_time(&self) -> Ticks {
        self.cache_time
    }

    /// The page address that slot `idx` is tagged with.
    pub closed spec fn tag(&self, idx: int) -> Address {
        self.address[idx]
    }

    /// The clock reading at which slot `idx` was last validated.
    pub closed spec fn stamp(&self, idx: int) -> Ticks {
        self.time[idx]
    }

    /// The number of time stamps that the cache holds.
    pub closed spec fn stamp_count(&self) -> nat {
        self.time.len() as nat
    }

    /// The number of bytes of the content store.
    pub closed spec fn store_len(&self) -> nat {
        self.cache.len() as nat
    }

    /// The offset of slot `idx` in the content store.
    pub open spec fn slot_offset(&self, idx: int) -> int {
        idx * self.spec_page_size().0
    }

    /// The content of slot `idx`.
    pub closed spec fn page(&self, idx: int) -> Seq<u8> {
        self.cache@.subrange(idx * self.page_size.0, idx * self.page_size.0 + self.page_size.0)
    }

    /// The cache has a slot, and for each slot a tag, a time stamp and a
    /// content buffer of one page; the size of a page is even.
    pub closed spec fn wf(&self) -> bool {
        &&& self.page_size.0 > 0
        &&& self.page_size.0 % 2 == 0
        &&& self.address.len() > 0
        &&& self.time.len() == self.address.len()
        &&& self.cache.len() == self.address.len() * self.page_size.0
    }

    /// The slot that the page of `addr` maps to.
    pub open spec fn slot_of(&self, addr: Address) -> int {
        (addr.0 / self.spec_page_size().0) as int % (self.capacity() as int)
    }

    /// Slot `idx` holds the page whose address is `page_addr` and has not
    /// expired at `now`.
    pub open spec fn holds_at(&self, idx: int, page_addr: Address, now: Ticks) -> bool {
        &&& self.tag(idx) == page_addr
        &&& now.since(self.stamp(idx)).0 <= self.cache_time().0
    }

    /// A cache has a slot, as many time stamps as slots, and a content
    /// store of one page for each slot: what it holds is fixed by its
    /// capacity and its page size, which no operation changes. The content
    /// buffer of each slot is one page long and begins at a multiple of
    /// the page size in the content store.
    pub proof fn lemma_wf(&self)
        requires
            self.wf(),
        ensures
            self.capacity() > 0,
            self.stamp_count() == self.capacity(),
            self.store_len() == self.capacity() * self.spec_page_size().0,
            self.spec_page_size().0 > 0,
            self.spec_page_size().0 % 2 == 0,
            forall|a: Address| (#[trigger] a.aligned(self.spec_page_size())).0 != INVALID_ADDRESS,
            self.spec_page_size().0 <= self.capacity() * self.spec_page_size().0 <= usize::MAX,
            forall|idx: int| 0 <= idx < self.capacity() ==> (#[trigger] self.page(idx)).len() == self.spec_page_size().0,
            forall|idx: int| 0 <= idx < self.capacity() ==> (#[trigger] self.slot_offset(idx)) % (self.spec_page_size().0 as int) == 0,
    {
        let ps = self.page_size.0 as int;
        let n = self.address.len() as int;
        assert(ps <= n * ps) by (nonlinear_arith)
            requires n >= 1, ps > 0;
        assert forall|a: Address| (#[trigger] a.aligned(self.spec_page_size())).0 != INVALID_ADDRESS by {
            lemma_aligned(a.0 as int, ps);
            lemma_invalid_is_no_page(ps);
        }
        assert forall|idx: int| 0 <= idx < n implies (#[trigger] self.page(idx)).len() == ps by {
            assert(idx * ps + ps <= n * ps) by (nonlinear_arith)
                requires 0 <= idx < n, ps > 0;
            assert(0 <= idx * ps) by (nonlinear_arith)
                requires 0 <= idx, ps > 0;
        }
        assert forall|idx: int| 0 <= idx < n implies (#[trigger] self.slot_offset(idx)) % ps == 0 by {
            vstd::arithmetic::div_mod::lemma_mod_multiples_basic(idx, ps);
        }
    }

    /// A cache of as many slots as `size` bytes hold pages of `arch`, for
    /// pages of the types in `page_type_mask`, whose entries live for
    /// `duration`. Every slot is empty and its content is zero.
    pub fn new(arch: Architecture, size: Length, duration: Ticks, page_type_mask: PageType) -> (c: Self)
        requires
            size.0 >= arch.page_size().0,
            size.0 <= usize::MAX,
        ensures
            c.wf(),
            c.capacity() == size.0 / arch.page_size().0,
            c.spec_page_size() == arch.page_size(),
            c.mask() == page_type_mask,
            c.cache_time() == duration,
            forall|idx: int| 0 <= idx < c.capacity() ==> (#[trigger] c.tag(idx)).0 == INVALID_ADDRESS,
            forall|idx: int| 0 <= idx < c.capacity() ==> #[trigger] c.page(idx) == Seq::new(c.spec_page_size().0 as nat, |i: int| 0u8),
    {
        let page_size = arch.page_size();
        let entries: u64 = size.0 / page_size.0;
        proof {
            vstd::arithmetic::div_mod::lemma_fundamental_div_mod(size.0 as int, page_size.0 as int);
            vstd::arithmetic::div_mod::lemma_mod_bound(size.0 as int, page_size.0 as int);
            assert(entries >= 1) by (nonlinear_arith)
                requires size.0 >= page_size.0, page_size.0 > 0, entries == size.0 / page_size.0;
            assert(entries * page_size.0 <= size.0) by (nonlinear_arith)
                requires size.0 == page_size.0 * (size.0 / page_size.0) + size.0 % page_size.0,
                    0 <= size.0 % page_size.0, entries == size.0 / page_size.0;
            assert(entries <= entries * page_size.0) by (nonlinear_arith)
                requires page_size.0 >= 1, entries >= 0;
        }
        let n: usize = entries as usize;
        let bytes: usize = (entries * page_size.0) as usize;
        let now = Ticks::now();
        let c = TimedCache {
            address: vec![Address(INVALID_ADDRESS); n],
            time: vec![now; n],
            cache: vec![0u8; bytes],
            cache_time: duration,
            page_size,
            page_type_mask,
        };
        proof {
            c.lemma_wf();
            assert forall|idx: int| 0 <= idx < c.capacity() implies #[trigger] c.page(idx) == Seq::new(
                c.spec_page_size().0 as nat, |i: int| 0u8) by {
                assert(idx * page_size.0 + page_size.0 <= n * page_size.0) by (nonlinear_arith)
                    requires 0 <= idx < n, page_size.0 > 0;
                assert(0 <= idx * page_size.0) by (nonlinear_arith)
                    requires 0 <= idx, page_size.0 > 0;
                assert(c.page(idx) =~= Seq::new(c.spec_page_size().0 as nat, |i: int| 0u8));
            }
        }
        c
    }

    fn page_index(&self, addr: Address) -> (idx: usize)
        requires
            self.wf(),
        ensures
            idx == self.slot_of(addr),
            idx == self.slot_of(addr.aligned(self.spec_page_size())),
            idx < self.capacity(),
    {
        let aligned = addr.as_page_aligned(self.page_size);
        proof {
            lemma_aligned(addr.0 as int, self.page_size.0 as int);
        }
        ((aligned.0 / self.page_size.0) % (self.address.len() as u64)) as usize
    }

    /// The content of slot `idx`, the tag and the time stamp that go with it.
    pub fn page_and_info_from_index(&self, idx: usize) -> (r: (Vec<u8>, Address, Ticks))
        requires
            self.wf(),
            idx < self.capacity(),
        ensures
            r.0@ == self.page(idx as int),
            r.1 == self.tag(idx as int),
            r.2 == self.stamp(idx as int),
    {
        (self.page_from_index(idx), self.address[idx], self.time[idx])
    }

    /// A copy of the content of slot `idx`.
    pub fn page_from_index(&self, idx: usize) -> (page: Vec<u8>)
        requires
            self.wf(),
            idx < self.capacity(),
        ensures
            page@ == self.page(idx as int),
    {
        proof {
            self.lemma_wf();
        }
        self.page_range(idx, 0, self.page_size.0 as usize)
    }

    /// A copy of `len` bytes of slot `idx`, from `offset` on.
    pub fn page_range(&self, idx: usize, offset: usize, len: usize) -> (bytes: Vec<u8>)
        requires
            self.wf(),
            idx < self.capacity(),
            offset + len <= self.spec_page_size().0,
        ensures
            bytes@ == self.page(idx as int).subrange(offset as int, offset + len),
    {
        proof {
            self.lemma_wf();
        }
        let ps: usize = self.page_size.0 as usize;
        proof {
            assert(idx * ps + ps <= self.address.len() * ps) by (nonlinear_arith)
                requires 0 <= idx < self.address.len(), ps > 0;
            assert(0 <= idx * ps) by (nonlinear_arith)
                requires 0 <= idx, ps > 0;
        }
        let start: usize = idx * ps + offset;
        let mut bytes: Vec<u8> = Vec::with_capacity(len);
        let mut i: usize = 0;
        while i < len
            invariant
                i <= len,
                start + len <= self.cache.len(),
                bytes@ == self.cache@.subrange(start as int, start + i),
            decreases len - i,
        {
            bytes.push(self.cache[start + i]);
            proof {
                assert(self.cache@.subrange(start as int, start + i).push(self.cache@[start + i])
                    =~= self.cache@.subrange(start as int, start + i + 1));
            }
            i += 1;
        }
        proof {
            assert(bytes@ =~= self.page(idx as int).subrange(offset as int, offset + len));
        }
        bytes
    }

    /// Overwrites the content of slot `idx` with `data`. Tags and time
    /// stamps stay as they are.
    pub fn fill_page(&mut self, idx: usize, data: &Vec<u8>)
        requires
            old(self).wf(),
            idx < old(self).capacity(),
            data.len() == old(self).spec_page_size().0,
        ensures
            final(self).wf(),
            final(self).same_layout(*old(self)),
            final(self).same_tags(*old(self)),
            final(self).page(idx as int) == data@,
            forall|i: int| 0 <= i < old(self).capacity() && i != idx ==> #[trigger] final(self).page(i) == old(self).page(i),
    {
        proof {
            self.lemma_wf();
        }
        let ps: usize = self.page_size.0 as usize;
        proof {
            assert(idx * ps + ps <= self.address.len() * ps) by (nonlinear_arith)
                requires 0 <= idx < self.address.len(), ps > 0;
            assert(0 <= idx * ps) by (nonlinear_arith)
                requires 0 <= idx, ps > 0;
        }
        let start: usize = idx * ps;
        let mut i: usize = 0;
        while i < ps
            invariant
                i <= ps,
                ps == data.len(),
                start + ps <= self.cache.len(),
                self.cache.len() == old(self).cache.len(),
                self.address == old(self).address,
                self.time == old(self).time,
                self.cache_time == old(self).cache_time,
                self.page_size == old(self).page_size,
                self.page_type_mask == old(self).page_type_mask,
                forall|j: int| 0 <= j < i ==> self.cache@[start + j] == data@[j],
                forall|j: int| 0 <= j < self.cache.len() && !(start <= j < start + i) ==> self.cache@[j] == old(self).cache@[j],
            decreases ps - i,
        {
            self.cache[start + i] = data[i];
            i += 1;
        }
        proof {
            assert(self.page(idx as int) =~= data@);
            assert forall|k: int| 0 <= k < old(self).capacity() && k != idx implies #[trigger] self.page(k) == old(self).page(k) by {
                lemma_slots_apart(k, idx as int, ps as int);
                assert(k * ps + ps <= self.address.len() * ps) by (nonlinear_arith)
                    requires 0 <= k < self.address.len(), ps > 0;
                assert(self.page(k) =~= old(self).page(k));
            }
        }
    }

    /// Whether slot and tag of the page of `addr` agree and the slot has not
    /// expired at `time`: `Ok` with the slot where they do, `Err` with the
    /// slot where they do not.
    pub fn try_page_with_time(&self, addr: Address, time: Ticks) -> (r: Result<usize, usize>)
        requires
            self.wf(),
        ensures
            r is Ok <==> self.holds_at(self.slot_of(addr), addr.aligned(self.spec_page_size()), time),
            r is Ok ==> r->Ok_0 == self.slot_of(addr),
            r is Err ==> r->Err_0 == self.slot_of(addr),
    {
        let page_index = self.page_index(addr);
        let aligned = addr.as_page_aligned(self.page_size);
        if self.address[page_index].0 == aligned.0 && time.duration_since(self.time[page_index]).0
            <= self.cache_time.0 {
            Ok(page_index)
        } else {
            Err(page_index)
        }
    }

    /// The size of a page.
    pub fn page_size(&self) -> (l: Length)
        ensures
            l == self.spec_page_size(),
    {
        self.page_size
    }

    /// The number of slots.
    pub fn slots(&self) -> (n: usize)
        ensures
            n == self.capacity(),
    {
        self.address.len()
    }

    /// Whether pages of type `page_type` are cached: the mask that the
    /// cache was made with has every property of `page_type`.
    pub fn is_cached_page_type(&self, page_type: PageType) -> (b: bool)
        ensures
            b == self.mask().has(page_type),
    {
        self.page_type_mask.contains(page_type)
    }

    /// The slot for the page of `addr` as the clock stands at `now`.
    pub fn cached_page_mut_with_time(&mut self, addr: Address, now: Ticks) -> (e: CacheEntry)
        requires
            old(self).wf(),
        ensures
            *final(self) == *old(self),
            e.address == addr.aligned(old(self).spec_page_size()),
            e.address.0 % old(self).spec_page_size().0 == 0,
            e.index == old(self).slot_of(addr),
            e.index < old(self).capacity(),
            old(self).slot_offset(e.index as int) % (old(self).spec_page_size().0 as int) == 0,
            e.valid == old(self).holds_at(e.index as int, e.address, now),
    {
        let page_size = self.page_size;
        let aligned_addr = addr.as_page_aligned(page_size);
        proof {
            self.lemma_slot_in_range(addr);
            self.lemma_wf();
        }
        match self.try_page_with_time(addr, now) {
            Ok(index) => CacheEntry { valid: true, address: aligned_addr, index },
            Err(index) => CacheEntry { valid: false, address: aligned_addr, index },
        }
    }

    /// The slot for the page of `addr`. Whether a slot with the right tag
    /// is still valid depends on the clock, which is read once.
    pub fn cached_page_mut(&mut self, addr: Address) -> (e: CacheEntry)
        requires
            old(self).wf(),
        ensures
            *final(self) == *old(self),
            e.address == addr.aligned(old(self).spec_page_size()),
            e.address.0 % old(self).spec_page_size().0 == 0,
            e.index == old(self).slot_of(addr),
            e.index < old(self).capacity(),
            old(self).slot_offset(e.index as int) % (old(self).spec_page_size().0 as int) == 0,
            e.valid ==> old(self).tag(e.index as int) == e.address,
            exists|now: Ticks| e.valid == #[trigger] old(self).holds_at(e.index as int, e.address, now),
    {
        let now = Ticks::now();
        let e = self.cached_page_mut_with_time(addr, now);
        proof {
            assert(e.valid == old(self).holds_at(e.index as int, e.address, now));
        }
        e
    }

    /// Tags the slot of `addr` with the page of `addr` and stamps it with
    /// `now`, where pages of type `page_type` are cached; does nothing
    /// where they are not.
    pub fn validate_page_with_time(&mut self, addr: Address, page_type: PageType, now: Ticks)
        requires
            old(self).wf(),
        ensures
            final(self).wf(),
            final(self).same_layout(*old(self)),
            final(self).same_pages(*old(self)),
            !old(self).mask().has(page_type) ==> final(self).same_tags(*old(self)),
            old(self).mask().has(page_type) ==> final(self).retagged(*old(self), old(self).slot_of(addr),
                addr.aligned(old(self).spec_page_size()), now),
    {
        if self.page_type_mask.contains(page_type) {
            let idx = self.page_index(addr);
            let aligned_addr = addr.as_page_aligned(self.page_size);
            self.address[idx] = aligned_addr;
            self.time[idx] = now;
        }
    }

    /// `validate_page_with_time` at the clock's present reading.
    pub fn validate_page(&mut self, addr: Address, page_type: PageType)
        requires
            old(self).wf(),
        ensures
            final(self).wf(),
            final(self).same_layout(*old(self)),
            final(self).same_pages(*old(self)),
            !old(self).mask().has(page_type) ==> final(self).same_tags(*old(self)),
            old(self).mask().has(page_type) ==> exists|now: Ticks| final(self).retagged(*old(self), old(self).slot_of(addr),
                addr.aligned(old(self).spec_page_size()), now),
    {
        let now = Ticks::now();
        self.validate_page_with_time(addr, page_type, now);
    }

    /// Empties the slot of `addr`, where pages of type `page_type` are
    /// cached: its tag becomes the all-ones address, which is the start of
    /// no page, so that the slot holds no page at any clock reading. Does
    /// nothing where pages of that type are not cached.
    pub fn invalidate_page(&mut self, addr: Address, page_type: PageType)
        requires
            old(self).wf(),
        ensures
            final(self).wf(),
            final(self).same_layout(*old(self)),
            final(self).same_pages(*old(self)),
            !old(self).mask().has(page_type) ==> *final(self) == *old(self),
            old(self).mask().has(page_type) ==> final(self).retagged(*old(self), old(self).slot_of(addr),
                Address(INVALID_ADDRESS), old(self).stamp(old(self).slot_of(addr))),
            old(self).mask().has(page_type) ==> forall|a: Address, now: Ticks|
                !(#[trigger] final(self).holds_at(old(self).slot_of(addr), a.aligned(old(self).spec_page_size()), now)),
    {
        proof {
            self.lemma_wf();
        }
        if self.page_type_mask.contains(page_type) {
            let idx = self.page_index(addr);
            self.address[idx] = Address::invalid();
        }
    }

    /// Capacity, page size, mask and validity window are those of `other`.
    pub open spec fn same_layout(&self, other: Self) -> bool {
        &&& self.capacity() == other.capacity()
        &&& self.spec_page_size() == other.spec_page_size()
        &&& self.mask() == other.mask()
        &&& self.cache_time() == other.cache_time()
    }

    /// Every slot has the tag and the time stamp it has in `other`.
    pub open spec fn same_tags(&self, other: Self) -> bool {
        forall|i: int| 0 <= i < other.capacity() ==> #[trigger] self.tag(i) == other.tag(i) && self.stamp(i) == other.stamp(i)
    }

    /// Every slot has the content it has in `other`.
    pub open spec fn same_pages(&self, other: Self) -> bool {
        forall|i: int| 0 <= i < other.capacity() ==> #[trigger] self.page(i) == other.page(i)
    }

    /// Slot `idx` has tag `tag` and time stamp `stamp`; every other slot
    /// has those it has in `other`.
    pub open spec fn retagged(&self, other: Self, idx: int, tag: Address, stamp: Ticks) -> bool {
        &&& self.tag(idx) == tag
        &&& self.stamp(idx) == stamp
        &&& forall|i: int| 0 <= i < other.capacity() && i != idx ==> #[trigger] self.tag(i) == other.tag(i) && self.stamp(i) == other.stamp(i)
    }

    /// Pages that share a slot evict each other: a slot that holds one page
    /// holds no other page that maps to it, at any clock reading.
    pub proof fn lemma_collision(&self, held: Address, other: Address, now: Ticks, then: Ticks)
        requires
            self.wf(),
            self.slot_of(held) == self.slot_of(other),
            held.aligned(self.spec_page_size()) != other.aligned(self.spec_page_size()),
            self.holds_at(self.slot_of(held), held.aligned(self.spec_page_size()), now),
        ensures
            !self.holds_at(self.slot_of(other), other.aligned(self.spec_page_size()), then),
    {
    }

    /// Addresses that lie a whole number of cache sizes apart map to the
    /// same slot and lie in different pages: read in turn, each evicts the
    /// other, and with `lemma_collision` none of them is ever found.
    pub proof fn lemma_stride(&self, addr: Address, far: Address, k: nat)
        requires
            self.wf(),
            k > 0,
            far.0 == addr.0 + k * self.capacity() * self.spec_page_size().0,
        ensures
            self.slot_of(far) == self.slot_of(addr),
            far.aligned(self.spec_page_size()) != addr.aligned(self.spec_page_size()),
    {
        let ps = self.page_size.0 as int;
        let n = self.address.len() as int;
        let a = addr.0 as int;
        let q = a / ps;
        let step = k as int * n;
        vstd::arithmetic::div_mod::lemma_fundamental_div_mod(a, ps);
        vstd::arithmetic::div_mod::lemma_mod_bound(a, ps);
        vstd::arithmetic::div_mod::lemma_div_pos_is_pos(a, ps);
        assert(far.0 == ps * (q + step) + a % ps) by (nonlinear_arith)
            requires
                far.0 == a + k * n * ps,
                a == ps * q + a % ps,
                step == k * n,
        ;
        assert(step > 0) by (nonlinear_arith)
            requires
                step == k * n,
                k > 0,
                n > 0,
        ;
        vstd::arithmetic::div_mod::lemma_fundamental_div_mod_converse(far.0 as int, ps, q + step, a % ps);
        assert((q + step) % n == q % n) by {
            vstd::arithmetic::div_mod::lemma_mod_multiples_vanish(k as int, q, n);
            assert(n * k == step) by (nonlinear_arith)
                requires
                    step == k * n,
            ;
        }
        assert(ps * step > 0) by (nonlinear_arith)
            requires
                step > 0,
                ps > 0,
        ;
        assert(ps * (q + step) == ps * q + ps * step) by (nonlinear_arith);
    }

    /// The slot of `addr` is tagged with the page of `addr`, as it is after
    /// the page was read and validated.
    pub open spec fn tagged_for(&self, addr: Address) -> bool {
        self.tag(self.slot_of(addr)) == addr.aligned(self.spec_page_size())
    }

    /// Reading in turn pages that share a slot never finds one of them.
    /// `caches[i]` is the cache before the read at `addrs[i]`, which leaves
    /// the slot tagged for that address; each address maps to the slot of
    /// the one before it and lies in another page, and the first read
    /// meets a slot that is not tagged for it. Then no read finds its
    /// page, at whatever clock reading, however long the sequence.
    pub proof fn lemma_thrash(caches: Seq<TimedCache>, addrs: Seq<Address>, now: Ticks, i: int)
        requires
            caches.len() == addrs.len() + 1,
            0 <= i < addrs.len(),
            forall|j: int| 0 <= j < caches.len() ==> (#[trigger] caches[j]).wf() && caches[j].same_layout(caches[0]),
            forall|j: int| 0 <= j < addrs.len() ==> (#[trigger] caches[j + 1]).tagged_for(addrs[j]),
            forall|j: int|
                0 < j < addrs.len() ==> caches[0].slot_of(#[trigger] addrs[j]) == caches[0].slot_of(addrs[j - 1]) && addrs[j].aligned(
                    caches[0].spec_page_size(),
                ) != addrs[j - 1].aligned(caches[0].spec_page_size()),
            !caches[0].tagged_for(addrs[0]),
        ensures
            !caches[i].holds_at(caches[i].slot_of(addrs[i]), addrs[i].aligned(caches[i].spec_page_size()), now),
    {
        assert(caches[i].same_layout(caches[0]));
        if i > 0 {
            assert(caches[i - 1 + 1].tagged_for(addrs[i - 1]));
            assert(caches[0].slot_of(addrs[i]) == caches[0].slot_of(addrs[i - 1]));
        }
    }

    /// The slot of an address is a slot of the cache, and is the slot of the
    /// start of its page.
    pub proof fn lemma_slot_in_range(&self, addr: Address)
        requires
            self.wf(),
        ensures
            0 <= self.slot_of(addr) < self.capacity(),
            self.slot_of(addr) == self.slot_of(addr.aligned(self.spec_page_size())),
            addr.aligned(self.spec_page_size()).0 % self.spec_page_size().0 == 0,
    {
        lemma_aligned(addr.0 as int, self.page_size.0 as int);
    }
}

/// The all-ones address is no multiple of an even page size.
pub proof fn lemma_invalid_is_no_page(ps: int)
    requires
        ps > 0,
        ps % 2 == 0,
    ensures
        INVALID_ADDRESS as int % ps != 0,
{
    let t = INVALID_ADDRESS as int;
    if t % ps == 0 {
        vstd::arithmetic::div_mod::lemma_fundamental_div_mod(t, ps);
        vstd::arithmetic::div_mod::lemma_fundamental_div_mod(ps, 2);
        let q = t / ps;
        let h = ps / 2;
        assert(t == (2 * h) * q);
        assert((2 * h) * q == 2 * (h * q)) by (nonlinear_arith);
    }
}

/// Two different slots of `ps` bytes do not overlap.
proof fn lemma_slots_apart(k: int, idx: int, ps: int)
    requires
        0 <= k,
        0 <= idx,
        k != idx,
        ps > 0,
    ensures
        k * ps + ps <= idx * ps || idx * ps + ps <= k * ps,
        0 <= k * ps,
{
    if k < idx {
        assert(k * ps + ps <= idx * ps) by (nonlinear_arith)
            requires k + 1 <= idx, ps > 0;
    } else {
        assert(idx * ps + ps <= k * ps) by (nonlinear_arith)
            requires idx + 1 <= k, ps > 0;
    }
    assert(0 <= k * ps) by (nonlinear_arith)
        requires 0 <= k, ps > 0;
}

} // verus!
