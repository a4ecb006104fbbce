//! A direct-mapped cache of translations, and the validators that decide
//! how long its entries live.
use vstd::prelude::*;
use crate::clock::Ticks;
use crate::types::{Address, Length, Page, PhysicalAddress, offset_address, page_base};

verus! {

/// The source of the token that a cached translation is stamped with. An
/// entry lives as long as its token is the validator's generation.
pub trait CacheValidator: Sized {
    /// The token of the present generation.
    spec fn generation(&self) -> u64;

    /// What the validator needs to hold of itself between calls.
    spec fn inv(&self) -> bool;

    /// `next` is a state that one `update_validity` can lead to from this
    /// one.
    spec fn updated(&self, next: Self) -> bool;

    /// Lets time pass: the generation stays or advances, and never goes
    /// back.
    fn update_validity(&mut self)
        requires
            old(self).inv(),
        ensures
            final(self).inv(),
            final(self).generation() >= old(self).generation(),
            old(self).updated(*final(self)),
    ;

    fn current_token(&self) -> (token: u64)
        requires
            self.inv(),
        ensures
            token == self.generation(),
    ;

    /// Whether `token` is the token of the present generation.
    fn is_valid(&self, token: u64) -> (b: bool)
        requires
            self.inv(),
        ensures
            b == (token == self.generation()),
    {
        token == self.current_token()
    }
}

/// A validator whose generation advances with every `valid_count`-th call
/// of `update_validity`.
pub struct CountCacheValidator {
    valid_count: u64,
    count: u64,
    generation: u64,
}

impl CountCacheValidator {
    /// The number of calls of `update_validity` that make a generation.
    pub closed spec fn valid_count(&self) -> u64 {
        self.valid_count
    }

    /// The number of calls of `update_validity` in the present generation.
    pub closed spec fn count(&self) -> u64 {
        self.count
    }

    /// The token of the present generation.
    pub closed spec fn token(&self) -> u64 {
        self.generation
    }

    /// A validator in its first generation that begins the next with every
    /// `valid_count`-th call of `update_validity`.
    pub fn new(valid_count: u64) -> (v: Self)
        ensures
            v.valid_count() == valid_count,
            v.count() == 0,
            v.token() == 0,
    {
        CountCacheValidator { valid_count, count: 0, generation: 0 }
    }
}

impl CacheValidator for CountCacheValidator {
    open spec fn generation(&self) -> u64 {
        self.token()
    }

    open spec fn inv(&self) -> bool {
        true
    }

    /// Every `valid_count`-th call begins a generation.
    open spec fn updated(&self, next: Self) -> bool {
        &&& next.valid_count() == self.valid_count()
        &&& if self.count() + 1 >= self.valid_count() {
            &&& next.count() == 0
            &&& next.token() == if self.token() < u64::MAX { (self.token() + 1) as u64 } else { self.token() }
        } else {
            &&& next.count() == self.count() + 1
            &&& next.token() == self.token()
        }
    }

    fn update_validity(&mut self) {
        if self.count >= self.valid_count || self.valid_count - self.count <= 1 {
            self.count = 0;
            if self.generation < u64::MAX {
                self.generation = self.generation + 1;
            }
        } else {
            self.count = self.count + 1;
        }
    }

    fn current_token(&self) -> (token: u64) {
        self.generation
    }
}

/// A validator whose generation advances when `update_validity` finds
/// that at least `valid_time` has passed since it last advanced.
pub struct TimedCacheValidator {
    valid_time: Ticks,
    last: Ticks,
    generation: u64,
}

impl TimedCacheValidator {
    /// How long a generation lasts at least.
    pub closed spec fn valid_time(&self) -> Ticks {
        self.valid_time
    }

    /// The clock reading at which the generation last advanced.
    pub closed spec fn last_update(&self) -> Ticks {
        self.last
    }

    /// The token of the present generation.
    pub closed spec fn token(&self) -> u64 {
        self.generation
    }

    /// The state after `update_validity` at clock reading `now`.
    pub open spec fn updated_at(&self, next: Self, now: Ticks) -> bool {
        &&& next.valid_time() == self.valid_time()
        &&& if now.since(self.last_update()).0 >= self.valid_time().0 {
            &&& next.last_update() == now
            &&& next.token() == if self.token() < u64::MAX { (self.token() + 1) as u64 } else { self.token() }
        } else {
            &&& next.last_update() == self.last_update()
            &&& next.token() == self.token()
        }
    }

    /// A validator whose first generation begins at clock reading `now`.
    pub fn with_time(valid_time: Ticks, now: Ticks) -> (v: Self)
        ensures
            v.valid_time() == valid_time,
            v.last_update() == now,
            v.token() == 0,
    {
        TimedCacheValidator { valid_time, last: now, generation: 0 }
    }

    /// A validator whose first generation begins now.
    pub fn new(valid_time: Ticks) -> (v: Self)
        ensures
            v.valid_time() == valid_time,
            v.token() == 0,
    {
        Self::with_time(valid_time, Ticks::now())
    }

    /// Begins a generation where at least `valid_time` has passed at clock
    /// reading `now` since the present one began.
    pub fn update_validity_with_time(&mut self, now: Ticks)
        ensures
            old(self).updated_at(*final(self), now),
    {
        if now.duration_since(self.last).0 >= self.valid_time.0 {
            self.last = now;
            if self.generation < u64::MAX {
                self.generation = self.generation + 1;
            }
        }
    }
}

impl CacheValidator for TimedCacheValidator {
    open spec fn generation(&self) -> u64 {
        self.token()
    }

    open spec fn inv(&self) -> bool {
        true
    }

    /// The clock is read once, whatever it says.
    open spec fn updated(&self, next: Self) -> bool {
        exists|now: Ticks| self.updated_at(next, now)
    }

    fn update_validity(&mut self) {
        let now = Ticks::now();
        self.update_validity_with_time(now);
    }

    fn current_token(&self) -> (token: u64) {
        self.generation
    }
}

/// A translation found in the cache.
#[derive(Clone, Copy, Debug, PartialEq, Eq, Structural)]
pub struct TLBEntry {
    /// The address space that the translation belongs to.
    pub dtb: Address,
    /// The virtual address that was asked for.
    pub virt_addr: Address,
    /// The physical address that it lies at.
    pub phys_addr: PhysicalAddress,
}

/// What a slot of the cache holds.
#[derive(Clone, Copy, Debug, PartialEq, Eq, Structural)]
pub struct Slot {
    /// The slot holds a translation.
    pub used: bool,
    /// The address space that the translation belongs to.
    pub dtb: Address,
    /// The start of the virtual page.
    pub virt_page: Address,
    /// The physical address that the start of the virtual page lies at.
    pub phys_page: u64,
    /// The page that the physical address was found in.
    pub page: Page,
    /// The generation in which the translation was put into the slot.
    pub token: u64,
}

/// A translation cache of a fixed number of slots. The page of `vaddr` in
/// the address space of `dtb` maps to slot
/// `((vaddr / page_size) xor (dtb / page_size)) mod capacity`.
pub struct TLBCache<Q: CacheValidator> {
    entries: Vec<Slot>,
    validator: Q,
}

/// The slot of a cache of `capacity` slots that the page of `vaddr` in the
/// address space of `dtb` maps to.
pub open spec fn tlb_slot(dtb: Address, vaddr: Address, page_size: Length, capacity: nat) -> int {
    (((vaddr.0 / page_size.0) ^ (dtb.0 / page_size.0)) % (capacity as u64)) as int
}

impl<Q: CacheValidator> TLBCache<Q> {
    /// The number of slots.
    pub closed spec fn capacity(&self) -> nat {
        self.entries.len() as nat
    }

    /// The validator.
    pub closed spec fn validator(&self) -> Q {
        self.validator
    }

    /// The cache has a slot, its validator is in order, and no slot holds a
    /// token of a generation to come.
    pub closed spec fn wf(&self) -> bool {
        &&& 0 < self.entries.len() <= u64::MAX
        &&& self.validator.inv()
        &&& forall|i: int| 0 <= i < self.entries.len() ==> (#[trigger] self.entries[i]).token <= self.validator.generation()
    }

    /// A cache has a slot, its validator is in order, and no slot holds a
    /// token of a generation to come.
    pub proof fn lemma_wf(&self)
        requires
            self.wf(),
        ensures
            0 < self.capacity() <= u64::MAX,
            self.validator().inv(),
            forall|idx: int| 0 <= idx < self.capacity() ==> (#[trigger] self.slot(idx)).token <= self.validator().generation(),
            forall|dtb: Address, vaddr: Address, page_size: Length|
                page_size.0 > 0 ==> 0 <= #[trigger] tlb_slot(dtb, vaddr, page_size, self.capacity()) < self.capacity(),
    {
    }

    /// What slot `idx` holds.
    pub closed spec fn slot(&self, idx: int) -> Slot {
        self.entries[idx]
    }

    /// The physical address that the cache holds for `vaddr` in the address
    /// space of `dtb`: that of the slot of the page of `vaddr`, where the
    /// slot holds that page and its token is the validator's generation.
    pub open spec fn lookup(&self, dtb: Address, vaddr: Address, page_size: Length) -> Option<PhysicalAddress> {
        let slot = self.slot(tlb_slot(dtb, vaddr, page_size, self.capacity()));
        if slot.used && slot.dtb == dtb && slot.virt_page == vaddr.aligned(page_size) && slot.token
            == self.validator().generation() {
            Some(
                PhysicalAddress {
                    address: offset_address(slot.phys_page, vaddr.page_offset(page_size).0),
                    page: slot.page,
                },
            )
        } else {
            None
        }
    }

    /// No translation is held.
    pub open spec fn is_empty(&self) -> bool {
        forall|dtb: Address, vaddr: Address, page_size: Length| (#[trigger] self.lookup(dtb, vaddr, page_size)) is None
    }

    /// Every translation held is held by `other` too.
    pub open spec fn within(&self, other: Self) -> bool {
        forall|dtb: Address, vaddr: Address, page_size: Length|
            (#[trigger] self.lookup(dtb, vaddr, page_size)) is Some ==> self.lookup(dtb, vaddr, page_size) == other.lookup(
                dtb,
                vaddr,
                page_size,
            )
    }

    /// A cache of `size` slots that holds no translation.
    pub fn new(size: usize, validator: Q) -> (tlb: Self)
        requires
            size > 0,
            validator.inv(),
        ensures
            tlb.wf(),
            tlb.capacity() == size,
            tlb.validator() == validator,
            tlb.is_empty(),
            forall|idx: int| 0 <= idx < size ==> !(#[trigger] tlb.slot(idx)).used,
    {
        let empty = Slot {
            used: false,
            dtb: Address(0),
            virt_page: Address(0),
            phys_page: 0,
            page: Page { page_type: crate::types::PageType(0), page_size: Length(0) },
            token: 0,
        };
        let mut entries: Vec<Slot> = Vec::with_capacity(size);
        let mut i: usize = 0;
        while i < size
            invariant
                i <= size,
                entries.len() == i,
                !empty.used,
                empty.token == 0,
                forall|j: int| 0 <= j < i ==> !(#[trigger] entries[j]).used && entries[j].token == 0,
            decreases size - i,
        {
            entries.push(empty);
            i += 1;
        }
        let tlb = TLBCache { entries, validator };
        proof {
            assert forall|dtb: Address, vaddr: Address, page_size: Length| (#[trigger] tlb.lookup(dtb, vaddr, page_size)) is None by {
                let k = tlb_slot(dtb, vaddr, page_size, tlb.capacity());
                assert(0 <= k < size);
            }
        }
        tlb
    }

    /// The number of slots.
    pub fn slots(&self) -> (n: usize)
        ensures
            n == self.capacity(),
    {
        self.entries.len()
    }

    fn slot_index(&self, dtb: Address, vaddr: Address, page_size: Length) -> (idx: usize)
        requires
            self.wf(),
            page_size.0 > 0,
        ensures
            idx == tlb_slot(dtb, vaddr, page_size, self.capacity()),
            idx < self.capacity(),
    {
        (((vaddr.0 / page_size.0) ^ (dtb.0 / page_size.0)) % (self.entries.len() as u64)) as usize
    }

    /// Lets the validator's time pass. Where its generation advances,
    /// every translation held is dropped; where it stays, all are kept.
    pub fn update_validity(&mut self)
        requires
            old(self).wf(),
        ensures
            final(self).wf(),
            final(self).capacity() == old(self).capacity(),
            old(self).validator().updated(final(self).validator()),
            forall|idx: int| 0 <= idx < old(self).capacity() ==> #[trigger] final(self).slot(idx) == old(self).slot(idx),
            final(self).validator().generation() >= old(self).validator().generation(),
            final(self).validator().generation() > old(self).validator().generation() ==> final(self).is_empty(),
            final(self).validator().generation() == old(self).validator().generation() ==> forall|
                dtb: Address,
                vaddr: Address,
                page_size: Length,
            | #[trigger] final(self).lookup(dtb, vaddr, page_size) == old(self).lookup(dtb, vaddr, page_size),
            final(self).within(*old(self)),
    {
        self.validator.update_validity();
        proof {
            assert forall|dtb: Address, vaddr: Address, page_size: Length|
                (#[trigger] self.lookup(dtb, vaddr, page_size)) is Some implies self.lookup(dtb, vaddr, page_size) == old(
                self,
            ).lookup(dtb, vaddr, page_size) by {
                let k = tlb_slot(dtb, vaddr, page_size, self.capacity());
                assert(0 <= k < self.entries.len());
                assert(old(self).entries[k].token <= old(self).validator.generation());
            }
            if self.validator.generation() > old(self).validator.generation() {
                assert forall|dtb: Address, vaddr: Address, page_size: Length| (#[trigger] self.lookup(dtb, vaddr, page_size)) is None by {
                    let k = tlb_slot(dtb, vaddr, page_size, self.capacity());
                    assert(0 <= k < self.entries.len());
                    assert(old(self).entries[k].token <= old(self).validator.generation());
                }
            }
        }
    }

    /// The translation of `vaddr` in the address space of `dtb`, where the
    /// cache holds it.
    pub fn try_entry(&self, dtb: Address, vaddr: Address, page_size: Length) -> (hit: Option<TLBEntry>)
        requires
            self.wf(),
            page_size.0 > 0,
        ensures
            match hit {
                Some(entry) => entry.dtb == dtb && entry.virt_addr == vaddr && self.lookup(dtb, vaddr, page_size) == Some(
                    entry.phys_addr,
                ),
                None => self.lookup(dtb, vaddr, page_size) is None,
            },
    {
        let idx = self.slot_index(dtb, vaddr, page_size);
        let slot = self.entries[idx];
        let aligned = vaddr.as_page_aligned(page_size);
        if slot.used && slot.dtb.0 == dtb.0 && slot.virt_page.0 == aligned.0 && self.validator.is_valid(slot.token) {
            let offset = vaddr.as_page_offset(page_size);
            Some(
                TLBEntry {
                    dtb,
                    virt_addr: vaddr,
                    phys_addr: PhysicalAddress { address: Address(slot.phys_page.wrapping_add(offset.0)), page: slot.page },
                },
            )
        } else {
            None
        }
    }

    /// Puts the translation of `vaddr` in the address space of `dtb` into
    /// the slot of its page, whatever the slot held. Afterwards every
    /// address of that page is found, at the same distance from `paddr` as
    /// it lies from `vaddr`; an address of another page that maps to the
    /// same slot is not found; all others are found as before.
    pub fn cache_entry(&mut self, dtb: Address, vaddr: Address, paddr: PhysicalAddress, page_size: Length)
        requires
            old(self).wf(),
            page_size.0 > 0,
        ensures
            final(self).wf(),
            final(self).capacity() == old(self).capacity(),
            final(self).validator() == old(self).validator(),
            forall|idx: int|
                0 <= idx < old(self).capacity() ==> #[trigger] final(self).slot(idx) == if idx == tlb_slot(
                    dtb,
                    vaddr,
                    page_size,
                    old(self).capacity(),
                ) {
                    Slot {
                        used: true,
                        dtb,
                        virt_page: vaddr.aligned(page_size),
                        phys_page: page_base(paddr.address.0, vaddr.page_offset(page_size).0),
                        page: paddr.page,
                        token: old(self).validator().generation(),
                    }
                } else {
                    old(self).slot(idx)
                },
            forall|d: Address, v: Address| #[trigger]
                final(self).lookup(d, v, page_size) == if tlb_slot(d, v, page_size, old(self).capacity()) == tlb_slot(
                    dtb,
                    vaddr,
                    page_size,
                    old(self).capacity(),
                ) {
                    if d == dtb && v.aligned(page_size) == vaddr.aligned(page_size) {
                        Some(
                            PhysicalAddress {
                                address: offset_address(
                                    page_base(paddr.address.0, vaddr.page_offset(page_size).0),
                                    v.page_offset(page_size).0,
                                ),
                                page: paddr.page,
                            },
                        )
                    } else {
                        None
                    }
                } else {
                    old(self).lookup(d, v, page_size)
                },
            final(self).lookup(dtb, vaddr, page_size) == Some(paddr),
    {
        let idx = self.slot_index(dtb, vaddr, page_size);
        let aligned = vaddr.as_page_aligned(page_size);
        let offset = vaddr.as_page_offset(page_size);
        let token = self.validator.current_token();
        self.entries[idx] = Slot {
            used: true,
            dtb,
            virt_page: aligned,
            phys_page: paddr.address.0.wrapping_sub(offset.0),
            page: paddr.page,
            token,
        };
        proof {
            assert forall|d: Address, v: Address| #[trigger]
                self.lookup(d, v, page_size) == if tlb_slot(d, v, page_size, old(self).capacity()) == tlb_slot(
                    dtb,
                    vaddr,
                    page_size,
                    old(self).capacity(),
                ) {
                    if d == dtb && v.aligned(page_size) == vaddr.aligned(page_size) {
                        Some(
                            PhysicalAddress {
                                address: offset_address(
                                    page_base(paddr.address.0, vaddr.page_offset(page_size).0),
                                    v.page_offset(page_size).0,
                                ),
                                page: paddr.page,
                            },
                        )
                    } else {
                        None
                    }
                } else {
                    old(self).lookup(d, v, page_size)
                } by {
                let k = tlb_slot(d, v, page_size, old(self).capacity());
                assert(0 <= k < self.entries.len());
            }
        }
    }
}

} // verus!
