//! A translator that keeps the translations it has walked.
use vstd::prelude::*;
use vstd::multiset::Multiset;
use crate::architecture::{Architecture, Translation, agrees};
use crate::cache::tlb_cache::{CacheValidator, Slot, TLBCache, tlb_slot};
use crate::error::Error;
use crate::mem::image::{MemoryImage, lemma_walk_cost, walk_reads};
use crate::mem::phys_mem::{AccessPhysicalMemory, PhysicalData};
use crate::scratch::{arena_new, arena_reset, scratch_as_slice, scratch_is_empty, scratch_items, scratch_new, scratch_push};
use crate::types::{Address, Length, PhysicalAddress, page_base};
use crate::payload::{Translated, addresses, attach, attached, detach, items, lemma_map_multiset, lemma_tags_are_places, outcomes, tagged};
use crate::vat::{VirtualAddressTranslator, keys, lemma_empty_to_multiset, lemma_keys_concat, lemma_same_results};

verus! {

/// A backend together with a cache of the translations that were walked
/// on it. A batch is first looked up in the cache; what is not found there
/// is walked in one pass, and what the walk translates is put into the
/// cache.
pub struct CachedVAT<T: AccessPhysicalMemory, Q: CacheValidator> {
    mem: T,
    tlb: TLBCache<Q>,
    arena: bumpalo::Bump,
}

/// No two addresses of `addrs` that lie in different pages map to the same
/// slot of a translation cache of `capacity` slots.
pub open spec fn collision_free<B>(dtb: Address, addrs: Seq<(Address, B)>, page_size: Length, capacity: nat) -> bool {
    forall|i: int, j: int|
        0 <= i < addrs.len() && 0 <= j < addrs.len() && tlb_slot(dtb, (#[trigger] addrs[i]).0, page_size, capacity)
            == tlb_slot(dtb, (#[trigger] addrs[j]).0, page_size, capacity) ==> addrs[i].0.aligned(page_size)
            == addrs[j].0.aligned(page_size)
}

/// The addresses of `addrs`, in their order, that a cache holds (`want`)
/// or does not hold (not `want`) once its validator has reached
/// `generation`.
pub open spec fn picked<Q: CacheValidator, B>(
    addrs: Seq<(Address, B)>,
    tlb: TLBCache<Q>,
    generation: u64,
    dtb: Address,
    page_size: Length,
    want: bool,
) -> Seq<(Address, B)>
    decreases addrs.len(),
{
    if addrs.len() == 0 {
        Seq::empty()
    } else {
        let rest = picked(addrs.drop_last(), tlb, generation, dtb, page_size, want);
        if (held_after(tlb, generation, dtb, addrs.last().0, page_size) is Some) == want {
            rest.push(addrs.last())
        } else {
            rest
        }
    }
}

/// What a cache holds for an address once its validator has reached
/// `generation`: what it holds now where that is its present generation,
/// and nothing where it is a later one.
pub open spec fn held_after<Q: CacheValidator>(tlb: TLBCache<Q>, generation: u64, dtb: Address, vaddr: Address, page_size: Length) -> Option<
    PhysicalAddress,
> {
    if generation == tlb.validator().generation() {
        tlb.lookup(dtb, vaddr, page_size)
    } else {
        None
    }
}

/// What slot `idx` of a cache of `capacity` slots holds after the
/// translations among `results` were put into the cache in their order,
/// in generation `generation`, where it held `slot` before.
pub open spec fn filled<B>(
    slot: Slot,
    idx: int,
    results: Seq<Translated<B>>,
    dtb: Address,
    page_size: Length,
    capacity: nat,
    generation: u64,
) -> Slot
    decreases results.len(),
{
    if results.len() == 0 {
        slot
    } else {
        let last = results.last();
        match last.0 {
            Ok(found) if tlb_slot(dtb, last.1, page_size, capacity) == idx => Slot {
                used: true,
                dtb,
                virt_page: last.1.aligned(page_size),
                phys_page: page_base(found.address.0, last.1.page_offset(page_size).0),
                page: found.page,
                token: generation,
            },
            _ => filled(slot, idx, results.drop_last(), dtb, page_size, capacity, generation),
        }
    }
}

/// `vaddr` is one of the addresses of `addrs`.
pub open spec fn asked<B>(addrs: Seq<(Address, B)>, vaddr: Address) -> bool {
    exists|i: int| 0 <= i < addrs.len() && (#[trigger] addrs[i]).0 == vaddr
}

/// The addresses of `keys`, each with the payload that `addrs` has at the
/// place that its tag names.
pub open spec fn with_payloads<B>(addrs: Seq<(Address, B)>, keys: Seq<(Address, usize)>) -> Seq<(Address, B)> {
    Seq::new(keys.len(), |i: int| (keys[i].0, addrs[keys[i].1 as int].1))
}

/// What is picked of tagged addresses is what is picked of the addresses
/// with their payloads.
pub proof fn lemma_picked_tagged<Q: CacheValidator, B>(
    addrs: Seq<(Address, B)>,
    upto: int,
    tlb: TLBCache<Q>,
    generation: u64,
    dtb: Address,
    page_size: Length,
    want: bool,
)
    requires
        0 <= upto <= addrs.len() <= usize::MAX,
    ensures
        with_payloads(addrs, picked(tagged(addrs).take(upto), tlb, generation, dtb, page_size, want)) == picked(
            addrs.take(upto),
            tlb,
            generation,
            dtb,
            page_size,
            want,
        ),
    decreases upto,
{
    let some = tagged(addrs).take(upto);
    let same = addrs.take(upto);
    if upto > 0 {
        lemma_picked_tagged(addrs, upto - 1, tlb, generation, dtb, page_size, want);
        assert(some.drop_last() =~= tagged(addrs).take(upto - 1));
        assert(same.drop_last() =~= addrs.take(upto - 1));
        assert(some.last() == (addrs[upto - 1].0, (upto - 1) as usize));
        assert(same.last() == addrs[upto - 1]);
    }
    assert(with_payloads(addrs, picked(some, tlb, generation, dtb, page_size, want)) =~= picked(
        same,
        tlb,
        generation,
        dtb,
        page_size,
        want,
    ));
}

/// What the results put into a slot does not depend on their payloads.
pub proof fn lemma_filled_attached<B>(
    slot: Slot,
    idx: int,
    results: Seq<Translation>,
    table: Seq<Option<B>>,
    dtb: Address,
    page_size: Length,
    capacity: nat,
    generation: u64,
)
    ensures
        filled(slot, idx, attached(results, table), dtb, page_size, capacity, generation) == filled(
            slot,
            idx,
            results,
            dtb,
            page_size,
            capacity,
            generation,
        ),
    decreases results.len(),
{
    if results.len() > 0 {
        assert(attached(results, table).drop_last() =~= attached(results.drop_last(), table));
        lemma_filled_attached(slot, idx, results.drop_last(), table, dtb, page_size, capacity, generation);
    }
}

impl<T: AccessPhysicalMemory, Q: CacheValidator> CachedVAT<T, Q> {
    /// The backend.
    pub closed spec fn backend(&self) -> T {
        self.mem
    }

    /// The translation cache.
    pub closed spec fn tlb(&self) -> TLBCache<Q> {
        self.tlb
    }

    /// Every translation in `tlb` is what a walk of `mem` gives.
    pub open spec fn cache_agrees(tlb: TLBCache<Q>, mem: Seq<u8>, arch: Architecture) -> bool {
        forall|dtb: Address, vaddr: Address| (#[trigger] tlb.lookup(dtb, vaddr, arch.page_size())) matches Some(found)
            ==> arch.walk(mem, dtb, vaddr) == Ok::<PhysicalAddress, Error>(found)
    }

    /// The result is the translation that `tlb` holds for its address.
    pub open spec fn served<B>(tlb: TLBCache<Q>, dtb: Address, result: Translated<B>, page_size: Length) -> bool {
        result.0 is Ok && tlb.lookup(dtb, result.1, page_size) == Some(result.0->Ok_0)
    }

    /// What a batch translation of a `CachedVAT` does beyond what every
    /// translator's does.
    /// The cache keeps its size and its validator goes through one
    /// `update_validity`. The results for the addresses that the cache
    /// holds after that come first, in the order of `addrs`, and are what
    /// the cache holds; the results for the others follow, in the order of
    /// `addrs`, and are what a walk gives or the report of a backend that
    /// could not read: the backend goes through the passes of one walk
    /// for them, as `walked` says. Where the cache holds every address, the
    /// backend is not touched. The translations that the walk gave are put into the
    /// cache in the order of their results. Where `addrs` is free of
    /// collisions, every address that was translated is found in the cache
    /// afterwards.
    pub open spec fn cached<B>(
        pre: Self,
        post: Self,
        arch: Architecture,
        dtb: Address,
        addrs: Seq<(Address, B)>,
        before: Seq<Translated<B>>,
        after: Seq<Translated<B>>,
    ) -> bool {
        let page_size = arch.page_size();
        &&& post.tlb().wf()
        &&& post.tlb().capacity() == pre.tlb().capacity()
        &&& pre.tlb().validator().updated(post.tlb().validator())
        &&& post.tlb().validator().generation() >= pre.tlb().validator().generation()
        &&& forall|k: int| before.len() <= k < after.len() ==> asked(addrs, (#[trigger] after[k]).1)
        &&& {
            let generation = post.tlb().validator().generation();
            let hits = picked(addrs, pre.tlb(), generation, dtb, page_size, true);
            let misses = picked(addrs, pre.tlb(), generation, dtb, page_size, false);
            &&& items(after.skip(before.len() as int)) == hits + misses
            &&& forall|k: int|
                before.len() <= k < before.len() + hits.len() ==> (#[trigger] after[k]).0 is Ok && held_after(
                    pre.tlb(),
                    generation,
                    dtb,
                    after[k].1,
                    page_size,
                ) == Some(after[k].0->Ok_0)
            &&& forall|k: int|
                before.len() + hits.len() <= k < after.len() ==> agrees(
                    (#[trigger] after[k]).0,
                    arch.walk(pre.view(), dtb, after[k].1),
                    after[k].1,
                )
            &&& misses.len() == 0 ==> post.backend() == pre.backend()
            &&& misses.len() > 0 ==> arch.walked(
                pre.backend(),
                dtb,
                addresses(misses),
                post.backend(),
                outcomes(after.skip((before.len() + hits.len()) as int)),
            )
            &&& forall|idx: int|
                0 <= idx < pre.tlb().capacity() ==> #[trigger] post.tlb().slot(idx) == filled(
                    pre.tlb().slot(idx),
                    idx,
                    after.skip((before.len() + hits.len()) as int),
                    dtb,
                    page_size,
                    pre.tlb().capacity(),
                    generation,
                )
        }
        &&& (post.tlb().validator().generation() == pre.tlb().validator().generation() && forall|i: int|
            0 <= i < addrs.len() ==> pre.tlb().lookup(dtb, (#[trigger] addrs[i]).0, page_size) is Some) ==> {
            &&& post.backend() == pre.backend()
            &&& forall|k: int|
                before.len() <= k < after.len() ==> Self::served(pre.tlb(), dtb, #[trigger] after[k], page_size)
        }
        &&& collision_free(dtb, addrs, page_size, pre.tlb().capacity()) ==> forall|k: int|
            before.len() <= k < after.len() && (#[trigger] after[k]).0 is Ok ==> post.tlb().lookup(dtb, after[k].1, page_size) is Some
    }

    /// What every translator's batch translation does, said of two states
    /// of a `CachedVAT`.
    pub open spec fn translated<B>(
        pre: Self,
        post: Self,
        arch: Architecture,
        dtb: Address,
        addrs: Seq<(Address, B)>,
        before: Seq<Translated<B>>,
        after: Seq<Translated<B>>,
    ) -> bool {
        &&& post.inv()
        &&& post.view() == pre.view()
        &&& after.len() == before.len() + addrs.len()
        &&& after.take(before.len() as int) == before
        &&& items(after.skip(before.len() as int)).to_multiset() == addrs.to_multiset()
        &&& pre.faithful(arch) ==> post.faithful(arch) && forall|k: int|
            before.len() <= k < after.len() ==> agrees((#[trigger] after[k]).0, arch.walk(pre.view(), dtb, after[k].1), after[k].1)
    }

    /// A translator on `mem` that starts with the translations of `tlb`.
    pub fn with(mem: T, tlb: TLBCache<Q>) -> (vat: Self)
        requires
            mem.inv(),
            tlb.wf(),
        ensures
            vat.inv(),
            vat.backend() == mem,
            vat.tlb() == tlb,
            tlb.is_empty() ==> forall|arch: Architecture| mem.faithful(arch) ==> #[trigger] vat.faithful(arch),
    {
        CachedVAT { mem, tlb, arena: arena_new() }
    }

    /// Gives the backend back.
    pub fn into_inner(self) -> (mem: T)
        ensures
            mem == self.backend(),
    {
        self.mem
    }

    /// A read-only look at the translation cache.
    pub fn tlb_ref(&self) -> (tlb: &TLBCache<Q>)
        ensures
            *tlb == self.tlb(),
    {
        &self.tlb
    }

    /// A read-only look at the backend.
    pub fn backend_ref(&self) -> (mem: &T)
        ensures
            *mem == self.backend(),
    {
        &self.mem
    }

    /// A faithful translator gives for each address what the walk of the
    /// backend gives: where `raw` is the result of a walk for the address
    /// of one of the results of a batch, and the backend failed neither of
    /// the two, the two are the same.
    pub proof fn lemma_translation_equivalence<B>(
        start: Self,
        end: Self,
        arch: Architecture,
        dtb: Address,
        addrs: Seq<(Address, B)>,
        before: Seq<Translated<B>>,
        after: Seq<Translated<B>>,
        k: int,
        raw: Result<PhysicalAddress, Error>,
    )
        requires
            Self::translated(start, end, arch, dtb, addrs, before, after),
            start.faithful(arch),
            before.len() <= k < after.len(),
            agrees(raw, arch.walk(start.backend().view(), dtb, after[k].1), after[k].1),
            !(raw matches Err(e) && e.kind == crate::error::ErrorKind::PhysicalReadError),
            !(after[k].0 matches Err(e) && e.kind == crate::error::ErrorKind::PhysicalReadError),
        ensures
            after[k].0 == raw,
    {
    }

    /// A batch asked twice, with no advance of the validator in between,
    /// gives the same results both times, in whatever order, and does not
    /// touch the backend the second time. This holds of a translator that
    /// was faithful, where every address was translated the first time and
    /// no two pages of the batch share a slot of the cache.
    pub proof fn lemma_batch_idempotent<B>(
        start: Self,
        middle: Self,
        end: Self,
        arch: Architecture,
        dtb: Address,
        addrs: Seq<(Address, B)>,
        before: Seq<Translated<B>>,
        between: Seq<Translated<B>>,
        after: Seq<Translated<B>>,
    )
        requires
            Self::translated(start, middle, arch, dtb, addrs, before, between),
            Self::cached(start, middle, arch, dtb, addrs, before, between),
            Self::translated(middle, end, arch, dtb, addrs, between, after),
            Self::cached(middle, end, arch, dtb, addrs, between, after),
            start.faithful(arch),
            end.tlb().validator().generation() == middle.tlb().validator().generation(),
            collision_free(dtb, addrs, arch.page_size(), start.tlb().capacity()),
            forall|k: int| before.len() <= k < between.len() ==> (#[trigger] between[k]).0 is Ok,
        ensures
            after.skip(between.len() as int).to_multiset() == between.skip(before.len() as int).to_multiset(),
            end.backend() == middle.backend(),
    {
        let page_size = arch.page_size();
        let first = between.skip(before.len() as int);
        let second = after.skip(between.len() as int);
        assert forall|i: int| 0 <= i < addrs.len() implies middle.tlb().lookup(dtb, (#[trigger] addrs[i]).0, page_size) is Some by {
            items(first).to_multiset_ensures();
            addrs.to_multiset_ensures();
            assert(addrs.contains(addrs[i]));
            assert(addrs.to_multiset().count(addrs[i]) > 0);
            assert(items(first).to_multiset().count(addrs[i]) > 0);
            assert(items(first).contains(addrs[i]));
            let j = choose|j: int| 0 <= j < items(first).len() && items(first)[j] == addrs[i];
            assert(first[j] == between[before.len() + j]);
            assert(between[before.len() + j].0 is Ok);
        }
        let expected = |v: Address| arch.walk(start.view(), dtb, v);
        assert forall|k: int| 0 <= k < first.len() implies (#[trigger] first[k]).0 == expected(first[k].1) by {
            assert(first[k] == between[before.len() + k]);
        }
        assert forall|k: int| 0 <= k < second.len() implies (#[trigger] second[k]).0 == expected(second[k].1) by {
            assert(second[k] == after[between.len() + k]);
        }
        lemma_same_results(second, first, expected);
    }
}

/// Where a cache holds none of `addrs` once its validator has reached
/// `generation`, all of them are picked as not held, and none as held.
pub proof fn lemma_picked_none<Q: CacheValidator, B>(addrs: Seq<(Address, B)>, tlb: TLBCache<Q>, generation: u64, dtb: Address, page_size: Length)
    requires
        forall|i: int| 0 <= i < addrs.len() ==> held_after(tlb, generation, dtb, (#[trigger] addrs[i]).0, page_size) is None,
    ensures
        picked(addrs, tlb, generation, dtb, page_size, false) == addrs,
        picked(addrs, tlb, generation, dtb, page_size, true).len() == 0,
    decreases addrs.len(),
{
    if addrs.len() > 0 {
        let rest = addrs.drop_last();
        assert forall|i: int| 0 <= i < rest.len() implies held_after(tlb, generation, dtb, (#[trigger] rest[i]).0, page_size) is None by {
            assert(rest[i] == addrs[i]);
        }
        lemma_picked_none(rest, tlb, generation, dtb, page_size);
        assert(addrs.last() == addrs[addrs.len() - 1]);
        assert(rest.push(addrs.last()) =~= addrs);
    } else {
        assert(picked(addrs, tlb, generation, dtb, page_size, false) =~= addrs);
    }
}

impl<Q: CacheValidator> CachedVAT<MemoryImage, Q> {
    /// After an advance of the validator a batch costs what it cost at
    /// first. `fresh` held no translation and went to `warm` by a batch;
    /// `stale` went to `renewed` by the same batch, in which its validator
    /// advanced, on an image of the same bytes. Then the image served as
    /// many reads for the second batch as for the first: the reads of one
    /// walk of the whole batch.
    pub proof fn lemma_refill_cost<B>(
        fresh: Self,
        warm: Self,
        stale: Self,
        renewed: Self,
        arch: Architecture,
        dtb: Address,
        addrs: Seq<(Address, B)>,
        first: (Seq<Translated<B>>, Seq<Translated<B>>),
        second: (Seq<Translated<B>>, Seq<Translated<B>>),
    )
        requires
            Self::cached(fresh, warm, arch, dtb, addrs, first.0, first.1),
            fresh.tlb().is_empty(),
            Self::cached(stale, renewed, arch, dtb, addrs, second.0, second.1),
            renewed.tlb().validator().generation() != stale.tlb().validator().generation(),
            stale.backend().bytes() == fresh.backend().bytes(),
            fresh.backend().reads() + 4 <= u64::MAX,
            stale.backend().reads() + 4 <= u64::MAX,
        ensures
            renewed.backend().reads() - stale.backend().reads() == warm.backend().reads() - fresh.backend().reads(),
            addrs.len() > 0 ==> warm.backend().reads() - fresh.backend().reads() == walk_reads(
                arch,
                fresh.backend().bytes(),
                dtb,
                addresses(addrs),
                arch.spec_levels(),
            ),
    {
        let page_size = arch.page_size();
        let g1 = warm.tlb().validator().generation();
        let g2 = renewed.tlb().validator().generation();
        assert forall|i: int| 0 <= i < addrs.len() implies held_after(fresh.tlb(), g1, dtb, (#[trigger] addrs[i]).0, page_size) is None by {
            assert(fresh.tlb().lookup(dtb, addrs[i].0, page_size) is None);
        }
        lemma_picked_none(addrs, fresh.tlb(), g1, dtb, page_size);
        lemma_picked_none(addrs, stale.tlb(), g2, dtb, page_size);
        if addrs.len() > 0 {
            let none1 = picked(addrs, fresh.tlb(), g1, dtb, page_size, true);
            let none2 = picked(addrs, stale.tlb(), g2, dtb, page_size, true);
            lemma_walk_cost(
                arch,
                fresh.backend(),
                dtb,
                addresses(addrs),
                warm.backend(),
                outcomes(first.1.skip((first.0.len() + none1.len()) as int)),
            );
            lemma_walk_cost(
                arch,
                stale.backend(),
                dtb,
                addresses(addrs),
                renewed.backend(),
                outcomes(second.1.skip((second.0.len() + none2.len()) as int)),
            );
        }
    }
}

impl<T: AccessPhysicalMemory, Q: CacheValidator> AccessPhysicalMemory for CachedVAT<T, Q> {
    open spec fn view(&self) -> Seq<u8> {
        self.backend().view()
    }

    open spec fn inv(&self) -> bool {
        self.backend().inv() && self.tlb().wf()
    }

    /// The backend does one read of the batch; the translation cache stays
    /// as it is.
    open spec fn read_step(&self, before: Seq<PhysicalData>, next: Self, after: Seq<PhysicalData>, r: Result<(), Error>) -> bool {
        self.backend().read_step(before, next.backend(), after, r) && next.tlb() == self.tlb()
    }

    /// The backend does one write of the batch; the translation cache stays
    /// as it is.
    open spec fn write_step(&self, batch: Seq<PhysicalData>, next: Self, r: Result<(), Error>) -> bool {
        self.backend().write_step(batch, next.backend(), r) && next.tlb() == self.tlb()
    }

    /// Every translation in the cache is what a walk of the backend's
    /// memory gives, and the backend is faithful itself.
    open spec fn faithful(&self, arch: Architecture) -> bool {
        Self::cache_agrees(self.tlb(), self.view(), arch) && self.backend().faithful(arch)
    }

    /// Hands the batch to the backend and gives what the backend gives.
    fn phys_read_raw_iter(&mut self, batch: &mut Vec<PhysicalData>) -> (r: Result<(), Error>)
        ensures
            final(self).tlb() == old(self).tlb(),
            old(self).backend().read_step(old(batch)@, final(self).backend(), final(batch)@, r),
    {
        self.mem.phys_read_raw_iter(batch)
    }

    /// Hands the batch to the backend and gives what the backend gives.
    /// The translation cache is not told: where the batch changes paging
    /// structures, translations held from before may no longer be what a
    /// walk gives.
    fn phys_write_raw_iter(&mut self, batch: &Vec<PhysicalData>) -> (r: Result<(), Error>)
        ensures
            final(self).tlb() == old(self).tlb(),
            old(self).backend().write_step(batch@, final(self).backend(), r),
    {
        self.mem.phys_write_raw_iter(batch)
    }
}

impl<T: AccessPhysicalMemory, Q: CacheValidator> VirtualAddressTranslator for CachedVAT<T, Q> {
    /// What `cached` says, of results that were appended to any others.
    open spec fn translate_step(&self, arch: Architecture, dtb: Address, addrs: Seq<(Address, usize)>, next: Self, found: Seq<Translation>) -> bool {
        exists|before: Seq<Translation>, after: Seq<Translation>| #[trigger]
            Self::cached(*self, next, arch, dtb, addrs, before, after) && after.skip(before.len() as int) == found
    }

    /// Translates each address of `addrs`, first from the cache and the
    /// rest in one walk, and appends the results to `out` with their
    /// payloads: what `cached` says.
    fn virt_to_phys_iter<B>(&mut self, arch: Architecture, dtb: Address, addrs: Vec<(Address, B)>, out: &mut Vec<Translated<B>>)
        ensures
            Self::cached(*old(self), *final(self), arch, dtb, addrs@, old(out)@, final(out)@),
    {
        let ghost all = addrs@;
        let ghost before = out@;
        let (places, mut payloads) = detach(addrs);
        let ghost table = payloads@;
        let mut results: Vec<Translation> = Vec::new();
        self.virt_to_phys_tagged(arch, dtb, places.as_slice(), &mut results);
        let ghost found = results@;
        proof {
            assert(found.skip(0) =~= found);
            lemma_tags_are_places(all, found);
        }
        attach(results, &mut payloads, out);
        proof {
            let new = attached(found, table);
            let page_size = arch.page_size();
            let pre = *old(self);
            let post = *self;
            let generation = post.tlb().validator().generation();
            let empty = Seq::<Translation>::empty();
            assert(Self::cached(pre, post, arch, dtb, tagged(all), empty, found));
            assert(out@.take(before.len() as int) =~= before);
            assert(out@.skip(before.len() as int) =~= new);
            let f = |key: (Address, usize)| (key.0, table[key.1 as int]->Some_0);
            assert(keys(found).map_values(f) =~= items(new));
            assert(tagged(all).map_values(f) =~= all);
            lemma_map_multiset(keys(found), tagged(all), f);
            if old(self).faithful(arch) {
                assert forall|k: int| before.len() <= k < out.len() implies agrees(
                    (#[trigger] out[k]).0,
                    arch.walk(old(self).view(), dtb, out[k].1),
                    out[k].1,
                ) by {
                    assert(out[k] == new[k - before.len()]);
                    assert(found[k - before.len()].1 == new[k - before.len()].1);
                }
            }
            let hits_there = picked(tagged(all), pre.tlb(), generation, dtb, page_size, true);
            let misses_there = picked(tagged(all), pre.tlb(), generation, dtb, page_size, false);
            let hits = picked(all, pre.tlb(), generation, dtb, page_size, true);
            let misses = picked(all, pre.tlb(), generation, dtb, page_size, false);
            lemma_picked_tagged(all, all.len() as int, pre.tlb(), generation, dtb, page_size, true);
            lemma_picked_tagged(all, all.len() as int, pre.tlb(), generation, dtb, page_size, false);
            assert(tagged(all).take(all.len() as int) =~= tagged(all));
            assert(all.take(all.len() as int) =~= all);
            assert(with_payloads(all, hits_there) == hits);
            assert(with_payloads(all, misses_there) == misses);
            assert(keys(found) == hits_there + misses_there);
            assert(items(new) =~= with_payloads(all, keys(found)));
            assert(with_payloads(all, hits_there + misses_there) =~= with_payloads(all, hits_there) + with_payloads(all, misses_there));
            assert(items(out@.skip(before.len() as int)) == hits + misses);
            assert(hits.len() == hits_there.len());
            assert(misses.len() == misses_there.len());
            assert(addresses(misses) =~= addresses(misses_there));
            assert(outcomes(out@.skip((before.len() + hits.len()) as int)) =~= outcomes(found.skip((empty.len() + hits_there.len()) as int)))
                by {
                assert forall|i: int| 0 <= i < misses.len() implies (#[trigger] out@.skip((before.len() + hits.len()) as int)[i]).0
                    == found.skip((empty.len() + hits_there.len()) as int)[i].0 by {
                    assert(out[before.len() + hits.len() + i] == new[hits.len() + i]);
                }
            }
            assert(outcomes(out@.skip(before.len() as int)) =~= outcomes(found));
            assert forall|k: int| before.len() <= k < out.len() implies asked(all, (#[trigger] out[k]).1) by {
                let j = k - before.len();
                assert(out[k] == new[j]);
                assert(asked(tagged(all), found[j].1));
                let i = choose|i: int| 0 <= i < tagged(all).len() && (#[trigger] tagged(all)[i]).0 == found[j].1;
                assert(all[i].0 == found[j].1);
            }
            assert forall|k: int| before.len() <= k < before.len() + hits.len() implies (#[trigger] out[k]).0 is Ok && held_after(
                pre.tlb(),
                generation,
                dtb,
                out[k].1,
                page_size,
            ) == Some(out[k].0->Ok_0) by {
                let j = k - before.len();
                assert(out[k] == new[j]);
                assert(found[empty.len() + j].0 is Ok);
            }
            assert forall|k: int| before.len() + hits.len() <= k < out.len() implies agrees(
                (#[trigger] out[k]).0,
                arch.walk(pre.view(), dtb, out[k].1),
                out[k].1,
            ) by {
                let j = k - before.len();
                assert(out[k] == new[j]);
                assert(agrees(found[empty.len() + j].0, arch.walk(pre.view(), dtb, found[j].1), found[j].1));
            }
            assert forall|idx: int| 0 <= idx < pre.tlb().capacity() implies #[trigger] post.tlb().slot(idx) == filled(
                pre.tlb().slot(idx),
                idx,
                out@.skip((before.len() + hits.len()) as int),
                dtb,
                page_size,
                pre.tlb().capacity(),
                generation,
            ) by {
                let rest = found.skip((empty.len() + hits_there.len()) as int);
                assert(out@.skip((before.len() + hits.len()) as int) =~= attached(rest, table));
                lemma_filled_attached(pre.tlb().slot(idx), idx, rest, table, dtb, page_size, pre.tlb().capacity(), generation);
            }
            if generation == pre.tlb().validator().generation() && forall|i: int|
                0 <= i < all.len() ==> pre.tlb().lookup(dtb, (#[trigger] all[i]).0, page_size) is Some {
                assert forall|i: int| 0 <= i < tagged(all).len() implies pre.tlb().lookup(dtb, (#[trigger] tagged(all)[i]).0, page_size) is Some by {
                    assert(tagged(all)[i].0 == all[i].0);
                }
                assert forall|k: int| before.len() <= k < out.len() implies Self::served(pre.tlb(), dtb, #[trigger] out[k], page_size) by {
                    let j = k - before.len();
                    assert(out[k] == new[j]);
                    assert(Self::served(pre.tlb(), dtb, found[empty.len() + j], page_size));
                }
            }
            if collision_free(dtb, all, page_size, pre.tlb().capacity()) {
                assert forall|i: int, j: int|
                    0 <= i < tagged(all).len() && 0 <= j < tagged(all).len() && tlb_slot(
                        dtb,
                        (#[trigger] tagged(all)[i]).0,
                        page_size,
                        pre.tlb().capacity(),
                    ) == tlb_slot(dtb, (#[trigger] tagged(all)[j]).0, page_size, pre.tlb().capacity()) implies tagged(all)[i].0.aligned(
                    page_size,
                ) == tagged(all)[j].0.aligned(page_size) by {
                    assert(tagged(all)[i].0 == all[i].0);
                    assert(tagged(all)[j].0 == all[j].0);
                }
                assert forall|k: int| before.len() <= k < out.len() && (#[trigger] out[k]).0 is Ok implies post.tlb().lookup(
                    dtb,
                    out[k].1,
                    page_size,
                ) is Some by {
                    let j = k - before.len();
                    assert(out[k] == new[j]);
                    assert(found[empty.len() + j].0 is Ok);
                }
            }
        }
    }

    fn virt_to_phys_tagged(&mut self, arch: Architecture, dtb: Address, addrs: &[(Address, usize)], out: &mut Vec<Translation>)
        ensures
            Self::cached(*old(self), *final(self), arch, dtb, addrs@, old(out)@, final(out)@),
    {
        let ghost image = self.mem.view();
        let ghost before = out@;
        let ghost was_faithful = self.faithful(arch);
        self.tlb.update_validity();
        arena_reset(&mut self.arena);
        let page_size = arch.page_size();
        let ghost held = self.tlb;
        let ghost generation = held.validator().generation();
        let ghost first = old(self).tlb;
        proof {
            assert forall|v: Address| #[trigger] held.lookup(dtb, v, page_size) == held_after(first, generation, dtb, v, page_size) by {
                if generation != first.validator().generation() {
                    assert(held.is_empty());
                }
            }
        }
        let base: usize = out.len();
        let n: usize = addrs.len();
        let mut misses = scratch_new(&self.arena);
        let mut i: usize = 0;
        proof {
            lemma_empty_to_multiset::<(Address, usize)>();
            assert(keys(out@.skip(base as int)) =~= Seq::<(Address, usize)>::empty());
            assert(addrs@.take(0) =~= Seq::<(Address, usize)>::empty());
            assert(Multiset::<(Address, usize)>::empty().add(Multiset::<(Address, usize)>::empty()) =~= Multiset::<
                (Address, usize),
            >::empty());
            assert(out@.take(base as int) =~= before);
        }
        while i < n
            invariant
                i <= n,
                n == addrs.len(),
                page_size == arch.page_size(),
                self.tlb == held,
                self.tlb.wf(),
                self.mem == old(self).mem,
                base == before.len(),
                base <= out.len(),
                out.len() + scratch_items(&misses).len() == base + i,
                out@.take(base as int) == before,
                keys(out@.skip(base as int)).to_multiset().add(scratch_items(&misses).to_multiset()) == addrs@.take(
                    i as int,
                ).to_multiset(),
                generation == held.validator().generation(),
                forall|v: Address| #[trigger] held.lookup(dtb, v, page_size) == held_after(first, generation, dtb, v, page_size),
                keys(out@.skip(base as int)) == picked(addrs@.take(i as int), first, generation, dtb, page_size, true),
                scratch_items(&misses) == picked(addrs@.take(i as int), first, generation, dtb, page_size, false),
                forall|k: int| base <= k < out.len() ==> asked(addrs@, (#[trigger] out[k]).1) && Self::served(held, dtb, out[k], page_size),
                forall|j: int| 0 <= j < scratch_items(&misses).len() ==> asked(addrs@, (#[trigger] scratch_items(&misses)[j]).0),
                scratch_items(&misses).len() > 0 ==> exists|j: int| 0 <= j < addrs.len() && held.lookup(dtb, (#[trigger] addrs[j]).0, page_size) is None,
            decreases n - i,
        {
            let ghost prev = out@;
            let ghost missed = scratch_items(&misses);
            proof {
                assert(addrs@.take(i + 1) =~= addrs@.take(i as int).push(addrs[i as int]));
                assert(addrs@.take(i + 1).drop_last() =~= addrs@.take(i as int));
                assert(addrs@.take(i + 1).last() == addrs[i as int]);
                assert(held.lookup(dtb, addrs[i as int].0, page_size) == held_after(first, generation, dtb, addrs[i as int].0, page_size));
                addrs@.take(i as int).to_multiset_ensures();
                keys(prev.skip(base as int)).to_multiset_ensures();
                missed.to_multiset_ensures();
            }
            match self.tlb.try_entry(dtb, addrs[i].0, page_size) {
                Some(entry) => {
                    out.push((Ok(entry.phys_addr), addrs[i].0, addrs[i].1));
                    proof {
                        assert(out@.take(base as int) =~= prev.take(base as int));
                        assert(keys(out@.skip(base as int)) =~= keys(prev.skip(base as int)).push(addrs[i as int]));
                        assert(keys(prev.skip(base as int)).to_multiset().insert(addrs[i as int]).add(missed.to_multiset())
                            =~= keys(prev.skip(base as int)).to_multiset().add(missed.to_multiset()).insert(addrs[i as int]));
                        assert forall|k: int| base <= k < out.len() implies asked(addrs@, (#[trigger] out[k]).1) && Self::served(
                            held,
                            dtb,
                            out[k],
                            page_size,
                        ) by {
                            if k < prev.len() {
                                assert(out[k] == prev[k]);
                            }
                        }
                    }
                },
                None => {
                    scratch_push(&mut misses, addrs[i]);
                    proof {
                        assert(keys(prev.skip(base as int)).to_multiset().add(missed.to_multiset().insert(addrs[i as int]))
                            =~= keys(prev.skip(base as int)).to_multiset().add(missed.to_multiset()).insert(addrs[i as int]));
                    }
                },
            }
            i += 1;
        }
        proof {
            assert(addrs@.take(n as int) =~= addrs@);
        }
        if !scratch_is_empty(&misses) {
            let ghost hits = out@;
            let ghost missed = scratch_items(&misses);
            let start: usize = out.len();
            proof {
                assert(keys(hits.skip(base as int)).len() == hits.len() - base);
            }
            arch.virt_to_phys_tagged(&mut self.mem, dtb, scratch_as_slice(&misses), out);
            let ghost there = self.mem;
            let ghost done = out@;
            proof {
                let walked = out@.skip(start as int);
                assert(out@ =~= hits + walked) by {
                    assert(out@.take(start as int) == hits);
                }
                assert(out.len() == start + missed.len());
                assert(hits.len() == start);
                assert(walked.len() == missed.len());
                assert forall|j: int| 0 <= j < out.len() - base implies out@.skip(base as int)[j] == (hits.skip(base as int)
                    + walked)[j] by {
                    if base + j < start {
                        assert(out@[base + j] == out@.take(start as int)[base + j]);
                    }
                }
                assert(out@.skip(base as int) =~= hits.skip(base as int) + walked);
                lemma_keys_concat(hits.skip(base as int), walked);
                assert(keys(walked) =~= missed);
                vstd::seq_lib::lemma_multiset_commutative(keys(hits.skip(base as int)), missed);
                assert(out@.take(base as int) =~= hits.take(base as int));
            }
            let total: usize = out.len();
            let mut k: usize = start;
            proof {
                assert(out@.subrange(start as int, start as int) =~= Seq::<Translation>::empty());
            }
            while k < total
                invariant
                    start <= k <= total,
                    total == out.len(),
                    base <= start,
                    base == before.len(),
                    page_size == arch.page_size(),
                    self.tlb.wf(),
                    self.tlb.capacity() == held.capacity(),
                    self.tlb.validator() == held.validator(),
                    out@ == hits + out@.skip(start as int),
                    out@ == done,
                    self.mem == there,
                    forall|idx: int|
                        0 <= idx < held.capacity() ==> #[trigger] self.tlb.slot(idx) == filled(
                            held.slot(idx),
                            idx,
                            out@.subrange(start as int, k as int),
                            dtb,
                            page_size,
                            held.capacity(),
                            generation,
                        ),
                    generation == held.validator().generation(),
                    self.mem.inv(),
                    self.mem.view() == image,
                    old(self).mem.faithful(arch) ==> self.mem.faithful(arch),
                    forall|j: int| base <= j < total ==> asked(addrs@, (#[trigger] out[j]).1),
                    forall|j: int| start <= j < total ==> agrees((#[trigger] out[j]).0, arch.walk(image, dtb, out[j].1), out[j].1),
                    Self::cache_agrees(held, image, arch) ==> Self::cache_agrees(self.tlb, image, arch),
                    collision_free(dtb, addrs@, page_size, held.capacity()) ==> forall|j: int|
                        base <= j < k && (#[trigger] out[j]).0 is Ok ==> self.tlb.lookup(dtb, out[j].1, page_size) is Some,
                decreases total - k,
            {
                let ghost tlb_before = self.tlb;
                let vaddr = out[k].1;
                proof {
                    assert(out@.subrange(start as int, k + 1).drop_last() =~= out@.subrange(start as int, k as int));
                    assert(out@.subrange(start as int, k + 1).last() == out[k as int]);
                }
                match out[k].0 {
                    Ok(paddr) => {
                        self.tlb.cache_entry(dtb, vaddr, paddr, page_size);
                        proof {
                            if Self::cache_agrees(held, image, arch) {
                                assert forall|d: Address, v: Address| (#[trigger] self.tlb.lookup(d, v, page_size)) is Some implies arch.walk(
                                    image,
                                    d,
                                    v,
                                ) == Ok::<PhysicalAddress, Error>(self.tlb.lookup(d, v, page_size)->Some_0) by {
                                    if tlb_slot(d, v, page_size, held.capacity()) == tlb_slot(dtb, vaddr, page_size, held.capacity()) {
                                        arch.lemma_walk_same_page(image, dtb, vaddr, v);
                                        assert(agrees(out[k as int].0, arch.walk(image, dtb, vaddr), vaddr));
                                    } else {
                                        assert(tlb_before.lookup(d, v, page_size) == self.tlb.lookup(d, v, page_size));
                                    }
                                }
                            }
                            if collision_free(dtb, addrs@, page_size, held.capacity()) {
                                assert forall|j: int| base <= j < k + 1 && (#[trigger] out[j]).0 is Ok implies self.tlb.lookup(
                                    dtb,
                                    out[j].1,
                                    page_size,
                                ) is Some by {
                                    assert(asked(addrs@, out[j].1));
                                    assert(asked(addrs@, out[k as int].1));
                                    if j < k {
                                        assert(tlb_before.lookup(dtb, out[j].1, page_size) is Some);
                                    }
                                }
                            }
                        }
                    },
                    Err(_) => {},
                }
                k += 1;
            }
            proof {
                assert(out@.subrange(start as int, total as int) =~= out@.skip(start as int));
                assert(start == base + keys(hits.skip(base as int)).len());
            }
        } else {
            proof {
                lemma_empty_to_multiset::<(Address, usize)>();
                assert(keys(out@.skip(base as int)).len() == out.len() - base);
                assert(keys(out@.skip(base as int)) + Seq::<(Address, usize)>::empty() =~= keys(out@.skip(base as int)));
                assert(out@.skip(out.len() as int) =~= Seq::<Translation>::empty());
                assert(scratch_items(&misses) =~= Seq::<(Address, usize)>::empty());
                assert(keys(out@.skip(base as int)).to_multiset().add(Multiset::<(Address, usize)>::empty()) =~= keys(
                    out@.skip(base as int),
                ).to_multiset());
            }
        }
        proof {
            assert(Self::cached(*old(self), *self, arch, dtb, addrs@, before, out@));
        }
    }
}

} // verus!
