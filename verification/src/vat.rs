//! Translation of virtual addresses in batches.
use vstd::prelude::*;
use vstd::multiset::Multiset;
use crate::architecture::{Architecture, Translation, agrees};
use crate::error::Error;
use crate::mem::phys_mem::AccessPhysicalMemory;
use crate::payload::{Translated, attach, attached, detach, items, lemma_map_multiset, lemma_tags_are_places, outcomes, tagged};
use crate::types::{Address, PhysicalAddress};

verus! {

/// The virtual address and the tag of each result.
pub open spec fn keys(results: Seq<Translation>) -> Seq<(Address, usize)> {
    items(results)
}

/// Something that turns virtual addresses of the target into physical
/// ones.
pub trait VirtualAddressTranslator: AccessPhysicalMemory + Sized {
    /// What one translation of a batch can do: asked for `addrs` in the
    /// address space of `dtb`, the translator went to `next` and gave
    /// `found`.
    spec fn translate_step(&self, arch: Architecture, dtb: Address, addrs: Seq<(Address, usize)>, next: Self, found: Seq<Translation>) -> bool;

    /// Translates each address of `addrs`, which come with a tag each, in
    /// the address space of `dtb` and appends one result to `out` for each,
    /// with the address and its tag; the results need not come in the
    /// order of `addrs`. The target's
    /// memory is as it was. Where the translator was faithful it still is,
    /// and each result is what a walk of the target's paging structures
    /// gives, or the report of a backend that could not read.
    fn virt_to_phys_tagged(&mut self, arch: Architecture, dtb: Address, addrs: &[(Address, usize)], out: &mut Vec<Translation>)
        requires
            old(self).inv(),
        ensures
            final(self).inv(),
            final(self).view() == old(self).view(),
            final(out).len() == old(out).len() + addrs.len(),
            final(out)@.take(old(out).len() as int) == old(out)@,
            keys(final(out)@.skip(old(out).len() as int)).to_multiset() == addrs@.to_multiset(),
            old(self).faithful(arch) ==> final(self).faithful(arch) && forall|k: int|
                old(out).len() <= k < final(out).len() ==> agrees(
                    (#[trigger] final(out)[k]).0,
                    arch.walk(old(self).view(), dtb, final(out)[k].1),
                    final(out)[k].1,
                ),
            old(self).translate_step(arch, dtb, addrs@, *final(self), final(out)@.skip(old(out).len() as int)),
    ;

    /// Translates each address of `addrs` in the address space of `dtb`
    /// and appends one result to `out` for each, with the address and what
    /// came with it; the results need not come in the order of `addrs`.
    fn virt_to_phys_iter<B>(&mut self, arch: Architecture, dtb: Address, addrs: Vec<(Address, B)>, out: &mut Vec<Translated<B>>)
        requires
            old(self).inv(),
        ensures
            final(self).inv(),
            final(self).view() == old(self).view(),
            final(out).len() == old(out).len() + addrs.len(),
            final(out)@.take(old(out).len() as int) == old(out)@,
            items(final(out)@.skip(old(out).len() as int)).to_multiset() == addrs@.to_multiset(),
            old(self).faithful(arch) ==> final(self).faithful(arch) && forall|k: int|
                old(out).len() <= k < final(out).len() ==> agrees(
                    (#[trigger] final(out)[k]).0,
                    arch.walk(old(self).view(), dtb, final(out)[k].1),
                    final(out)[k].1,
                ),
            exists|found: Seq<Translation>| #[trigger]
                old(self).translate_step(arch, dtb, tagged(addrs@), *final(self), found) && outcomes(
                    final(out)@.skip(old(out).len() as int),
                ) == outcomes(found),
    {
        let ghost all = addrs@;
        let ghost before = out@;
        let (places, mut payloads) = detach(addrs);
        let ghost table = payloads@;
        let mut results: Vec<Translation> = Vec::new();
        self.virt_to_phys_tagged(arch, dtb, places.as_slice(), &mut results);
        proof {
            assert(results@.skip(0) =~= results@);
            lemma_tags_are_places(all, results@);
        }
        let ghost found = results@;
        attach(results, &mut payloads, out);
        proof {
            let new = attached(found, table);
            assert(out@.take(before.len() as int) =~= before);
            assert(out@.skip(before.len() as int) =~= new);
            let f = |key: (Address, usize)| (key.0, table[key.1 as int]->Some_0);
            assert(keys(found).map_values(f) =~= items(new));
            assert(tagged(all).map_values(f) =~= all);
            lemma_map_multiset(keys(found), tagged(all), f);
            assert(outcomes(out@.skip(before.len() as int)) =~= outcomes(found));
            assert(old(self).translate_step(arch, dtb, tagged(all), *self, found));
            if old(self).faithful(arch) {
                assert forall|k: int| before.len() <= k < out.len() implies agrees(
                    (#[trigger] out[k]).0,
                    arch.walk(old(self).view(), dtb, out[k].1),
                    out[k].1,
                ) by {
                    assert(out[k] == new[k - before.len()]);
                    assert(found[k - before.len()].1 == new[k - before.len()].1);
                }
            }
        }
    }

    /// Translates one address.
    fn virt_to_phys(&mut self, arch: Architecture, dtb: Address, vaddr: Address) -> (found: Result<PhysicalAddress, Error>)
        requires
            old(self).inv(),
        ensures
            final(self).inv(),
            final(self).view() == old(self).view(),
            old(self).faithful(arch) ==> final(self).faithful(arch) && agrees(found, arch.walk(old(self).view(), dtb, vaddr), vaddr),
            exists|results: Seq<Translation>| #[trigger]
                old(self).translate_step(arch, dtb, seq![(vaddr, 0usize)], *final(self), results) && results.len() == 1 && results[0].0
                    == found,
    {
        let mut addrs: Vec<(Address, usize)> = Vec::new();
        addrs.push((vaddr, 0));
        let mut out: Vec<Translation> = Vec::new();
        self.virt_to_phys_tagged(arch, dtb, addrs.as_slice(), &mut out);
        proof {
            let got = keys(out@.skip(0));
            assert(out@.skip(0) =~= out@);
            assert(addrs@ =~= seq![(vaddr, 0usize)]);
            assert(old(self).translate_step(arch, dtb, seq![(vaddr, 0usize)], *self, out@));
            assert(got.len() == 1);
            got.to_multiset_ensures();
            addrs@.to_multiset_ensures();
            assert(got.contains(got[0]));
            assert(addrs@.to_multiset().count(got[0]) > 0);
            assert(addrs@.contains(got[0]));
            assert(got[0] == addrs@[0]);
        }
        out[0].0
    }
}

/// An empty sequence has the empty multiset of items.
pub proof fn lemma_empty_to_multiset<A>()
    ensures
        Seq::<A>::empty().to_multiset() == Multiset::<A>::empty(),
{
    let s = Seq::<A>::empty();
    s.to_multiset_ensures();
    assert forall|a: A| s.to_multiset().count(a) == 0 by {
        assert(!s.contains(a));
    }
    assert(s.to_multiset() =~= Multiset::<A>::empty());
}

/// Results for a batch of addresses: each is for one of the addresses with
/// its tag, and each address has one.
pub proof fn lemma_keys_cover(addrs: Seq<(Address, usize)>, results: Seq<Translation>)
    requires
        keys(results).to_multiset() == addrs.to_multiset(),
    ensures
        results.len() == addrs.len(),
        forall|k: int| 0 <= k < results.len() ==> addrs.contains(((#[trigger] results[k]).1, results[k].2)),
        forall|c: int| 0 <= c < addrs.len() ==> keys(results).contains(#[trigger] addrs[c]),
{
    keys(results).to_multiset_ensures();
    addrs.to_multiset_ensures();
    assert forall|k: int| 0 <= k < results.len() implies addrs.contains(((#[trigger] results[k]).1, results[k].2)) by {
        let key = keys(results)[k];
        assert(keys(results).contains(key));
        assert(keys(results).to_multiset().count(key) > 0);
        assert(addrs.to_multiset().count(key) > 0);
    }
    assert forall|c: int| 0 <= c < addrs.len() implies keys(results).contains(#[trigger] addrs[c]) by {
        assert(addrs.contains(addrs[c]));
        assert(addrs.to_multiset().count(addrs[c]) > 0);
        assert(keys(results).to_multiset().count(addrs[c]) > 0);
    }
}

/// The keys of two runs of results, one after the other.
pub proof fn lemma_keys_concat(first: Seq<Translation>, second: Seq<Translation>)
    ensures
        keys(first + second) == keys(first) + keys(second),
{
    assert(keys(first + second) =~= keys(first) + keys(second));
}

/// Runs of results for the same addresses and payloads, in whatever order,
/// each result being `expected` of its address, are the same results.
pub proof fn lemma_same_results<B>(
    first: Seq<Translated<B>>,
    second: Seq<Translated<B>>,
    expected: spec_fn(Address) -> Result<PhysicalAddress, Error>,
)
    requires
        items(first).to_multiset() == items(second).to_multiset(),
        forall|k: int| 0 <= k < first.len() ==> (#[trigger] first[k]).0 == expected(first[k].1),
        forall|k: int| 0 <= k < second.len() ==> (#[trigger] second[k]).0 == expected(second[k].1),
    ensures
        first.to_multiset() == second.to_multiset(),
    decreases first.len(),
{
    items(first).to_multiset_ensures();
    items(second).to_multiset_ensures();
    first.to_multiset_ensures();
    second.to_multiset_ensures();
    if first.len() == 0 {
        assert(second.len() == 0);
        assert(first =~= second);
    } else {
        let last = first.last();
        let key = (last.1, last.2);
        assert(items(first)[first.len() - 1] == key);
        assert(items(first).contains(key));
        assert(items(first).to_multiset().count(key) > 0);
        assert(items(second).to_multiset().count(key) > 0);
        assert(items(second).contains(key));
        let j = choose|j: int| 0 <= j < items(second).len() && items(second)[j] == key;
        assert(second[j] == last);
        let rest1 = first.drop_last();
        let rest2 = second.remove(j);
        assert(items(rest1) =~= items(first).remove(first.len() - 1));
        assert(items(rest2) =~= items(second).remove(j));
        assert(first.drop_last() =~= first.remove(first.len() - 1));
        lemma_same_results(rest1, rest2, expected);
        assert(first.to_multiset() =~= rest1.to_multiset().insert(last)) by {
            rest1.to_multiset_ensures();
            assert(rest1.push(last) =~= first);
        }
        assert(second.to_multiset() =~= rest2.to_multiset().insert(last)) by {
            vstd::seq_lib::to_multiset_insert(rest2, j, last);
            assert(rest2.insert(j, last) =~= second);
        }
    }
}

/// Results that come in the order of the addresses are results for those
/// addresses.
pub proof fn lemma_keys_of_walk(addrs: Seq<(Address, usize)>, before: Seq<Translation>, after: Seq<Translation>)
    requires
        after.len() == before.len() + addrs.len(),
        forall|k: int| before.len() <= k < after.len() ==> (#[trigger] after[k]).1 == addrs[k - before.len()].0 && after[k].2
            == addrs[k - before.len()].1,
    ensures
        keys(after.skip(before.len() as int)) == addrs,
{
    assert(keys(after.skip(before.len() as int)) =~= addrs);
}

} // verus!
