//! Payloads that travel with the addresses of a batch.
use vstd::prelude::*;
use crate::architecture::Translation;
use crate::error::Error;
use crate::types::{Address, PhysicalAddress};
use crate::vat::keys;

verus! {

/// One result of a batch of translations: what the translation gave, the
/// virtual address it was asked for, and what the caller sent along.
pub type Translated<B> = (Result<PhysicalAddress, Error>, Address, B);

/// The virtual address and the payload of each result.
pub open spec fn items<B>(results: Seq<Translated<B>>) -> Seq<(Address, B)> {
    results.map_values(|o: Translated<B>| (o.1, o.2))
}

/// The addresses of `addrs`, without what comes with them.
pub open spec fn addresses<B>(addrs: Seq<(Address, B)>) -> Seq<Address> {
    Seq::new(addrs.len(), |i: int| addrs[i].0)
}

/// What the translation gave in each of `results`.
pub open spec fn outcomes<B>(results: Seq<Translated<B>>) -> Seq<Result<PhysicalAddress, Error>> {
    Seq::new(results.len(), |i: int| results[i].0)
}

/// The addresses of `addrs`, each tagged with its place in `addrs`.
pub open spec fn tagged<B>(addrs: Seq<(Address, B)>) -> Seq<(Address, usize)> {
    Seq::new(addrs.len(), |i: int| (addrs[i].0, i as usize))
}

/// The results with, in place of each tag, the payload at that place.
pub open spec fn attached<B>(results: Seq<Translation>, payloads: Seq<Option<B>>) -> Seq<Translated<B>> {
    results.map_values(|o: Translation| (o.0, o.1, payloads[o.2 as int]->Some_0))
}

/// Sequences with the same items, in whatever order, still have the same
/// items after a function was applied to each.
pub proof fn lemma_map_multiset<A, C>(first: Seq<A>, second: Seq<A>, f: spec_fn(A) -> C)
    requires
        first.to_multiset() == second.to_multiset(),
    ensures
        first.map_values(f).to_multiset() == second.map_values(f).to_multiset(),
    decreases first.len(),
{
    first.to_multiset_ensures();
    second.to_multiset_ensures();
    first.map_values(f).to_multiset_ensures();
    second.map_values(f).to_multiset_ensures();
    if first.len() == 0 {
        assert(second.len() == 0);
        assert(first.map_values(f) =~= second.map_values(f));
    } else {
        let last = first.last();
        assert(first.contains(last));
        assert(first.to_multiset().count(last) > 0);
        assert(second.to_multiset().count(last) > 0);
        assert(second.contains(last));
        let j = choose|j: int| 0 <= j < second.len() && second[j] == last;
        let rest1 = first.drop_last();
        let rest2 = second.remove(j);
        assert(first.drop_last() =~= first.remove(first.len() - 1));
        lemma_map_multiset(rest1, rest2, f);
        assert(first.map_values(f).to_multiset() =~= rest1.map_values(f).to_multiset().insert(f(last))) by {
            rest1.map_values(f).to_multiset_ensures();
            assert(rest1.map_values(f).push(f(last)) =~= first.map_values(f));
        }
        assert(second.map_values(f).to_multiset() =~= rest2.map_values(f).to_multiset().insert(f(last))) by {
            vstd::seq_lib::to_multiset_insert(rest2.map_values(f), j, f(last));
            assert(rest2.map_values(f).insert(j, f(last)) =~= second.map_values(f));
        }
    }
}

/// Results for addresses that were tagged with their places: every tag is
/// a place, belongs to the address of its result, and occurs once.
pub proof fn lemma_tags_are_places<B>(addrs: Seq<(Address, B)>, results: Seq<Translation>)
    requires
        addrs.len() <= usize::MAX,
        keys(results).to_multiset() == tagged(addrs).to_multiset(),
    ensures
        results.len() == addrs.len(),
        forall|k: int| 0 <= k < results.len() ==> (#[trigger] results[k]).2 < addrs.len() && results[k].1 == addrs[results[k].2 as int].0,
        forall|j: int, k: int| 0 <= j < k < results.len() ==> (#[trigger] results[j]).2 != (#[trigger] results[k]).2,
{
    let places = tagged(addrs);
    crate::vat::lemma_keys_cover(places, results);
    assert forall|k: int| 0 <= k < results.len() implies (#[trigger] results[k]).2 < addrs.len() && results[k].1 == addrs[results[k].2 as int].0 by {
        let key = (results[k].1, results[k].2);
        assert(places.contains(key));
        let i = choose|i: int| 0 <= i < places.len() && places[i] == key;
        assert(places[i] == (addrs[i].0, i as usize));
    }
    assert(places.no_duplicates());
    places.lemma_multiset_has_no_duplicates();
    keys(results).lemma_multiset_has_no_duplicates_conv();
    assert forall|j: int, k: int| 0 <= j < k < results.len() implies (#[trigger] results[j]).2 != (#[trigger] results[k]).2 by {
        if results[j].2 == results[k].2 {
            assert(keys(results)[j] == keys(results)[k]);
        }
    }
}

/// Takes the payloads off a batch: the addresses, each tagged with its
/// place, and the payloads by place.
pub fn detach<B>(addrs: Vec<(Address, B)>) -> (r: (Vec<(Address, usize)>, Vec<Option<B>>))
    ensures
        r.0@ == tagged(addrs@),
        r.1.len() == addrs.len(),
        forall|i: int| 0 <= i < addrs.len() ==> #[trigger] r.1[i] == Some(addrs[i].1),
{
    let mut places: Vec<(Address, usize)> = Vec::new();
    let mut payloads: Vec<Option<B>> = Vec::new();
    let ghost all = addrs@;
    for item in it: addrs.into_iter()
        invariant
            it.seq() == all,
            places.len() == it.index(),
            payloads.len() == it.index(),
            forall|i: int| 0 <= i < it.index() ==> #[trigger] places[i] == (all[i].0, i as usize),
            forall|i: int| 0 <= i < it.index() ==> #[trigger] payloads[i] == Some(all[i].1),
    {
        let (addr, payload) = item;
        let place: usize = places.len();
        places.push((addr, place));
        payloads.push(Some(payload));
    }
    proof {
        assert(places@ =~= tagged(all));
    }
    (places, payloads)
}

/// Puts the payloads back: appends each result to `out` with the payload
/// at the place that its tag names.
pub fn attach<B>(results: Vec<Translation>, payloads: &mut Vec<Option<B>>, out: &mut Vec<Translated<B>>)
    requires
        forall|k: int| 0 <= k < results.len() ==> (#[trigger] results[k]).2 < old(payloads).len(),
        forall|j: int, k: int| 0 <= j < k < results.len() ==> (#[trigger] results[j]).2 != (#[trigger] results[k]).2,
        forall|t: int| 0 <= t < old(payloads).len() ==> (#[trigger] old(payloads)[t]) is Some,
    ensures
        final(out)@ == old(out)@ + attached(results@, old(payloads)@),
        final(payloads).len() == old(payloads).len(),
{
    let n: usize = results.len();
    let ghost before = out@;
    let ghost table = payloads@;
    let mut k: usize = 0;
    while k < n
        invariant
            k <= n,
            n == results.len(),
            payloads.len() == table.len(),
            forall|j: int| 0 <= j < results.len() ==> (#[trigger] results[j]).2 < table.len(),
            forall|i: int, j: int| 0 <= i < j < results.len() ==> (#[trigger] results[i]).2 != (#[trigger] results[j]).2,
            forall|t: int| 0 <= t < table.len() ==> (#[trigger] table[t]) is Some,
            forall|j: int| k <= j < n ==> payloads[(#[trigger] results[j]).2 as int] == table[results[j].2 as int],
            out@ == before + attached(results@.take(k as int), table),
        decreases n - k,
    {
        let found = results[k].0;
        let addr = results[k].1;
        let tag: usize = results[k].2;
        let ghost held = payloads@;
        assert(held[results[k as int].2 as int] is Some);
        match payloads[tag].take() {
            Some(payload) => {
                out.push((found, addr, payload));
            },
            None => {},
        }
        proof {
            assert(results@.take(k + 1) =~= results@.take(k as int).push(results[k as int]));
            assert(attached(results@.take(k + 1), table) =~= attached(results@.take(k as int), table).push(
                (found, addr, table[tag as int]->Some_0),
            ));
            assert(held[results[k as int].2 as int] == table[results[k as int].2 as int]);
        }
        k += 1;
    }
    proof {
        assert(results@.take(n as int) =~= results@);
    }
}

} // verus!
