//! The arena that holds the list of addresses which a batch could not
//! find in the translation cache.
use vstd::prelude::*;
use crate::types::Address;

verus! {

/// `bumpalo::Bump`, an arena; nothing of what it holds is visible here.
#[verifier::external_type_specification]
#[verifier::external_body]
pub struct ExBump<const MIN_ALIGN: usize>(bumpalo::Bump<MIN_ALIGN>);

/// `bumpalo::collections::Vec`, a vector that lives in an arena; what it
/// holds is visible here as `scratch_items`.
#[verifier::external_type_specification]
#[verifier::external_body]
#[verifier::reject_recursive_types(T)]
pub struct ExBumpVec<'bump, T>(bumpalo::collections::Vec<'bump, T>);

/// The addresses and tags that a list in the arena holds, first to last.
pub uninterp spec fn scratch_items(list: &bumpalo::collections::Vec<'_, (Address, usize)>) -> Seq<(Address, usize)>;

/// Calls `bumpalo::Bump::new`; nothing is claimed of the arena.
#[verifier::external_body]
pub(crate) fn arena_new() -> (arena: bumpalo::Bump)
{
    bumpalo::Bump::new()
}

/// Calls `bumpalo::Bump::reset`, which frees what was allocated in the
/// arena; nothing is claimed of the arena.
#[verifier::external_body]
pub(crate) fn arena_reset(arena: &mut bumpalo::Bump)
{
    arena.reset()
}

/// Calls `bumpalo::collections::Vec::new_in`: the new list is empty.
#[verifier::external_body]
pub(crate) fn scratch_new<'a>(arena: &'a bumpalo::Bump) -> (list: bumpalo::collections::Vec<'a, (Address, usize)>)
    ensures
        scratch_items(&list) == Seq::<(Address, usize)>::empty(),
{
    bumpalo::collections::Vec::new_in(arena)
}

/// Calls `bumpalo::collections::Vec::push`: the item is appended.
#[verifier::external_body]
pub(crate) fn scratch_push<'a>(list: &mut bumpalo::collections::Vec<'a, (Address, usize)>, item: (Address, usize))
    ensures
        scratch_items(final(list)) == scratch_items(old(list)).push(item),
{
    list.push(item)
}

/// Calls `bumpalo::collections::Vec::is_empty`.
#[verifier::external_body]
pub(crate) fn scratch_is_empty<'a>(list: &bumpalo::collections::Vec<'a, (Address, usize)>) -> (b: bool)
    ensures
        b == (scratch_items(list).len() == 0),
{
    list.is_empty()
}

/// Calls `bumpalo::collections::Vec::as_slice`: the slice holds the items
/// of the list, first to last.
#[verifier::external_body]
pub(crate) fn scratch_as_slice<'a, 'b>(list: &'b bumpalo::collections::Vec<'a, (Address, usize)>) -> (items: &'b [(Address, usize)])
    ensures
        items@ == scratch_items(list),
{
    list.as_slice()
}

} // verus!
