//! The insertion-ordered visited set used as the breadth-first frontier.
use std::hash::BuildHasherDefault;

use indexmap::IndexSet;
use rustc_hash::FxHasher;
use vstd::prelude::*;

verus! {

/// `rustc_hash::FxHasher`, the hasher of the visited set, carried opaquely.
#[verifier::external_type_specification]
#[verifier::external_body]
pub struct ExFxHasher(FxHasher);

/// `std::hash::BuildHasherDefault`, which builds the hasher above; carried
/// opaquely.
#[verifier::external_type_specification]
#[verifier::external_body]
#[verifier::reject_recursive_types(H)]
pub struct ExBuildHasherDefault<H>(BuildHasherDefault<H>);

/// `indexmap::IndexSet`, a hash set that keeps insertion order; what it
/// holds is read through `seen_order`.
#[verifier::external_type_specification]
#[verifier::external_body]
#[verifier::reject_recursive_types(T)]
#[verifier::reject_recursive_types(S)]
pub struct ExIndexSet<T, S>(IndexSet<T, S>);

/// Node identifiers in the order they were first inserted.
pub uninterp spec fn seen_order(s: IndexSet<u32, BuildHasherDefault<FxHasher>>) -> Seq<u32>;

/// Relies on `IndexSet::with_hasher`: the new set is empty.
#[verifier::external_body]
pub(crate) fn seen_new() -> (r: IndexSet<u32, BuildHasherDefault<FxHasher>>)
    ensures
        seen_order(r) == Seq::<u32>::empty(),
{
    IndexSet::with_hasher(BuildHasherDefault::default())
}

/// Relies on `IndexSet::insert`: a value not yet present is appended at the
/// end and `true` is returned; a present one leaves the set (and its order)
/// unchanged and `false` is returned.
#[verifier::external_body]
pub(crate) fn seen_insert(s: &mut IndexSet<u32, BuildHasherDefault<FxHasher>>, v: u32) -> (r: bool)
    ensures
        r == !seen_order(*old(s)).contains(v),
        r ==> seen_order(*final(s)) == seen_order(*old(s)).push(v),
        !r ==> seen_order(*final(s)) == seen_order(*old(s)),
{
    s.insert(v)
}

/// Relies on `IndexSet::get_index`: the value at position `i` in insertion
/// order, or `None` past the end.
#[verifier::external_body]
pub(crate) fn seen_get(s: &IndexSet<u32, BuildHasherDefault<FxHasher>>, i: usize) -> (r: Option<u32>)
    ensures
        i < seen_order(*s).len() ==> r == Some(seen_order(*s)[i as int]),
        i >= seen_order(*s).len() ==> r.is_none(),
{
    s.get_index(i).copied()
}

} // verus!
