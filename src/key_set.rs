//! The sparse integer set that holds a filter's keys: `roaring::RoaringTreemap`.
use roaring::RoaringTreemap;
use vstd::prelude::*;

verus! {

/// `roaring::RoaringTreemap`, a compressed set of `u64`.
#[verifier::external_type_specification]
#[verifier::external_body]
pub struct ExRoaringTreemap(RoaringTreemap);

/// The integers that a treemap holds.
pub uninterp spec fn treemap_keys(t: RoaringTreemap) -> Set<u64>;

/// Relies on `RoaringTreemap::new`: it creates an empty set.
pub assume_specification[ RoaringTreemap::new ]() -> (r: RoaringTreemap)
    ensures
        treemap_keys(r) == Set::<u64>::empty(),
;

/// Relies on `RoaringTreemap::insert`: it adds `value`, and returns `true`
/// if the value was not already present.
pub assume_specification[ RoaringTreemap::insert ](t: &mut RoaringTreemap, value: u64) -> (r: bool)
    ensures
        treemap_keys(*final(t)) == treemap_keys(*old(t)).insert(value),
        r == !treemap_keys(*old(t)).contains(value),
;

/// Relies on `RoaringTreemap::contains`: membership of `value`.
pub assume_specification[ RoaringTreemap::contains ](t: &RoaringTreemap, value: u64) -> (r: bool)
    ensures
        r == treemap_keys(*t).contains(value),
;

/// Relies on `RoaringTreemap::len`: the number of distinct integers in the set,
/// a sum over its parts that stays below `2^64` short of the full set.
pub assume_specification[ RoaringTreemap::len ](t: &RoaringTreemap) -> (r: u64)
    requires
        treemap_keys(*t).finite(),
        treemap_keys(*t).len() <= u64::MAX,
    ensures
        r == treemap_keys(*t).len(),
;

/// Relies on `RoaringTreemap::is_empty`: `true` if the set holds no integer.
pub assume_specification[ RoaringTreemap::is_empty ](t: &RoaringTreemap) -> (r: bool)
    ensures
        r == (treemap_keys(*t) == Set::<u64>::empty()),
;

} // verus!

verus! {

/// A finite set of integers below `m` holds at most `m` of them.
pub proof fn lemma_keys_below(s: Set<u64>, m: u64)
    requires
        s.finite(),
        forall|x: u64| s.contains(x) ==> x < m,
    ensures
        s.len() <= m,
{
    let f = |x: u64| x as int;
    let t = s.map(f);
    vstd::set_lib::lemma_map_size(s, t, f);
    vstd::set_lib::lemma_int_range(0, m as int);
    assert(t.subset_of(vstd::set_lib::set_int_range(0, m as int)));
    vstd::set_lib::lemma_len_subset(t, vstd::set_lib::set_int_range(0, m as int));
}

} // verus!
