//! Postings lists: sets of document ids held in roaring bitmaps.
use roaring::RoaringBitmap;
use vstd::prelude::*;

verus! {

#[verifier::external_type_specification]
#[verifier::external_body]
pub struct ExRoaringBitmap(RoaringBitmap);

/// The set of integers that a roaring bitmap holds.
pub uninterp spec fn bitmap_set(b: RoaringBitmap) -> Set<u32>;

/// Relies on `RoaringBitmap::new`: an empty bitmap.
pub assume_specification[ RoaringBitmap::new ]() -> (r: RoaringBitmap)
    ensures
        bitmap_set(r) == Set::<u32>::empty(),
;

/// Relies on `RoaringBitmap::insert`: adds `value`, and reports whether it was absent.
pub assume_specification[ RoaringBitmap::insert ](b: &mut RoaringBitmap, value: u32) -> (r: bool)
    ensures
        bitmap_set(*final(b)) == bitmap_set(*old(b)).insert(value),
        r == !bitmap_set(*old(b)).contains(value),
;

/// Relies on `RoaringBitmap::len`: the number of integers held.
pub assume_specification[ RoaringBitmap::len ](b: &RoaringBitmap) -> (r: u64)
    ensures
        r as nat == bitmap_set(*b).len(),
;

/// Relies on `Clone for RoaringBitmap`: a bitmap with the same integers.
#[verifier::external_body]
pub(crate) fn copy_bitmap(b: &RoaringBitmap) -> (r: RoaringBitmap)
    ensures
        bitmap_set(r) == bitmap_set(*b),
{
    b.clone()
}

/// Relies on `BitAnd<&RoaringBitmap> for RoaringBitmap`: the intersection.
#[verifier::external_body]
pub(crate) fn intersect(acc: RoaringBitmap, other: &RoaringBitmap) -> (r: RoaringBitmap)
    ensures
        bitmap_set(r) == bitmap_set(acc).intersect(bitmap_set(*other)),
{
    acc & other
}

/// `v` lists the `n` smallest members of the finite set `s` (all of them if it
/// has fewer), in increasing order.
pub open spec fn lowest(s: Set<u32>, n: nat, v: Seq<u32>) -> bool {
    &&& v.len() == if s.len() < n { s.len() } else { n }
    &&& forall|i: int, j: int| 0 <= i < j < v.len() ==> v[i] < v[j]
    &&& forall|i: int| 0 <= i < v.len() ==> s.contains(#[trigger] v[i])
    &&& forall|x: u32| #[trigger]
        s.contains(x) && !v.contains(x) ==> forall|i: int| 0 <= i < v.len() ==> v[i] < x
}

/// Relies on `RoaringBitmap::iter`, which yields the integers held in
/// increasing order: the first `n` of them.
#[verifier::external_body]
pub(crate) fn first_values(b: &RoaringBitmap, n: usize) -> (r: Vec<u32>)
    ensures
        lowest(bitmap_set(*b), n as nat, r@),
{
    b.iter().take(n).collect()
}

} // verus!
