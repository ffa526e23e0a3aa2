//! Compressed sets of word ids, kept in roaring bitmaps.
use vstd::prelude::*;

use roaring::{MultiOps, RoaringBitmap};

verus! {

#[verifier::external_type_specification]
#[verifier::external_body]
pub struct ExRoaringBitmap(RoaringBitmap);

/// The ids held by a bitmap.
pub uninterp spec fn bitmap_ids(b: RoaringBitmap) -> Set<u32>;

/// Relies on `RoaringBitmap::new`: the new bitmap is empty.
pub assume_specification[ RoaringBitmap::new ]() -> (r: RoaringBitmap)
    ensures
        bitmap_ids(r) == Set::<u32>::empty(),
;

/// Relies on `RoaringBitmap::insert`: adds `value` to the set, and returns
/// whether it was absent.
pub assume_specification[ RoaringBitmap::insert ](b: &mut RoaringBitmap, value: u32) -> (r: bool)
    ensures
        bitmap_ids(*final(b)) == bitmap_ids(*old(b)).insert(value),
        r == !bitmap_ids(*old(b)).contains(value),
;

/// Relies on roaring's `MultiOps::intersection` over bitmap references: the
/// ids held by every bitmap of the list; an empty list gives an empty bitmap.
#[verifier::external_body]
pub(crate) fn intersect_all(maps: &Vec<&RoaringBitmap>) -> (r: RoaringBitmap)
    ensures
        forall|x: u32|
            #[trigger] bitmap_ids(r).contains(x) <==> (maps@.len() > 0 && forall|i: int|
                0 <= i < maps@.len() ==> bitmap_ids(*maps@[i]).contains(x)),
{
    maps.iter().copied().intersection()
}

/// Relies on roaring's `SubAssign<&RoaringBitmap>`: removes from `a` the ids
/// held by `b`.
#[verifier::external_body]
pub(crate) fn subtract(a: &mut RoaringBitmap, b: &RoaringBitmap)
    ensures
        bitmap_ids(*final(a)) == bitmap_ids(*old(a)).difference(bitmap_ids(*b)),
{
    *a -= b;
}

/// Relies on `RoaringBitmap::iter`: every id of the bitmap once, in increasing
/// order.
#[verifier::external_body]
pub(crate) fn ids_of(b: &RoaringBitmap) -> (r: Vec<u32>)
    ensures
        r@.to_set() == bitmap_ids(*b),
        r@.no_duplicates(),
        forall|i: int, j: int| 0 <= i < j < r@.len() ==> r@[i] < r@[j],
{
    b.iter().collect()
}

} // verus!
