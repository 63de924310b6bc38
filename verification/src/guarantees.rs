//! What follows from the contracts of the search and of the field: that the results
//! are unique, that they agree with a plain scan over all pixels, and how the grey
//! values lie around the middle value.

use crate::functions::needed_of;
use crate::functions::tag_has_black;
use crate::functions::tag_has_white;
use crate::mipmap::Mipmap;
use crate::mipmap::UniPoint;
use crate::search_model::dst_sqr;
use crate::sdf_algorithm::field_level;
use crate::sdf_algorithm::field_outcome;
use crate::search_model::has_both_classes;
use crate::search_model::is_nearest_dst_sqr;
use crate::sdf_algorithm::is_quantized;
use crate::sdf_algorithm::is_quantized_byte;
use crate::sdf_algorithm::is_sample_at;
use crate::search_model::is_target;
use crate::search_model::lemma_cell_extent;
use crate::search_model::lemma_index_in_grid;
use crate::search_model::lemma_no_target_below;
use crate::search_model::lemma_target_below;
use crate::search_model::lemma_top_covers;
use crate::search_model::pixel_center;
use crate::search_model::sample_point;
use crate::search_model::tag_at_point;
use crate::sdf_algorithm::SdfError;
use crate::sdf_algorithm::SdfValue;
use vstd::arithmetic::power2::lemma2_to64;
use vstd::arithmetic::power2::lemma_pow2_pos;
use vstd::prelude::*;

verus! {

/// There is only one least squared distance to the pixels of a class.
pub proof fn lemma_nearest_unique(mm: Mipmap, needed: u8, p: UniPoint, d1: int, d2: int)
    requires
        is_nearest_dst_sqr(mm, needed, p, d1),
        is_nearest_dst_sqr(mm, needed, p, d2),
    ensures
        d1 == d2,
{
}

/// A pyramid over an image without a pixel of the classes in `needed` has no such
/// class in the tag at its top.
pub proof fn lemma_class_absent_at_top(mm: Mipmap, needed: u8)
    requires
        mm.wf(),
        forall|cx: int, cy: int|
            0 <= cx < mm.side(0) && 0 <= cy < mm.side(0) ==> #[trigger] mm.tag(0, cx, cy) & needed == 0,
    ensures
        mm.tag(mm.top(), 0, 0) & needed == 0,
{
    lemma2_to64();
    if mm.tag(mm.top(), 0, 0) & needed != 0 {
        let t = lemma_target_below(mm, needed, mm.top() as u8, 0, 0);
        assert(is_target(mm, needed, t.0, t.1));
    }
}

/// A pyramid over an image with a pixel of a class in `needed` has such a class in
/// the tag at its top.
pub proof fn lemma_class_present_at_top(mm: Mipmap, needed: u8, cx: int, cy: int)
    requires
        mm.wf(),
        is_target(mm, needed, cx, cy),
    ensures
        mm.tag(mm.top(), 0, 0) & needed != 0,
{
    lemma2_to64();
    lemma_top_covers(mm, cx, cy);
    if mm.tag(mm.top(), 0, 0) & needed == 0 {
        lemma_no_target_below(mm, needed, mm.top() as u8, 0, 0, cx, cy);
    }
}

/// The field of an image of one class is unbounded in every cell, whatever side is
/// asked for: above zero for a white image, below zero for a black one.
pub proof fn lemma_one_class_field(mm: Mipmap, size: u32, black: bool, r: Result<Vec<SdfValue>, SdfError>)
    requires
        mm.wf(),
        forall|cx: int, cy: int|
            0 <= cx < mm.side(0) && 0 <= cy < mm.side(0) ==> tag_has_black(#[trigger] mm.tag(0, cx, cy))
                == black && tag_has_white(mm.tag(0, cx, cy)) == !black,
        field_outcome(mm, size, r),
    ensures
        r matches Ok(v) && v@.len() == size * size && forall|i: int|
            0 <= i < size * size ==> #[trigger] v@[i] == (SdfValue::Unbounded { negative: black }),
{
    lemma_pow2_pos(mm.top() as nat);
    lemma_cell_extent(mm, 0, 0);
    assert(tag_has_black(mm.tag(0, 0, 0)) == black);
    if black {
        lemma_class_absent_at_top(mm, 128u8);
        assert(is_target(mm, 64u8, 0, 0));
        lemma_class_present_at_top(mm, 64u8, 0, 0);
    } else {
        lemma_class_absent_at_top(mm, 64u8);
        assert(is_target(mm, 128u8, 0, 0));
        lemma_class_present_at_top(mm, 128u8, 0, 0);
    }
}

/// A pyramid and a side allow only one outcome: two runs, with whatever numbers of
/// workers, fail alike or give the same field.
pub proof fn lemma_field_unique(
    mm: Mipmap,
    size: u32,
    r1: Result<Vec<SdfValue>, SdfError>,
    r2: Result<Vec<SdfValue>, SdfError>,
)
    requires
        field_outcome(mm, size, r1),
        field_outcome(mm, size, r2),
    ensures
        r1 is Err ==> r2 == r1,
        r1 matches Ok(v1) ==> r2 matches Ok(v2) && v1@ == v2@,
{
    if r1 is Ok {
        let v1 = r1->Ok_0;
        let v2 = r2->Ok_0;
        let level = field_level(mm, size);
        assert forall|i: int| 0 <= i < v1@.len() implies v1@[i] == v2@[i] by {
            if has_both_classes(mm) {
                assert(is_sample_at(mm, size, level, i, v1@[i]));
                assert(is_sample_at(mm, size, level, i, v2@[i]));
            }
        }
        assert(v1@ =~= v2@);
    }
}

/// The least squared distance from `p` to the pixels of a class in `needed` among
/// the first `n` pixels of the image in row-major order, found by looking at one
/// pixel after the other; `None` where there is none among them.
pub open spec fn scan_min(mm: Mipmap, needed: u8, p: UniPoint, n: nat) -> Option<int>
    decreases n,
{
    if n == 0 {
        None
    } else {
        let rest = scan_min(mm, needed, p, (n - 1) as nat);
        let cx = (n - 1) % mm.side(0);
        let cy = (n - 1) / mm.side(0);
        let d = dst_sqr(p, pixel_center(cx, cy));
        if mm.tag(0, cx, cy) & needed == 0 {
            rest
        } else if rest.is_some() && rest.unwrap() <= d {
            rest
        } else {
            Some(d)
        }
    }
}

/// The scan finds the least squared distance among the pixels it has looked at.
pub proof fn lemma_scan_min(mm: Mipmap, needed: u8, p: UniPoint, n: nat)
    requires
        mm.wf(),
        n <= mm.side(0) * mm.side(0),
    ensures
        forall|i: int|
            0 <= i < n && #[trigger] is_target(mm, needed, i % mm.side(0), i / mm.side(0)) ==> scan_min(
                mm,
                needed,
                p,
                n,
            ).is_some() && scan_min(mm, needed, p, n).unwrap() <= dst_sqr(
                p,
                pixel_center(i % mm.side(0), i / mm.side(0)),
            ),
        scan_min(mm, needed, p, n).is_some() ==> exists|i: int|
            0 <= i < n && #[trigger] is_target(mm, needed, i % mm.side(0), i / mm.side(0)) && scan_min(
                mm,
                needed,
                p,
                n,
            ).unwrap() == dst_sqr(p, pixel_center(i % mm.side(0), i / mm.side(0))),
    decreases n,
{
    if n > 0 {
        let side = mm.side(0);
        lemma_pow2_pos(mm.top() as nat);
    lemma_cell_extent(mm, 0, 0);
        lemma_scan_min(mm, needed, p, (n - 1) as nat);
        lemma_index_in_grid(n - 1, side);
        let rest = scan_min(mm, needed, p, (n - 1) as nat);
        let now = scan_min(mm, needed, p, n);
        let last = n - 1;
        if mm.tag(0, last % side, last / side) & needed != 0 {
            assert(is_target(mm, needed, last % side, last / side));
        }
        if now.is_some() {
            if now == rest {
                let i = choose|i: int|
                    0 <= i < n - 1 && #[trigger] is_target(mm, needed, i % side, i / side)
                        && rest.unwrap() == dst_sqr(p, pixel_center(i % side, i / side));
                assert(0 <= i < n && is_target(mm, needed, i % side, i / side));
            } else {
                assert(0 <= last < n && is_target(mm, needed, last % side, last / side));
            }
        }
    }
}

/// The distance that the search returns is the one that a scan over all pixels of
/// the image finds.
pub proof fn lemma_search_equals_scan(mm: Mipmap, needed: u8, p: UniPoint, d: int)
    requires
        mm.wf(),
        is_nearest_dst_sqr(mm, needed, p, d),
    ensures
        scan_min(mm, needed, p, (mm.side(0) * mm.side(0)) as nat) == Some(d),
{
    let side = mm.side(0);
    lemma_pow2_pos(mm.top() as nat);
    lemma_cell_extent(mm, 0, 0);
    assert(0 <= side * side) by (nonlinear_arith)
        requires
            0 <= side,
    ;
    let n = (side * side) as nat;
    lemma_scan_min(mm, needed, p, n);
    let (tx, ty) = choose|tx: int, ty: int| #[trigger]
        is_target(mm, needed, tx, ty) && d == dst_sqr(p, pixel_center(tx, ty));
    let i = ty * side + tx;
    assert(0 <= i < side * side && i % side == tx && i / side == ty) by (nonlinear_arith)
        requires
            i == ty * side + tx,
            0 <= tx < side,
            0 <= ty < side,
    ;
    assert(is_target(mm, needed, i % side, i / side));
    let m = scan_min(mm, needed, p, n).unwrap();
    let j = choose|j: int|
        0 <= j < n && #[trigger] is_target(mm, needed, j % side, j / side) && m == dst_sqr(
            p,
            pixel_center(j % side, j / side),
        );
    assert(is_target(mm, needed, j % side, j / side));
}

/// In the field of an image of both classes, every cell holds the distance that a
/// scan over all pixels of the image finds for it.
pub proof fn lemma_field_equals_scan(mm: Mipmap, size: u32, r: Result<Vec<SdfValue>, SdfError>, i: int)
    requires
        mm.wf(),
        has_both_classes(mm),
        field_outcome(mm, size, r),
        r is Ok,
        0 <= i < size * size,
    ensures
        ({
            let p = sample_point(
                (i % (size as int)) as u32,
                (i / (size as int)) as u32,
                field_level(mm, size),
            );
            let tag = tag_at_point(mm, p);
            let found = scan_min(mm, needed_of(tag), p, (mm.side(0) * mm.side(0)) as nat);
            found.is_some() && r->Ok_0@[i] == (SdfValue::Squared {
                dst_sqr: found.unwrap() as u64,
                negative: tag_has_black(tag),
            })
        }),
{
    let v = r->Ok_0@[i];
    let level = field_level(mm, size);
    assert(is_sample_at(mm, size, level, i, v));
    let p = sample_point((i % (size as int)) as u32, (i / (size as int)) as u32, level);
    let tag = tag_at_point(mm, p);
    if let SdfValue::Squared { dst_sqr, negative } = v {
        lemma_search_equals_scan(mm, needed_of(tag), p, dst_sqr as int);
    }
}

/// Only one grey step fits a distance.
pub proof fn lemma_quantized_unique(dst_sqr: int, max_dst: int, k1: int, k2: int)
    requires
        max_dst > 0,
        is_quantized(dst_sqr, max_dst, k1),
        is_quantized(dst_sqr, max_dst, k2),
    ensures
        k1 == k2,
{
    let q = max_dst * max_dst;
    assert(q > 0) by (nonlinear_arith)
        requires
            q == max_dst * max_dst,
            max_dst > 0,
    ;
    if k1 < k2 {
        assert((2 * k1 + 1) * (2 * k1 + 1) * q <= (2 * k2 - 1) * (2 * k2 - 1) * q) by (nonlinear_arith)
            requires
                0 <= k1 < k2,
                q > 0,
        ;
    } else if k2 < k1 {
        assert((2 * k2 + 1) * (2 * k2 + 1) * q <= (2 * k1 - 1) * (2 * k1 - 1) * q) by (nonlinear_arith)
            requires
                0 <= k2 < k1,
                q > 0,
        ;
    }
}

/// The grey value of a cell never lies on the wrong side of 127: at or above it for a
/// white pixel, at or below it for a black one, and at 127 for the distance zero.
/// For a distance of at least the 254th part of `max_dst` it lies strictly above or
/// below. (A smaller distance above zero is rounded to 127 too.)
pub proof fn lemma_quantized_sign(v: SdfValue, max_dst: int, b: u8)
    requires
        max_dst > 0,
        is_quantized_byte(v, max_dst, b),
    ensures
        v matches SdfValue::Squared { dst_sqr, negative } ==> {
            &&& !negative ==> b >= 127
            &&& negative ==> b <= 127
            &&& dst_sqr == 0 ==> b == 127
            &&& dst_sqr > 0 && max_dst * max_dst <= 64516 * dst_sqr ==> if negative {
                b < 127
            } else {
                b > 127
            }
        },
        v matches SdfValue::Unbounded { negative } ==> if negative {
            b < 127
        } else {
            b > 127
        },
{
    if let SdfValue::Squared { dst_sqr, negative } = v {
        let k = if negative {
            127 - b
        } else {
            b - 127
        };
        let q = max_dst * max_dst;
        assert(q > 0) by (nonlinear_arith)
            requires
                q == max_dst * max_dst,
                max_dst > 0,
        ;
        if dst_sqr == 0 && k > 0 {
            assert((2 * k - 1) * (2 * k - 1) * q > 0) by (nonlinear_arith)
                requires
                    k > 0,
                    q > 0,
            ;
        }
        if k == 0 {
            assert((2 * k + 1) * (2 * k + 1) * q == q) by (nonlinear_arith)
                requires
                    k == 0,
            ;
        }
    }
}

} // verus!
