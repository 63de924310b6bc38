//! What the search is about: the pixels that lie below a cell of the pyramid, the
//! pixels of the class that is looked for, and the bound that tells how near a
//! pixel below a cell can be.

use crate::functions::tag_has_black;
use crate::functions::tag_has_white;
use crate::mipmap::halves;
use crate::mipmap::merge4;
use crate::mipmap::merges_at;
use crate::mipmap::pixel_size;
use crate::mipmap::Mipmap;
use crate::mipmap::UniPoint;
use crate::mipmap::MAX_LEVEL;
use vstd::arithmetic::power2::lemma2_to64;
use vstd::arithmetic::power2::lemma_pow2_adds;
use vstd::arithmetic::power2::lemma_pow2_pos;
use vstd::arithmetic::power2::lemma_pow2_strictly_increases;
use vstd::arithmetic::power2::lemma_pow2_unfold;
use vstd::arithmetic::power2::pow2;
use vstd::prelude::*;

verus! {

/// Squared Euclidean distance between two points.
pub open spec fn dst_sqr(p: UniPoint, q: UniPoint) -> int {
    (p.x - q.x) * (p.x - q.x) + (p.y - q.y) * (p.y - q.y)
}

/// `v` moved into the range from `lo` to `hi`, which must not be empty.
pub open spec fn clamp_u32(v: u32, lo: u32, hi: u32) -> u32 {
    if v < lo {
        lo
    } else if v > hi {
        hi
    } else {
        v
    }
}

/// The point nearest to `p` among the centres of all pixels of level 0 that could lie
/// below the cell in column `x` and row `y` of the given level.
pub open spec fn nearest_in_cell(p: UniPoint, x: u32, y: u32, level: u8) -> UniPoint {
    UniPoint {
        x: clamp_u32(
            p.x,
            (x * pixel_size(level) + 1) as u32,
            ((x + 1) * pixel_size(level) - 1) as u32,
        ),
        y: clamp_u32(
            p.y,
            (y * pixel_size(level) + 1) as u32,
            ((y + 1) * pixel_size(level) - 1) as u32,
        ),
    }
}

/// The least squared distance from `p` that the centre of a pixel below the cell
/// can have.
pub open spec fn cell_dst_sqr(p: UniPoint, x: u32, y: u32, level: u8) -> int {
    dst_sqr(p, nearest_in_cell(p, x, y, level))
}

/// Between points that both lie within two to the 31 of the origin, the squared
/// distance fits 63 bits.
pub proof fn lemma_dst_sqr_bound(p: UniPoint, q: UniPoint)
    requires
        p.x <= 0x8000_0000,
        p.y <= 0x8000_0000,
        q.x <= 0x8000_0000,
        q.y <= 0x8000_0000,
    ensures
        0 <= dst_sqr(p, q) <= 0x8000_0000_0000_0000,
{
    let dx = p.x - q.x;
    let dy = p.y - q.y;
    assert(0 <= dx * dx <= 0x4000_0000_0000_0000) by (nonlinear_arith)
        requires
            -0x8000_0000 <= dx <= 0x8000_0000,
    ;
    assert(0 <= dy * dy <= 0x4000_0000_0000_0000) by (nonlinear_arith)
        requires
            -0x8000_0000 <= dy <= 0x8000_0000,
    ;
}

/// Number of pixels of level 0 along the side of a cell of the given level.
pub open spec fn span(level: u8) -> int {
    pow2(level as nat) as int
}

/// Centre of the pixel of level 0 in column `cx` and row `cy`.
pub open spec fn pixel_center(cx: int, cy: int) -> UniPoint {
    UniPoint { x: (2 * cx + 1) as u32, y: (2 * cy + 1) as u32 }
}

/// The pixel of level 0 in column `cx` and row `cy` lies below the cell in column `x`
/// and row `y` of the given level.
pub open spec fn covers(level: u8, x: u32, y: u32, cx: int, cy: int) -> bool {
    &&& x * span(level) <= cx < (x + 1) * span(level)
    &&& y * span(level) <= cy < (y + 1) * span(level)
}

/// The pixel of level 0 in column `cx` and row `cy` exists and is of a class that
/// `needed` names.
pub open spec fn is_target(mm: Mipmap, needed: u8, cx: int, cy: int) -> bool {
    &&& 0 <= cx < mm.side(0)
    &&& 0 <= cy < mm.side(0)
    &&& mm.tag(0, cx, cy) & needed != 0
}

/// The cell exists in the pyramid.
pub open spec fn is_cell(mm: Mipmap, level: u8, x: u32, y: u32) -> bool {
    &&& level <= mm.top()
    &&& x < mm.side(level as int)
    &&& y < mm.side(level as int)
}

/// Sizes along one axis of a cell that exists: it ends within the base, whose side
/// in unified coordinates is at most two to the 31.
pub proof fn lemma_cell_extent(mm: Mipmap, level: u8, x: u32)
    requires
        mm.wf(),
        level <= mm.top(),
        x < mm.side(level as int),
    ensures
        level <= MAX_LEVEL,
        span(level) >= 1,
        1 <= mm.side(level as int) <= 0x4000_0000,
        pixel_size(level) == 2 * span(level),
        0 <= x * span(level),
        (x + 1) * span(level) == x * span(level) + span(level),
        (x + 1) * span(level) <= mm.side(0) <= 0x4000_0000,
        x * pixel_size(level) == 2 * (x * span(level)),
        (x + 1) * pixel_size(level) == 2 * ((x + 1) * span(level)),
        mm.side(level as int) * span(level) == mm.side(0),
        level > 0 ==> mm.side(level - 1) == 2 * mm.side(level as int) && span(level) == 2 * span(
            (level - 1) as u8,
        ),
        level == 0 ==> span(level) == 1,
{
    let top = mm.top() as nat;
    let h = span(level);
    let n = mm.side(level as int);
    lemma2_to64();
    lemma_pow2_pos(level as nat);
    lemma_pow2_adds((top - level) as nat, level as nat);
    assert(n * h == mm.side(0));
    if top < 30 {
        lemma_pow2_strictly_increases(top, 30);
    }
    lemma_pow2_pos((top - level) as nat);
    if top - level < 30 {
        lemma_pow2_strictly_increases((top - level) as nat, 30);
    }
    if level > 0 {
        lemma_pow2_unfold(level as nat);
        lemma_pow2_unfold((top - level + 1) as nat);
    }
    assert(0 <= x * h) by (nonlinear_arith)
        requires
            0 <= x,
            0 <= h,
    ;
    assert((x + 1) * h == x * h + h) by (nonlinear_arith);
    assert((x + 1) * h <= n * h) by (nonlinear_arith)
        requires
            x + 1 <= n,
            0 <= h,
    ;
    assert(x * (2 * h) == 2 * (x * h)) by (nonlinear_arith);
    assert((x + 1) * (2 * h) == 2 * ((x + 1) * h)) by (nonlinear_arith);
}

/// A cell above the base carries the merged tags of the four cells below it.
pub proof fn lemma_cell_tag(mm: Mipmap, level: u8, x: u32, y: u32)
    requires
        mm.wf(),
        is_cell(mm, level, x, y),
        level > 0,
    ensures
        mm.tag(level as int, x as int, y as int) == merge4(
            mm.tag(level - 1, 2 * x, 2 * y),
            mm.tag(level - 1, 2 * x + 1, 2 * y),
            mm.tag(level - 1, 2 * x, 2 * y + 1),
            mm.tag(level - 1, 2 * x + 1, 2 * y + 1),
        ),
{
    let l = level as int;
    assert(halves(mm.images@[l], mm.images@[l - 1], pow2((mm.top() - l) as nat) as int));
    assert(merges_at(mm.images@[l], mm.images@[l - 1], x as int, y as int));
}

/// A pixel below a cell lies below exactly that one of the cell's four children
/// whose half of the cell holds it, along each axis.
pub proof fn lemma_covers_child(level: u8, x: u32, y: u32, cx: int, cy: int)
    requires
        0 < level <= MAX_LEVEL,
        2 * x + 1 <= u32::MAX,
        2 * y + 1 <= u32::MAX,
    ensures
        covers(level, x, y, cx, cy) <==> (covers((level - 1) as u8, (2 * x) as u32, (2 * y) as u32, cx, cy)
            || covers((level - 1) as u8, (2 * x + 1) as u32, (2 * y) as u32, cx, cy) || covers(
            (level - 1) as u8,
            (2 * x) as u32,
            (2 * y + 1) as u32,
            cx,
            cy,
        ) || covers((level - 1) as u8, (2 * x + 1) as u32, (2 * y + 1) as u32, cx, cy)),
{
    let h = span((level - 1) as u8);
    lemma_pow2_unfold(level as nat);
    lemma_pow2_pos((level - 1) as nat);
    assert(span(level) == 2 * h);
    assert(x * (2 * h) == (2 * x) * h) by (nonlinear_arith);
    assert((x + 1) * (2 * h) == (2 * x + 2) * h) by (nonlinear_arith);
    assert((2 * x + 1) * h == (2 * x) * h + h) by (nonlinear_arith);
    assert((2 * x + 2) * h == (2 * x + 1) * h + h) by (nonlinear_arith);
    assert(y * (2 * h) == (2 * y) * h) by (nonlinear_arith);
    assert((y + 1) * (2 * h) == (2 * y + 2) * h) by (nonlinear_arith);
    assert((2 * y + 1) * h == (2 * y) * h + h) by (nonlinear_arith);
    assert((2 * y + 2) * h == (2 * y + 1) * h + h) by (nonlinear_arith);
}

/// Below a cell whose tag names none of the needed classes there is no target.
pub proof fn lemma_no_target_below(mm: Mipmap, needed: u8, level: u8, x: u32, y: u32, cx: int, cy: int)
    requires
        mm.wf(),
        is_cell(mm, level, x, y),
        mm.tag(level as int, x as int, y as int) & needed == 0,
        covers(level, x, y, cx, cy),
    ensures
        !is_target(mm, needed, cx, cy),
    decreases level,
{
    lemma_cell_extent(mm, level, x);
    lemma_cell_extent(mm, level, y);
    if level > 0 {
        let l = (level - 1) as u8;
        lemma_cell_tag(mm, level, x, y);
        lemma_covers_child(level, x, y, cx, cy);
        let a = mm.tag(l as int, 2 * x, 2 * y);
        let b = mm.tag(l as int, 2 * x + 1, 2 * y);
        let c = mm.tag(l as int, 2 * x, 2 * y + 1);
        let d = mm.tag(l as int, 2 * x + 1, 2 * y + 1);
        assert((a | b | c | d) & needed == 0 ==> a & needed == 0 && b & needed == 0 && c & needed == 0
            && d & needed == 0) by (bit_vector);
        let x0 = (2 * x) as u32;
        let x1 = (2 * x + 1) as u32;
        let y0 = (2 * y) as u32;
        let y1 = (2 * y + 1) as u32;
        if covers(l, x0, y0, cx, cy) {
            lemma_no_target_below(mm, needed, l, x0, y0, cx, cy);
        } else if covers(l, x1, y0, cx, cy) {
            lemma_no_target_below(mm, needed, l, x1, y0, cx, cy);
        } else if covers(l, x0, y1, cx, cy) {
            lemma_no_target_below(mm, needed, l, x0, y1, cx, cy);
        } else {
            lemma_no_target_below(mm, needed, l, x1, y1, cx, cy);
        }
    }
}

/// Below a cell whose tag names a needed class there is a target.
pub proof fn lemma_target_below(mm: Mipmap, needed: u8, level: u8, x: u32, y: u32) -> (t: (int, int))
    requires
        mm.wf(),
        is_cell(mm, level, x, y),
        mm.tag(level as int, x as int, y as int) & needed != 0,
    ensures
        covers(level, x, y, t.0, t.1),
        is_target(mm, needed, t.0, t.1),
    decreases level,
{
    lemma_cell_extent(mm, level, x);
    lemma_cell_extent(mm, level, y);
    if level == 0 {
        assert(x * span(level) == x && y * span(level) == y) by (nonlinear_arith)
            requires
                span(level) == 1,
        ;
        (x as int, y as int)
    } else {
        let l = (level - 1) as u8;
        lemma_cell_tag(mm, level, x, y);
        let a = mm.tag(l as int, 2 * x, 2 * y);
        let b = mm.tag(l as int, 2 * x + 1, 2 * y);
        let c = mm.tag(l as int, 2 * x, 2 * y + 1);
        let d = mm.tag(l as int, 2 * x + 1, 2 * y + 1);
        assert((a | b | c | d) & needed != 0 ==> a & needed != 0 || b & needed != 0 || c & needed != 0
            || d & needed != 0) by (bit_vector);
        let x0 = (2 * x) as u32;
        let x1 = (2 * x + 1) as u32;
        let y0 = (2 * y) as u32;
        let y1 = (2 * y + 1) as u32;
        let t = if a & needed != 0 {
            lemma_target_below(mm, needed, l, x0, y0)
        } else if b & needed != 0 {
            lemma_target_below(mm, needed, l, x1, y0)
        } else if c & needed != 0 {
            lemma_target_below(mm, needed, l, x0, y1)
        } else {
            lemma_target_below(mm, needed, l, x1, y1)
        };
        lemma_covers_child(level, x, y, t.0, t.1);
        t
    }
}

/// Of two distances along one axis, the one to the nearer point has the smaller
/// square.
pub proof fn lemma_axis_nearest(v: u32, lo: u32, hi: u32, q: int)
    requires
        lo <= q <= hi,
    ensures
        (v - clamp_u32(v, lo, hi)) * (v - clamp_u32(v, lo, hi)) <= (v - q) * (v - q),
{
    let c = clamp_u32(v, lo, hi);
    let a = v - c;
    let b = v - q;
    assert(a * a <= b * b) by (nonlinear_arith)
        requires
            (0 <= a <= b) || (b <= a <= 0),
    ;
}

/// The bound that is computed for a cell is no greater than the squared distance to
/// any pixel below the cell.
pub proof fn lemma_cell_dst_is_lower_bound(mm: Mipmap, p: UniPoint, level: u8, x: u32, y: u32, cx: int, cy: int)
    requires
        mm.wf(),
        is_cell(mm, level, x, y),
        covers(level, x, y, cx, cy),
    ensures
        cell_dst_sqr(p, x, y, level) <= dst_sqr(p, pixel_center(cx, cy)),
{
    lemma_cell_extent(mm, level, x);
    lemma_cell_extent(mm, level, y);
    let ps = pixel_size(level);
    lemma_axis_nearest(p.x, (x * ps + 1) as u32, ((x + 1) * ps - 1) as u32, 2 * cx + 1);
    lemma_axis_nearest(p.y, (y * ps + 1) as u32, ((y + 1) * ps - 1) as u32, 2 * cy + 1);
}

/// Below a cell of level 0 lies the one pixel that the cell is.
pub proof fn lemma_leaf_covers(x: u32, y: u32, cx: int, cy: int)
    ensures
        covers(0, x, y, cx, cy) <==> cx == x && cy == y,
{
    lemma2_to64();
    assert(span(0) == 1);
    assert(x * 1 == x && (x + 1) * 1 == x + 1 && y * 1 == y && (y + 1) * 1 == y + 1);
}

/// The point that the distance is measured from for the pixel in column `x` and row
/// `y` of a field as fine as level `dst_level`: the centre of that cell.
pub open spec fn sample_point(x: u32, y: u32, dst_level: u8) -> UniPoint {
    UniPoint {
        x: (x * pixel_size(dst_level) + pixel_size(dst_level) / 2) as u32,
        y: (y * pixel_size(dst_level) + pixel_size(dst_level) / 2) as u32,
    }
}

/// The tag of the pixel of level 0 that holds the point.
pub open spec fn tag_at_point(mm: Mipmap, p: UniPoint) -> u8 {
    mm.tag(0, p.x as int / 2, p.y as int / 2)
}

/// The tag at the top of the pyramid names both classes.
pub open spec fn has_both_classes(mm: Mipmap) -> bool {
    let top = mm.tag(mm.top(), 0, 0);
    tag_has_white(top) && tag_has_black(top)
}

/// `d` is the least squared distance from `p` to the centre of a pixel of level 0
/// whose class `needed` names: there is such a pixel at that distance, and none is
/// nearer.
pub open spec fn is_nearest_dst_sqr(mm: Mipmap, needed: u8, p: UniPoint, d: int) -> bool {
    &&& exists|cx: int, cy: int| #[trigger]
        is_target(mm, needed, cx, cy) && d == dst_sqr(p, pixel_center(cx, cy))
    &&& forall|cx: int, cy: int| #[trigger]
        is_target(mm, needed, cx, cy) ==> d <= dst_sqr(p, pixel_center(cx, cy))
}

/// The point of a sample lies inside the base, and the pixel that holds it exists.
pub proof fn lemma_sample_point(mm: Mipmap, x: u32, y: u32, dst_level: u8)
    requires
        mm.wf(),
        is_cell(mm, dst_level, x, y),
    ensures
        dst_level <= MAX_LEVEL,
        x < 0x4000_0000,
        y < 0x4000_0000,
        x * pixel_size(dst_level) + pixel_size(dst_level) / 2 < 2 * mm.side(0) <= 0x8000_0000,
        y * pixel_size(dst_level) + pixel_size(dst_level) / 2 < 2 * mm.side(0),
        0 <= x * pixel_size(dst_level),
        0 <= y * pixel_size(dst_level),
        pixel_size(dst_level) / 2 >= 1,
        mm.images@[0].width() == mm.side(0),
        mm.images@[0].height() == mm.side(0),
{
    lemma_cell_extent(mm, dst_level, x);
    lemma_cell_extent(mm, dst_level, y);
}

/// Every pixel of level 0 lies below the cell at the top of the pyramid.
pub proof fn lemma_top_covers(mm: Mipmap, cx: int, cy: int)
    requires
        mm.wf(),
    ensures
        covers(mm.top() as u8, 0, 0, cx, cy) <==> 0 <= cx < mm.side(0) && 0 <= cy < mm.side(0),
{
    let h = span(mm.top() as u8);
    assert(0 * h == 0 && (0 + 1) * h == h) by (nonlinear_arith);
}

/// Column and row of a cell of a square grid are below its side.
pub proof fn lemma_index_in_grid(i: int, size: int)
    requires
        0 <= size,
        0 <= i < size * size,
    ensures
        0 <= i % size < size,
        0 <= i / size < size,
{
    assert(size > 0) by (nonlinear_arith)
        requires
            0 <= size,
            0 <= i < size * size,
    ;
    assert(0 <= i / size < size) by (nonlinear_arith)
        requires
            0 <= i < size * size,
            size > 0,
    ;
}

} // verus!
