//! The search for the nearest pixel of the other class, the field that it yields,
//! and the grey image of a field.

use crate::functions::clamp;
use crate::functions::get_needed;
use crate::functions::has_black;
use crate::functions::has_black_and_white;
use crate::functions::has_white;
use crate::functions::is_black;
use crate::functions::is_power_of_two;
use crate::functions::log2;
use crate::functions::needed_of;
use crate::functions::tag_has_black;
use crate::functions::tag_has_white;
use crate::functions::tag_is_single;
use crate::mipmap::lemma_pixel_size;
use crate::mipmap::pixel_size;
use crate::mipmap::Mipmap;
use crate::mipmap::UniPoint;
use crate::mipmap::MAX_LEVEL;
use crate::partition::chunk_bounds;
use crate::partition::chunk_start;
use crate::partition::lemma_chunk_ends;
use crate::partition::lemma_chunk_step;
use crate::sdf_task::tasks_sorted;
use crate::sdf_task::ChildTasks;
use crate::sdf_task::SdfTask;
use crate::search_model::cell_dst_sqr;
use crate::search_model::clamp_u32;
use crate::search_model::covers;
use crate::search_model::dst_sqr;
use crate::search_model::has_both_classes;
use crate::search_model::is_cell;
use crate::search_model::is_nearest_dst_sqr;
use crate::search_model::is_target;
use crate::search_model::lemma_cell_dst_is_lower_bound;
use crate::search_model::lemma_cell_extent;
use crate::search_model::lemma_covers_child;
use crate::search_model::lemma_dst_sqr_bound;
use crate::search_model::lemma_index_in_grid;
use crate::search_model::lemma_leaf_covers;
use crate::search_model::lemma_no_target_below;
use crate::search_model::lemma_sample_point;
use crate::search_model::lemma_target_below;
use crate::search_model::lemma_top_covers;
use crate::search_model::pixel_center;
use crate::search_model::sample_point;
use crate::search_model::tag_at_point;
use rayon::iter::IntoParallelIterator;
use rayon::iter::ParallelIterator;
use vstd::arithmetic::power2::lemma2_to64;
use vstd::arithmetic::power2::lemma_pow2_pos;
use vstd::arithmetic::power2::lemma_pow2_strictly_increases;
use vstd::arithmetic::power2::pow2;
use vstd::prelude::*;

verus! {

/// A squared distance between two points in unified coordinates.
#[derive(Clone, Copy, Debug, PartialEq, Eq, Structural)]
pub struct SimpleDstT {
    dst_sqr: u64,
}

/// A measure of the distance between two points that the search can work with.
pub trait DstT: Copy {
    /// The squared distance that the value stands for.
    spec fn sqr(&self) -> int;

    /// The squared distance as a number.
    fn get_dst_sqr(&self) -> (r: u64)
        ensures
            r == self.sqr(),
    ;

    /// The distance between two points, whose square must fit 64 bits.
    fn new(from: &UniPoint, to: &UniPoint) -> (r: Self)
        requires
            dst_sqr(*from, *to) <= u64::MAX,
        ensures
            r.sqr() == dst_sqr(*from, *to),
    ;
}

impl DstT for SimpleDstT {
    closed spec fn sqr(&self) -> int {
        self.dst_sqr as int
    }

    fn get_dst_sqr(&self) -> (r: u64) {
        self.dst_sqr
    }

    fn new(from: &UniPoint, to: &UniPoint) -> (r: SimpleDstT) {
        let dx: u64 = if from.x >= to.x {
            (from.x - to.x) as u64
        } else {
            (to.x - from.x) as u64
        };
        let dy: u64 = if from.y >= to.y {
            (from.y - to.y) as u64
        } else {
            (to.y - from.y) as u64
        };
        proof {
            assert(dx * dx == (from.x - to.x) * (from.x - to.x)) by (nonlinear_arith)
                requires
                    dx == from.x - to.x || dx == to.x - from.x,
            ;
            assert(dy * dy == (from.y - to.y) * (from.y - to.y)) by (nonlinear_arith)
                requires
                    dy == from.y - to.y || dy == to.y - from.y,
            ;
            assert(0 <= dx * dx) by (nonlinear_arith);
            assert(0 <= dy * dy) by (nonlinear_arith);
        }
        SimpleDstT { dst_sqr: dx * dx + dy * dy }
    }
}

/// `clamp` on coordinates.
fn clamp_coord(v: u32, lo: u32, hi: u32) -> (r: u32)
    requires
        lo <= hi,
    ensures
        r == clamp_u32(v, lo, hi),
{
    clamp(v, lo, hi)
}

/// The least squared distance from `p` that a pixel below the given cell can have.
pub fn min_dst_sqr<T: DstT>(p: &UniPoint, mmx: u32, mmy: u32, mmlevel: u8) -> (r: T)
    requires
        mmlevel <= MAX_LEVEL,
        (mmx + 1) * pixel_size(mmlevel) <= 0x8000_0000,
        (mmy + 1) * pixel_size(mmlevel) <= 0x8000_0000,
        p.x <= 0x8000_0000,
        p.y <= 0x8000_0000,
    ensures
        r.sqr() == cell_dst_sqr(*p, mmx, mmy, mmlevel),
{
    proof {
        lemma_pixel_size(mmlevel);
        assert((mmx + 1) * pixel_size(mmlevel) == mmx * pixel_size(mmlevel) + pixel_size(mmlevel))
            by (nonlinear_arith);
        assert((mmy + 1) * pixel_size(mmlevel) == mmy * pixel_size(mmlevel) + pixel_size(mmlevel))
            by (nonlinear_arith);
        assert(0 <= mmx * pixel_size(mmlevel)) by (nonlinear_arith)
            requires
                pixel_size(mmlevel) >= 0,
        ;
        assert(0 <= mmy * pixel_size(mmlevel)) by (nonlinear_arith)
            requires
                pixel_size(mmlevel) >= 0,
        ;
    }
    let sq = Mipmap::get_pixel_square(mmx, mmy, mmlevel);
    let closest_x = clamp_coord(p.x, sq.topleft.x, sq.topleft.x + sq.length.v);
    let closest_y = clamp_coord(p.y, sq.topleft.y, sq.topleft.y + sq.length.v);
    let closest = UniPoint { x: closest_x, y: closest_y };
    proof {
        lemma_dst_sqr_bound(*p, closest);
    }
    T::new(p, &closest)
}

/// `d` is the squared distance from `p` to a target below the cell.
pub open spec fn reached(mm: Mipmap, needed: u8, p: UniPoint, level: u8, x: u32, y: u32, d: int) -> bool {
    exists|cx: int, cy: int|
        covers(level, x, y, cx, cy) && #[trigger] is_target(mm, needed, cx, cy) && d == dst_sqr(
            p,
            pixel_center(cx, cy),
        )
}

/// Where there is a target below the cell, `best` holds a squared distance, and no
/// target below the cell is nearer to `p` than that.
pub open spec fn beats_all_below<T: DstT>(
    mm: Mipmap,
    needed: u8,
    p: UniPoint,
    level: u8,
    x: u32,
    y: u32,
    best: Option<T>,
) -> bool {
    forall|cx: int, cy: int|
        covers(level, x, y, cx, cy) && #[trigger] is_target(mm, needed, cx, cy) ==> best.is_some()
            && best.unwrap().sqr() <= dst_sqr(p, pixel_center(cx, cy))
}

/// `after` is `before`, or the squared distance from `p` to a target below the cell;
/// and it is no greater than `before`.
pub open spec fn improves<T: DstT>(
    mm: Mipmap,
    needed: u8,
    p: UniPoint,
    level: u8,
    x: u32,
    y: u32,
    before: Option<T>,
    after: Option<T>,
) -> bool {
    &&& before.is_some() ==> after.is_some() && after.unwrap().sqr() <= before.unwrap().sqr()
    &&& after == before || (after.is_some() && reached(mm, needed, p, level, x, y, after.unwrap().sqr()))
}

/// The four cells are the children of the cell in column `x` and row `y`.
pub open spec fn is_children(c: [(u32, u32); 4], x: u32, y: u32) -> bool {
    &&& c[0] == ((2 * x) as u32, (2 * y) as u32)
    &&& c[1] == ((2 * x + 1) as u32, (2 * y) as u32)
    &&& c[2] == ((2 * x) as u32, (2 * y + 1) as u32)
    &&& c[3] == ((2 * x + 1) as u32, (2 * y + 1) as u32)
}

/// `t` asks for the search of a child of the cell `parent`, one whose tag names a
/// needed class, and carries the bound of that child, which is below `best`.
pub open spec fn is_child_task<T: DstT>(
    mm: Mipmap,
    needed: u8,
    p: UniPoint,
    parent: SdfTask<T>,
    t: SdfTask<T>,
    best: Option<T>,
) -> bool {
    &&& t.level == parent.level - 1
    &&& t.x == 2 * parent.x || t.x == 2 * parent.x + 1
    &&& t.y == 2 * parent.y || t.y == 2 * parent.y + 1
    &&& mm.tag(t.level as int, t.x as int, t.y as int) & needed != 0
    &&& t.best_case_dst_sqr.sqr() == cell_dst_sqr(p, t.x, t.y, t.level)
    &&& best.is_some() ==> t.best_case_dst_sqr.sqr() < best.unwrap().sqr()
}

/// Nothing is left to do for the child `c` of level `level`: its tag names no needed
/// class, or its bound does not go below `best`, or one of the tasks asks for it.
pub open spec fn child_settled<T: DstT>(
    mm: Mipmap,
    needed: u8,
    p: UniPoint,
    level: u8,
    c: (u32, u32),
    best: Option<T>,
    tasks: Seq<SdfTask<T>>,
) -> bool {
    ||| mm.tag(level as int, c.0 as int, c.1 as int) & needed == 0
    ||| best.is_some() && cell_dst_sqr(p, c.0, c.1, level) >= best.unwrap().sqr()
    ||| exists|j: int| 0 <= j < tasks.len() && (#[trigger] tasks[j]).x == c.0 && tasks[j].y == c.1
}

/// The tag of a cell of the pyramid.
pub fn mmget(mm: &Mipmap, x: u32, y: u32, level: u8) -> (r: u8)
    requires
        level < mm.images@.len(),
        x < mm.images@[level as int].width(),
        y < mm.images@[level as int].height(),
    ensures
        r == mm.tag(level as int, x as int, y as int),
{
    mm.images[level as usize].get_pixel(x, y)
}

/// The tag names one of the classes in `needed`.
pub fn has_needed(val: u8, needed: u8) -> (r: bool)
    ensures
        r == (val & needed != 0),
{
    val & needed != 0
}

/// A smaller distance beats whatever a greater one beats.
pub proof fn lemma_beats_monotone<T: DstT>(
    mm: Mipmap,
    needed: u8,
    p: UniPoint,
    level: u8,
    x: u32,
    y: u32,
    before: Option<T>,
    after: Option<T>,
)
    requires
        beats_all_below(mm, needed, p, level, x, y, before),
        before.is_some() ==> after.is_some() && after.unwrap().sqr() <= before.unwrap().sqr(),
    ensures
        beats_all_below(mm, needed, p, level, x, y, after),
{
}

/// A cell whose bound does not go below `best` holds no target nearer than `best`.
pub proof fn lemma_pruned_cell<T: DstT>(mm: Mipmap, needed: u8, p: UniPoint, level: u8, x: u32, y: u32, best: Option<T>)
    requires
        mm.wf(),
        is_cell(mm, level, x, y),
        best.is_some(),
        cell_dst_sqr(p, x, y, level) >= best.unwrap().sqr(),
    ensures
        beats_all_below(mm, needed, p, level, x, y, best),
{
    assert forall|cx: int, cy: int|
        covers(level, x, y, cx, cy) && #[trigger] is_target(mm, needed, cx, cy) implies best.unwrap().sqr()
        <= dst_sqr(p, pixel_center(cx, cy)) by {
        lemma_cell_dst_is_lower_bound(mm, p, level, x, y, cx, cy);
    }
}

/// A cell whose tag names no needed class holds no target at all.
pub proof fn lemma_empty_cell<T: DstT>(mm: Mipmap, needed: u8, p: UniPoint, level: u8, x: u32, y: u32, best: Option<T>)
    requires
        mm.wf(),
        is_cell(mm, level, x, y),
        mm.tag(level as int, x as int, y as int) & needed == 0,
    ensures
        beats_all_below(mm, needed, p, level, x, y, best),
{
    assert forall|cx: int, cy: int| covers(level, x, y, cx, cy) implies !#[trigger] is_target(
        mm,
        needed,
        cx,
        cy,
    ) by {
        lemma_no_target_below(mm, needed, level, x, y, cx, cy);
    }
}

/// What beats every target below each of the four children of a cell beats every
/// target below the cell.
pub proof fn lemma_children_cover<T: DstT>(
    mm: Mipmap,
    needed: u8,
    p: UniPoint,
    level: u8,
    x: u32,
    y: u32,
    c: [(u32, u32); 4],
    best: Option<T>,
)
    requires
        0 < level <= MAX_LEVEL,
        2 * x + 1 <= u32::MAX,
        2 * y + 1 <= u32::MAX,
        is_children(c, x, y),
        forall|i: int|
            0 <= i < 4 ==> beats_all_below(mm, needed, p, (level - 1) as u8, (#[trigger] c[i]).0, c[i].1, best),
    ensures
        beats_all_below(mm, needed, p, level, x, y, best),
{
    let l = (level - 1) as u8;
    assert forall|cx: int, cy: int|
        covers(level, x, y, cx, cy) && #[trigger] is_target(mm, needed, cx, cy) implies best.is_some()
        && best.unwrap().sqr() <= dst_sqr(p, pixel_center(cx, cy)) by {
        lemma_covers_child(level, x, y, cx, cy);
        assert(beats_all_below(mm, needed, p, l, c[0].0, c[0].1, best));
        assert(beats_all_below(mm, needed, p, l, c[1].0, c[1].1, best));
        assert(beats_all_below(mm, needed, p, l, c[2].0, c[2].1, best));
        assert(beats_all_below(mm, needed, p, l, c[3].0, c[3].1, best));
    }
}

/// A distance that is reached below a child of a cell is reached below the cell.
pub proof fn lemma_reached_in_parent(mm: Mipmap, needed: u8, p: UniPoint, level: u8, x: u32, y: u32, cx: u32, cy: u32, d: int)
    requires
        0 < level <= MAX_LEVEL,
        2 * x + 1 <= u32::MAX,
        2 * y + 1 <= u32::MAX,
        cx == 2 * x || cx == 2 * x + 1,
        cy == 2 * y || cy == 2 * y + 1,
        reached(mm, needed, p, (level - 1) as u8, cx, cy, d),
    ensures
        reached(mm, needed, p, level, x, y, d),
{
    let l = (level - 1) as u8;
    let (tx, ty) = choose|tx: int, ty: int|
        covers(l, cx, cy, tx, ty) && #[trigger] is_target(mm, needed, tx, ty) && d == dst_sqr(
            p,
            pixel_center(tx, ty),
        );
    lemma_covers_child(level, x, y, tx, ty);
    assert(covers(level, x, y, tx, ty) && is_target(mm, needed, tx, ty));
}

/// Searches the cell of `task`, which lies above the base and whose tag names the
/// needed class, for a pixel of that class nearer to `pxpos` than
/// `best_dst_sqr_input`, and returns the least distance known after that: the
/// smaller of `best_dst_sqr_input` and the distance to the nearest such pixel below
/// the cell. `x`, `y` and `dst_level` name the cell of the field that the search is
/// made for, and take no part in it.
pub fn calculate_sdf_at_rec<T: DstT>(
    mm: &Mipmap,
    x: u32,
    y: u32,
    dst_level: u8,
    best_dst_sqr_input: Option<T>,
    task: &SdfTask<T>,
    needed: u8,
    pxpos: &UniPoint,
) -> (r: Option<T>)
    requires
        mm.wf(),
        task.level > 0,
        is_cell(*mm, task.level, task.x, task.y),
        pxpos.x <= 2 * mm.side(0),
        pxpos.y <= 2 * mm.side(0),
        mm.tag(task.level as int, task.x as int, task.y as int) & needed != 0,
        best_dst_sqr_input matches Some(d) ==> task.best_case_dst_sqr.sqr() < d.sqr(),
    ensures
        r.is_some(),
        improves(*mm, needed, *pxpos, task.level, task.x, task.y, best_dst_sqr_input, r),
        beats_all_below(*mm, needed, *pxpos, task.level, task.x, task.y, r),
    decreases task.level,
{
    let mut best_dst_sqr: Option<T> = best_dst_sqr_input;
    proof {
        lemma_cell_extent(*mm, task.level, task.x);
        lemma_cell_extent(*mm, task.level, task.y);
        lemma_cell_extent(*mm, 0, 0);
    }
    let children: [(u32, u32); 4] = Mipmap::get_children(task.x, task.y);
    let new_level: u8 = task.level - 1;
    assert(is_children(children, task.x, task.y));
    if new_level == 0 {
        let mut k: usize = 0;
        while k < 4
            invariant
                k <= 4,
                mm.wf(),
                new_level == 0,
                task.level == 1,
                is_cell(*mm, task.level, task.x, task.y),
                is_children(children, task.x, task.y),
                mm.side(0) == 2 * mm.side(1),
                mm.side(0) <= 0x4000_0000,
                pxpos.x <= 2 * mm.side(0),
                pxpos.y <= 2 * mm.side(0),
                improves(
                    *mm,
                    needed,
                    *pxpos,
                    task.level,
                    task.x,
                    task.y,
                    best_dst_sqr_input,
                    best_dst_sqr,
                ),
                forall|i: int|
                    0 <= i < k ==> beats_all_below(
                        *mm,
                        needed,
                        *pxpos,
                        0,
                        (#[trigger] children[i]).0,
                        children[i].1,
                        best_dst_sqr,
                    ),
            decreases 4 - k,
        {
            let cx: u32 = children[k].0;
            let cy: u32 = children[k].1;
            let ghost prev = best_dst_sqr;
            proof {
                lemma_pixel_size(0);
                lemma_leaf_covers(cx, cy, cx as int, cy as int);
                assert(cx * pixel_size(0) == 2 * cx && cy * pixel_size(0) == 2 * cy) by (nonlinear_arith)
                    requires
                        pixel_size(0) == 2,
                ;
            }
            if has_needed(mmget(mm, cx, cy, new_level), needed) {
                let center = Mipmap::get_center(cx, cy, 0);
                proof {
                    assert(center == pixel_center(cx as int, cy as int));
                    lemma_dst_sqr_bound(*pxpos, center);
                }
                let dstsqr: T = T::new(pxpos, &center);
                if best_dst_sqr.is_none() || dstsqr.get_dst_sqr() < best_dst_sqr.unwrap().get_dst_sqr() {
                    best_dst_sqr = Some(dstsqr);
                    proof {
                        lemma_covers_child(task.level, task.x, task.y, cx as int, cy as int);
                        assert(covers(task.level, task.x, task.y, cx as int, cy as int) && is_target(
                            *mm,
                            needed,
                            cx as int,
                            cy as int,
                        ));
                    }
                }
            }
            proof {
                assert forall|tx: int, ty: int|
                    covers(0, cx, cy, tx, ty) && #[trigger] is_target(
                        *mm,
                        needed,
                        tx,
                        ty,
                    ) implies best_dst_sqr.is_some() && best_dst_sqr.unwrap().sqr() <= dst_sqr(
                    *pxpos,
                    pixel_center(tx, ty),
                ) by {
                    lemma_leaf_covers(cx, cy, tx, ty);
                }
                assert forall|i: int| 0 <= i < k + 1 implies beats_all_below(
                    *mm,
                    needed,
                    *pxpos,
                    0,
                    (#[trigger] children[i]).0,
                    children[i].1,
                    best_dst_sqr,
                ) by {
                    if i < k {
                        lemma_beats_monotone(
                            *mm,
                            needed,
                            *pxpos,
                            0,
                            children[i].0,
                            children[i].1,
                            prev,
                            best_dst_sqr,
                        );
                    }
                }
            }
            k = k + 1;
        }
    } else {
        let mut child_tasks: ChildTasks<T> = ChildTasks::new(*task);
        let mut k: usize = 0;
        while k < 4
            invariant
                k <= 4,
                mm.wf(),
                0 < new_level == task.level - 1,
                is_cell(*mm, task.level, task.x, task.y),
                is_children(children, task.x, task.y),
                mm.side(new_level as int) == 2 * mm.side(task.level as int),
                pxpos.x <= 2 * mm.side(0),
                pxpos.y <= 2 * mm.side(0),
                mm.side(0) <= 0x4000_0000,
                child_tasks.wf(),
                child_tasks@.len() <= k,
                tasks_sorted(child_tasks@),
                forall|j: int|
                    0 <= j < child_tasks@.len() ==> is_child_task(
                        *mm,
                        needed,
                        *pxpos,
                        *task,
                        #[trigger] child_tasks@[j],
                        best_dst_sqr_input,
                    ),
                forall|i: int|
                    0 <= i < k ==> child_settled(
                        *mm,
                        needed,
                        *pxpos,
                        new_level,
                        #[trigger] children[i],
                        best_dst_sqr_input,
                        child_tasks@,
                    ),
            decreases 4 - k,
        {
            let cx: u32 = children[k].0;
            let cy: u32 = children[k].1;
            let ghost before = child_tasks@;
            proof {
                lemma_cell_extent(*mm, new_level, cx);
                lemma_cell_extent(*mm, new_level, cy);
            }
            if has_needed(mmget(mm, cx, cy, new_level), needed) {
                let mindstsqr: T = min_dst_sqr(pxpos, cx, cy, new_level);
                if best_dst_sqr_input.is_none() || mindstsqr.get_dst_sqr() < best_dst_sqr_input.unwrap().get_dst_sqr() {
                    let t = SdfTask { x: cx, y: cy, level: new_level, best_case_dst_sqr: mindstsqr };
                    let pos = child_tasks.insert(t);
                    proof {
                        assert(child_tasks@[pos as int] == t);
                        assert forall|j: int| 0 <= j < child_tasks@.len() implies is_child_task(
                            *mm,
                            needed,
                            *pxpos,
                            *task,
                            #[trigger] child_tasks@[j],
                            best_dst_sqr_input,
                        ) by {
                            if j < pos {
                                assert(child_tasks@[j] == before[j]);
                            } else if j > pos {
                                assert(child_tasks@[j] == before[j - 1]);
                            }
                        }
                        assert forall|i: int| 0 <= i < k implies child_settled(
                            *mm,
                            needed,
                            *pxpos,
                            new_level,
                            #[trigger] children[i],
                            best_dst_sqr_input,
                            child_tasks@,
                        ) by {
                            if exists|j: int|
                                0 <= j < before.len() && (#[trigger] before[j]).x == children[i].0
                                    && before[j].y == children[i].1 {
                                let j = choose|j: int|
                                    0 <= j < before.len() && (#[trigger] before[j]).x == children[i].0
                                        && before[j].y == children[i].1;
                                if j < pos {
                                    assert(child_tasks@[j] == before[j]);
                                } else {
                                    assert(child_tasks@[j + 1] == before[j]);
                                }
                            }
                        }
                    }
                }
            }
            k = k + 1;
        }
        let mut j: usize = 0;
        while j < child_tasks.len()
            invariant
                child_tasks.wf(),
                j <= child_tasks@.len(),
                mm.wf(),
                0 < new_level == task.level - 1,
                is_cell(*mm, task.level, task.x, task.y),
                mm.side(new_level as int) == 2 * mm.side(task.level as int),
                pxpos.x <= 2 * mm.side(0),
                pxpos.y <= 2 * mm.side(0),
                tasks_sorted(child_tasks@),
                forall|i: int|
                    0 <= i < child_tasks@.len() ==> is_child_task(
                        *mm,
                        needed,
                        *pxpos,
                        *task,
                        #[trigger] child_tasks@[i],
                        best_dst_sqr_input,
                    ),
                improves(
                    *mm,
                    needed,
                    *pxpos,
                    task.level,
                    task.x,
                    task.y,
                    best_dst_sqr_input,
                    best_dst_sqr,
                ),
                forall|i: int|
                    0 <= i < j ==> beats_all_below(
                        *mm,
                        needed,
                        *pxpos,
                        new_level,
                        (#[trigger] child_tasks@[i]).x,
                        child_tasks@[i].y,
                        best_dst_sqr,
                    ),
            ensures
                j == child_tasks@.len() || (j < child_tasks@.len() && best_dst_sqr.is_some()
                    && child_tasks@[j as int].best_case_dst_sqr.sqr() >= best_dst_sqr.unwrap().sqr()),
            decreases child_tasks@.len() - j,
        {
            let child_task: SdfTask<T> = child_tasks.get(j);
            let ghost prev = best_dst_sqr;
            if best_dst_sqr.is_none() || child_task.best_case_dst_sqr.get_dst_sqr() < best_dst_sqr.unwrap().get_dst_sqr() {
                assert(is_child_task(*mm, needed, *pxpos, *task, child_tasks@[j as int], best_dst_sqr_input));
                best_dst_sqr =
                calculate_sdf_at_rec(mm, x, y, dst_level, best_dst_sqr, &child_task, needed, pxpos);
                proof {
                    if best_dst_sqr != prev {
                        lemma_reached_in_parent(
                            *mm,
                            needed,
                            *pxpos,
                            task.level,
                            task.x,
                            task.y,
                            child_task.x,
                            child_task.y,
                            best_dst_sqr.unwrap().sqr(),
                        );
                    }
                    assert forall|i: int| 0 <= i < j + 1 implies beats_all_below(
                        *mm,
                        needed,
                        *pxpos,
                        new_level,
                        (#[trigger] child_tasks@[i]).x,
                        child_tasks@[i].y,
                        best_dst_sqr,
                    ) by {
                        if i < j {
                            lemma_beats_monotone(
                                *mm,
                                needed,
                                *pxpos,
                                new_level,
                                child_tasks@[i].x,
                                child_tasks@[i].y,
                                prev,
                                best_dst_sqr,
                            );
                        }
                    }
                }
            } else {
                break ;
            }
            j = j + 1;
        }
        proof {
            assert forall|i: int| 0 <= i < 4 implies beats_all_below(
                *mm,
                needed,
                *pxpos,
                new_level,
                (#[trigger] children[i]).0,
                children[i].1,
                best_dst_sqr,
            ) by {
                let c = children[i];
                lemma_cell_extent(*mm, new_level, c.0);
                lemma_cell_extent(*mm, new_level, c.1);
                if mm.tag(new_level as int, c.0 as int, c.1 as int) & needed == 0 {
                    lemma_empty_cell(*mm, needed, *pxpos, new_level, c.0, c.1, best_dst_sqr);
                } else if best_dst_sqr_input.is_some() && cell_dst_sqr(*pxpos, c.0, c.1, new_level)
                    >= best_dst_sqr_input.unwrap().sqr() {
                    lemma_pruned_cell(*mm, needed, *pxpos, new_level, c.0, c.1, best_dst_sqr);
                } else {
                    let n = choose|n: int|
                        0 <= n < child_tasks@.len() && (#[trigger] child_tasks@[n]).x == c.0
                            && child_tasks@[n].y == c.1;
                    if n >= j {
                        assert(child_tasks@[j as int].best_case_dst_sqr.sqr()
                            <= child_tasks@[n].best_case_dst_sqr.sqr());
                        assert(is_child_task(
                            *mm,
                            needed,
                            *pxpos,
                            *task,
                            child_tasks@[n],
                            best_dst_sqr_input,
                        ));
                        lemma_pruned_cell(*mm, needed, *pxpos, new_level, c.0, c.1, best_dst_sqr);
                    }
                }
            }
        }
    }
    proof {
        lemma_children_cover(
            *mm,
            needed,
            *pxpos,
            task.level,
            task.x,
            task.y,
            children,
            best_dst_sqr,
        );
        let t = lemma_target_below(*mm, needed, task.level, task.x, task.y);
        assert(is_target(*mm, needed, t.0, t.1));
    }
    best_dst_sqr
}

/// The task of searching the cell in column `mmx` and row `mmy` of level `mmlevel`
/// for the pixel nearest to the centre of the pixel of level 0 in column `x` and
/// row `y`.
pub fn create_task<T: DstT>(x: u32, y: u32, mmx: u32, mmy: u32, mmlevel: u8) -> (r: SdfTask<T>)
    requires
        x < 0x4000_0000,
        y < 0x4000_0000,
        mmlevel <= MAX_LEVEL,
        (mmx + 1) * pixel_size(mmlevel) <= 0x8000_0000,
        (mmy + 1) * pixel_size(mmlevel) <= 0x8000_0000,
    ensures
        r.x == mmx,
        r.y == mmy,
        r.level == mmlevel,
        r.best_case_dst_sqr.sqr() == cell_dst_sqr(pixel_center(x as int, y as int), mmx, mmy, mmlevel),
{
    proof {
        lemma_pixel_size(0);
        assert(x * pixel_size(0) == 2 * x && y * pixel_size(0) == 2 * y) by (nonlinear_arith)
            requires
                pixel_size(0) == 2,
        ;
    }
    let pxpos = Mipmap::get_center(x, y, 0);
    let mindstsqr: T = min_dst_sqr(&pxpos, mmx, mmy, mmlevel);
    SdfTask { x: mmx, y: mmy, level: mmlevel, best_case_dst_sqr: mindstsqr }
}

/// The squared distance from the centre of a cell of level `dst_level` to the nearest
/// pixel of the class that the pixel at that centre does not have, and whether that
/// pixel is black. The image must hold both classes.
pub fn calculate_sdf_at<T: DstT>(mm: &Mipmap, x: u32, y: u32, dst_level: u8) -> (r: (T, bool))
    requires
        mm.wf(),
        is_cell(*mm, dst_level, x, y),
        has_both_classes(*mm),
        tag_is_single(tag_at_point(*mm, sample_point(x, y, dst_level))),
    ensures
        is_nearest_dst_sqr(
            *mm,
            needed_of(tag_at_point(*mm, sample_point(x, y, dst_level))),
            sample_point(x, y, dst_level),
            r.0.sqr(),
        ),
        r.1 == tag_has_black(tag_at_point(*mm, sample_point(x, y, dst_level))),
{
    proof {
        lemma_sample_point(*mm, x, y, dst_level);
        lemma2_to64();
        lemma_cell_extent(*mm, mm.top() as u8, 0);
        lemma_cell_extent(*mm, 0, 0);
    }
    let pxpos = Mipmap::get_center(x, y, dst_level);
    let pxval = mm.get_value(&pxpos);
    let top = mm.get_max_level();
    let task: SdfTask<T> = create_task(x, y, 0, 0, top);
    let needed = get_needed(pxval);
    let ghost root = mm.tag(mm.top(), 0, 0);
    proof {
        assert(root & 128u8 != 0 && root & 64u8 != 0);
        assert(needed == 128u8 || needed == 64u8);
    }
    let found = calculate_sdf_at_rec(mm, x, y, dst_level, None, &task, needed, &pxpos);
    proof {
        let d = found.unwrap().sqr();
        let (tx, ty) = choose|tx: int, ty: int|
            covers(top, 0, 0, tx, ty) && #[trigger] is_target(*mm, needed, tx, ty) && d == dst_sqr(
                pxpos,
                pixel_center(tx, ty),
            );
        assert(is_target(*mm, needed, tx, ty) && d == dst_sqr(pxpos, pixel_center(tx, ty)));
        assert forall|cx: int, cy: int| #[trigger] is_target(*mm, needed, cx, cy) implies d <= dst_sqr(
            pxpos,
            pixel_center(cx, cy),
        ) by {
            lemma_top_covers(*mm, cx, cy);
        }
    }
    (found.unwrap(), is_black(pxval))
}

/// `num::integer::div_rem` on `u64`: believed to give the quotient and the remainder
/// of the division, as `/` and `%` do. It panics for a zero divisor.
#[verifier::external_body]
fn div_rem_u64(x: u64, y: u64) -> (r: (u64, u64))
    requires
        y != 0,
    ensures
        r.0 == x / y,
        r.1 == x % y,
{
    num::integer::div_rem(x, y)
}

/// Column and row of the cell with the given index in a row-major grid of the given
/// width.
pub fn idx2point(idx: u64, width: u64) -> (r: (u64, u64))
    requires
        width != 0,
    ensures
        r.0 == idx % width,
        r.1 == idx / width,
{
    match div_rem_u64(idx, width) {
        (y, x) => (x, y),
    }
}

/// One cell of the field.
#[derive(Clone, Copy, Debug, PartialEq, Eq, Structural)]
pub enum SdfValue {
    /// The image has no pixel of the other class: the distance is infinite, below
    /// zero where `negative` is set.
    Unbounded { negative: bool },
    /// The distance is the square root of `dst_sqr`, in unified coordinates, taken
    /// below zero where `negative` is set.
    Squared { dst_sqr: u64, negative: bool },
}

/// Why no field can be computed.
#[derive(Clone, Copy, Debug, PartialEq, Eq, Structural)]
pub enum SdfError {
    /// The side asked for is not a power of two.
    SizeNotPowerOfTwo,
    /// The side asked for is greater than the side of the image.
    SizeTooLarge,
    /// A tag that should name exactly one class names none or both.
    Unclassified,
}

/// The level of the pyramid whose side is `size`.
pub open spec fn field_level(mm: Mipmap, size: u32) -> u8 {
    choose|l: u8| l <= mm.top() && mm.side(l as int) == size
}

/// The pixel that cell `i` of a field of side `size` is measured at has a tag of
/// exactly one class.
pub open spec fn index_is_classified(mm: Mipmap, size: u32, dst_level: u8, i: int) -> bool {
    tag_is_single(
        tag_at_point(mm, sample_point((i % (size as int)) as u32, (i / (size as int)) as u32, dst_level)),
    )
}

/// `v` is what cell `i` of a field of side `size` holds: the squared distance from
/// the centre of that cell to the nearest pixel of the class that the pixel at the
/// centre does not have, negative where that pixel is black.
pub open spec fn is_sample_at(mm: Mipmap, size: u32, dst_level: u8, i: int, v: SdfValue) -> bool {
    let p = sample_point((i % (size as int)) as u32, (i / (size as int)) as u32, dst_level);
    let tag = tag_at_point(mm, p);
    &&& tag_is_single(tag)
    &&& v matches SdfValue::Squared { dst_sqr, negative }
    &&& negative == tag_has_black(tag)
    &&& is_nearest_dst_sqr(mm, needed_of(tag), p, dst_sqr as int)
}

/// What the worker `k` of `workers` hands back: the cells of its run, in order, or
/// an error where a pixel of its run has no single class.
pub open spec fn chunk_outcome(
    mm: Mipmap,
    size: u32,
    dst_level: u8,
    workers: usize,
    k: usize,
    r: Result<Vec<SdfValue>, SdfError>,
) -> bool {
    let lo = chunk_start(size * size, workers as int, k as int);
    let hi = chunk_start(size * size, workers as int, k + 1);
    match r {
        Ok(v) => v@.len() == hi - lo && forall|j: int|
            0 <= j < hi - lo ==> is_sample_at(mm, size, dst_level, lo + j, #[trigger] v@[j]),
        Err(e) => e == SdfError::Unclassified && exists|i: int|
            lo <= i < hi && !#[trigger] index_is_classified(mm, size, dst_level, i),
    }
}

/// What `calculate_sdf` returns for a pyramid and a side.
pub open spec fn field_outcome(mm: Mipmap, size: u32, r: Result<Vec<SdfValue>, SdfError>) -> bool {
    let root = mm.tag(mm.top(), 0, 0);
    let level = field_level(mm, size);
    if !tag_has_white(root) && !tag_has_black(root) {
        r == Err::<Vec<SdfValue>, SdfError>(SdfError::Unclassified)
    } else if !has_both_classes(mm) {
        r matches Ok(v) && v@.len() == size * size && forall|i: int|
            0 <= i < size * size ==> #[trigger] v@[i] == (SdfValue::Unbounded {
                negative: tag_has_black(root),
            })
    } else if !is_power_of_two(size as int) {
        r == Err::<Vec<SdfValue>, SdfError>(SdfError::SizeNotPowerOfTwo)
    } else if size > mm.side(0) {
        r == Err::<Vec<SdfValue>, SdfError>(SdfError::SizeTooLarge)
    } else if exists|i: int| 0 <= i < size * size && !#[trigger] index_is_classified(mm, size, level, i) {
        r == Err::<Vec<SdfValue>, SdfError>(SdfError::Unclassified)
    } else {
        r matches Ok(v) && v@.len() == size * size && forall|i: int|
            0 <= i < size * size ==> is_sample_at(mm, size, level, i, #[trigger] v@[i])
    }
}

/// The cells of the run of worker `k`, computed one after the other.
pub fn calculate_chunk(mm: &Mipmap, size: u32, dst_level: u8, workers: usize, k: usize) -> (r: Result<
    Vec<SdfValue>,
    SdfError,
>)
    requires
        mm.wf(),
        has_both_classes(*mm),
        dst_level <= mm.top(),
        mm.side(dst_level as int) == size,
        k < workers,
    ensures
        chunk_outcome(*mm, size, dst_level, workers, k, r),
{
    assert(0 <= size * size <= 0xffff_ffff * 0xffff_ffff) by (nonlinear_arith)
        requires
            0 <= size <= 0xffff_ffff,
    ;
    let total: u64 = (size as u64) * (size as u64);
    let bounds = chunk_bounds(total, workers as u64, k as u64);
    let lo: u64 = bounds.0;
    let hi: u64 = bounds.1;
    let mut cells: Vec<SdfValue> = Vec::new();
    let mut i: u64 = lo;
    while i < hi
        invariant
            lo <= i <= hi <= total,
            total == size * size,
            lo == chunk_start(size * size, workers as int, k as int),
            hi == chunk_start(size * size, workers as int, k + 1),
            mm.wf(),
            has_both_classes(*mm),
            dst_level <= mm.top(),
            mm.side(dst_level as int) == size,
            cells@.len() == i - lo,
            forall|j: int| 0 <= j < i - lo ==> is_sample_at(*mm, size, dst_level, lo + j, #[trigger] cells@[j]),
        decreases hi - i,
    {
        proof {
            lemma_index_in_grid(i as int, size as int);
        }
        let point = idx2point(i, size as u64);
        let x: u32 = point.0 as u32;
        let y: u32 = point.1 as u32;
        proof {
            lemma_sample_point(*mm, x, y, dst_level);
        }
        let pxpos = Mipmap::get_center(x, y, dst_level);
        let pxval = mm.get_value(&pxpos);
        if has_white(pxval) == has_black(pxval) {
            assert(!index_is_classified(*mm, size, dst_level, i as int));
            return Err(SdfError::Unclassified);
        }
        let found = calculate_sdf_at::<SimpleDstT>(mm, x, y, dst_level);
        let ghost before = cells@;
        cells.push(SdfValue::Squared { dst_sqr: found.0.get_dst_sqr(), negative: found.1 });
        proof {
            assert forall|j: int| 0 <= j < i + 1 - lo implies is_sample_at(
                *mm,
                size,
                dst_level,
                lo + j,
                #[trigger] cells@[j],
            ) by {
                if j < i - lo {
                    assert(cells@[j] == before[j]);
                }
            }
        }
        i = i + 1;
    }
    Ok(cells)
}

/// Rayon's `into_par_iter` on the range of the workers' numbers, `map` with one call
/// of `calculate_chunk` for each number, and `collect` into a `Vec`: believed to
/// hold what each call returned, in the order of the numbers, whichever thread made
/// the call.
#[verifier::external_body]
fn run_workers(mm: &Mipmap, size: u32, dst_level: u8, workers: usize) -> (r: Vec<
    Result<Vec<SdfValue>, SdfError>,
>)
    requires
        mm.wf(),
        has_both_classes(*mm),
        dst_level <= mm.top(),
        mm.side(dst_level as int) == size,
    ensures
        r@.len() == workers,
        forall|k: int|
            0 <= k < workers ==> chunk_outcome(*mm, size, dst_level, workers, k as usize, #[trigger] r@[k]),
{
    (0..workers).into_par_iter().map(|k| calculate_chunk(mm, size, dst_level, workers, k)).collect()
}

/// Only one level of a pyramid has a given side.
pub proof fn lemma_field_level(mm: Mipmap, size: u32, l: u8)
    requires
        mm.wf(),
        l <= mm.top(),
        mm.side(l as int) == size,
    ensures
        field_level(mm, size) == l,
{
    let c = field_level(mm, size);
    assert(c <= mm.top() && mm.side(c as int) == size);
    if c < l {
        lemma_pow2_strictly_increases((mm.top() - l) as nat, (mm.top() - c) as nat);
    } else if l < c {
        lemma_pow2_strictly_increases((mm.top() - c) as nat, (mm.top() - l) as nat);
    }
}

/// A field of the given side that holds the same value in every cell.
pub fn uniform_field(size: u32, value: SdfValue) -> (r: Vec<SdfValue>)
    ensures
        r@.len() == size * size,
        forall|i: int| 0 <= i < size * size ==> #[trigger] r@[i] == value,
{
    assert(0 <= size * size <= 0xffff_ffff * 0xffff_ffff) by (nonlinear_arith)
        requires
            0 <= size <= 0xffff_ffff,
    ;
    let total: u64 = (size as u64) * (size as u64);
    let mut cells: Vec<SdfValue> = Vec::new();
    let mut i: u64 = 0;
    while i < total
        invariant
            i <= total,
            cells@.len() == i,
            forall|j: int| 0 <= j < i ==> #[trigger] cells@[j] == value,
        decreases total - i,
    {
        cells.push(value);
        i = i + 1;
    }
    cells
}

/// Adds the cells of one run behind those that are there.
fn append_cells(results: &mut Vec<SdfValue>, cells: &Vec<SdfValue>)
    ensures
        final(results)@ == old(results)@ + cells@,
{
    let mut j: usize = 0;
    while j < cells.len()
        invariant
            j <= cells@.len(),
            results@ == old(results)@ + cells@.subrange(0, j as int),
        decreases cells@.len() - j,
    {
        results.push(cells[j]);
        proof {
            assert(results@ =~= old(results)@ + cells@.subrange(0, j + 1));
        }
        j = j + 1;
    }
    proof {
        assert(cells@.subrange(0, j as int) =~= cells@);
    }
}

/// The signed distance field of the image at the base of the pyramid, `size` cells
/// wide and high, in row-major order. An image of one class gives a field that is
/// unbounded everywhere, whatever the size. For an image of both classes, `size`
/// must be a power of two no greater than the side of the image, and each cell
/// holds the squared distance from its centre to the nearest pixel of the other
/// class. The work is shared out among `workers` workers, one where the number is
/// zero; their number does not change the field.
pub fn calculate_sdf(mm: &Mipmap, size: u32, workers: usize) -> (r: Result<Vec<SdfValue>, SdfError>)
    requires
        mm.wf(),
    ensures
        field_outcome(*mm, size, r),
{
    proof {
        lemma2_to64();
        lemma_cell_extent(*mm, mm.top() as u8, 0);
        lemma_cell_extent(*mm, 0, 0);
        assert forall|e: nat| e < 64 implies #[trigger] pow2(e) > 0 by {
            lemma_pow2_pos(e);
        }
    }
    let top: u8 = mm.get_max_level();
    let coarsest_val: u8 = mmget(mm, 0, 0, top);
    if !has_black_and_white(coarsest_val) {
        if !has_black(coarsest_val) && !has_white(coarsest_val) {
            return Err(SdfError::Unclassified);
        }
        let value = SdfValue::Unbounded { negative: has_black(coarsest_val) };
        return Ok(uniform_field(size, value));
    }
    let sizelog: u8 = match log2(size as u64) {
        Some(v) => v,
        None => {
            return Err(SdfError::SizeNotPowerOfTwo);
        },
    };
    if size == 0 {
        return Err(SdfError::SizeNotPowerOfTwo);
    }
    if sizelog > top {
        proof {
            lemma_pow2_strictly_increases(top as nat, sizelog as nat);
        }
        return Err(SdfError::SizeTooLarge);
    }
    let dst_level: u8 = top - sizelog;
    proof {
        if sizelog < top {
            lemma_pow2_strictly_increases(sizelog as nat, top as nat);
        }
        lemma_field_level(*mm, size, dst_level);
        assert(0 <= size * size) by (nonlinear_arith)
            requires
                0 <= size,
        ;
    }
    let n: usize = if workers == 0 {
        1
    } else {
        workers
    };
    let chunks = run_workers(mm, size, dst_level, n);
    let mut results: Vec<SdfValue> = Vec::new();
    let mut k: usize = 0;
    proof {
        lemma_chunk_ends(size * size, n as int);
    }
    while k < n
        invariant
            k <= n,
            1 <= n,
            chunks@.len() == n,
            0 <= size * size,
            has_both_classes(*mm),
            is_power_of_two(size as int),
            size <= mm.side(0),
            field_level(*mm, size) == dst_level,
            forall|w: int|
                0 <= w < n ==> chunk_outcome(*mm, size, dst_level, n, w as usize, #[trigger] chunks@[w]),
            results@.len() == chunk_start(size * size, n as int, k as int),
            forall|i: int|
                0 <= i < results@.len() ==> is_sample_at(*mm, size, dst_level, i, #[trigger] results@[i]),
        decreases n - k,
    {
        let ghost before = results@;
        let ghost lo = chunk_start(size * size, n as int, k as int);
        proof {
            lemma_chunk_step(size * size, n as int, k as int);
            assert(chunk_outcome(*mm, size, dst_level, n, k, chunks@[k as int]));
        }
        match &chunks[k] {
            Ok(cells) => {
                append_cells(&mut results, cells);
                proof {
                    assert forall|i: int| 0 <= i < results@.len() implies is_sample_at(
                        *mm,
                        size,
                        dst_level,
                        i,
                        #[trigger] results@[i],
                    ) by {
                        if i < lo {
                            assert(results@[i] == before[i]);
                        } else {
                            assert(results@[i] == cells@[i - lo]);
                            assert(is_sample_at(*mm, size, dst_level, lo + (i - lo), cells@[i - lo]));
                        }
                    }
                }
            },
            Err(_) => {
                return Err(SdfError::Unclassified);
            },
        }
        k = k + 1;
    }
    proof {
        assert forall|i: int| 0 <= i < size * size implies index_is_classified(
            *mm,
            size,
            dst_level,
            i,
        ) by {
            assert(is_sample_at(*mm, size, dst_level, i, results@[i]));
        }
    }
    Ok(results)
}

/// `k` is 127 times the square root of `dst_sqr`, divided by `max_dst` and rounded
/// to the nearest whole number, halves upwards, and no more than 127. In whole
/// numbers: `k - 1/2 <= 127 * sqrt(dst_sqr) / max_dst < k + 1/2`, each side
/// multiplied by `2 * max_dst` and squared, and the upper bound dropped at 127.
pub open spec fn is_quantized(dst_sqr: int, max_dst: int, k: int) -> bool {
    &&& 0 <= k <= 127
    &&& k > 0 ==> (2 * k - 1) * (2 * k - 1) * (max_dst * max_dst) <= 64516 * dst_sqr
    &&& k < 127 ==> 64516 * dst_sqr < (2 * k + 1) * (2 * k + 1) * (max_dst * max_dst)
}

/// `b` is the grey value for a cell of the field: 127 for the distance zero, and
/// from there up for a white pixel and down for a black one, by the distance as a
/// share of `max_dst`, which is worth 127 steps; distances beyond `max_dst` all
/// give 254 or 0.
pub open spec fn is_quantized_byte(v: SdfValue, max_dst: int, b: u8) -> bool {
    match v {
        SdfValue::Unbounded { negative } => b == if negative {
            0int
        } else {
            254int
        },
        SdfValue::Squared { dst_sqr, negative } => is_quantized(
            dst_sqr as int,
            max_dst,
            if negative {
                127 - b
            } else {
                b - 127
            },
        ),
    }
}

/// The grey value for one cell of the field, with `max_expressable_dst` as the
/// distance from which on the value no longer changes.
pub fn quantize(v: SdfValue, max_expressable_dst: u32) -> (b: u8)
    requires
        max_expressable_dst > 0,
    ensures
        is_quantized_byte(v, max_expressable_dst as int, b),
{
    match v {
        SdfValue::Unbounded { negative } => if negative {
            0
        } else {
            254
        },
        SdfValue::Squared { dst_sqr, negative } => {
            let d: u128 = max_expressable_dst as u128;
            assert(0 < d * d <= 0xffff_ffff * 0xffff_ffff) by (nonlinear_arith)
                requires
                    0 < d <= 0xffff_ffff,
            ;
            let d2: u128 = d * d;
            let scaled: u128 = 64516 * (dst_sqr as u128);
            let mut k: u8 = 0;
            while k < 127
                invariant
                    k <= 127,
                    0 < d2 <= 0xffff_ffff * 0xffff_ffff,
                    d2 == max_expressable_dst * max_expressable_dst,
                    scaled == 64516 * dst_sqr,
                    k > 0 ==> (2 * k - 1) * (2 * k - 1) * d2 <= scaled,
                ensures
                    k < 127 ==> scaled < (2 * k + 1) * (2 * k + 1) * d2,
                decreases 127 - k,
            {
                let m: u128 = 2 * (k as u128) + 1;
                assert(0 < m * m <= 65025 && 0 <= m * m * d2 <= 65025 * (0xffff_ffff * 0xffff_ffff))
                    by (nonlinear_arith)
                    requires
                        0 < m <= 255,
                        0 < d2 <= 0xffff_ffff * 0xffff_ffff,
                ;
                if m * m * d2 > scaled {
                    break ;
                }
                k = k + 1;
            }
            if negative {
                127 - k
            } else {
                127 + k
            }
        },
    }
}

/// The grey image of a field: one byte for each cell, as `quantize` gives it.
pub fn sdf_to_grayscale_image(src: &Vec<SdfValue>, max_expressable_dst: u32) -> (r: Vec<u8>)
    requires
        max_expressable_dst > 0,
    ensures
        r@.len() == src@.len(),
        forall|i: int|
            0 <= i < src@.len() ==> is_quantized_byte(src@[i], max_expressable_dst as int, #[trigger] r@[i]),
{
    let mut bytes: Vec<u8> = Vec::with_capacity(src.len());
    let mut i: usize = 0;
    while i < src.len()
        invariant
            i <= src@.len(),
            max_expressable_dst > 0,
            bytes@.len() == i,
            forall|j: int|
                0 <= j < i ==> is_quantized_byte(src@[j], max_expressable_dst as int, #[trigger] bytes@[j]),
        decreases src@.len() - i,
    {
        bytes.push(quantize(src[i], max_expressable_dst));
        i = i + 1;
    }
    bytes
}

} // verus!
