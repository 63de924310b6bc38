//! One step of the search: a cell of the pyramid that may hold the nearest pixel.

use crate::sdf_algorithm::DstT;
use crate::sdf_algorithm::SimpleDstT;
use core::cmp::Ordering;
use vstd::prelude::*;
use vstd::std_specs::cmp::PartialEqSpecImpl;
use vstd::std_specs::cmp::PartialOrdSpecImpl;

verus! {

/// A cell of the pyramid still to be searched, with the least distance that a pixel
/// below it can have from the point the search is made for.
#[derive(Clone, Copy)]
pub struct SdfTask<T: DstT> {
    pub x: u32,
    pub y: u32,
    pub level: u8,
    pub best_case_dst_sqr: T,
}

/// The tasks are in the order of their bounds, least first.
pub open spec fn tasks_sorted<T: DstT>(tasks: Seq<SdfTask<T>>) -> bool {
    forall|i: int, j: int|
        0 <= i <= j < tasks.len() ==> (#[trigger] tasks[i]).best_case_dst_sqr.sqr() <= (
        #[trigger] tasks[j]).best_case_dst_sqr.sqr()
}

/// The tasks for the children of one cell: at most four, kept in place without a
/// heap.
pub struct ChildTasks<T: DstT> {
    pub items: [SdfTask<T>; 4],
    pub len: usize,
}

impl<T: DstT> View for ChildTasks<T> {
    type V = Seq<SdfTask<T>>;

    /// The tasks that the list holds, in their order.
    open spec fn view(&self) -> Seq<SdfTask<T>> {
        self.items@.subrange(0, self.len as int)
    }
}

impl<T: DstT> ChildTasks<T> {
    /// The list holds no more tasks than it has room for.
    pub open spec fn wf(&self) -> bool {
        self.len <= 4
    }

    /// An empty list. The task that is handed in only fills the room that is not
    /// yet used.
    pub fn new(filler: SdfTask<T>) -> (r: Self)
        ensures
            r.wf(),
            r@ == Seq::<SdfTask<T>>::empty(),
    {
        let r = ChildTasks { items: [filler, filler, filler, filler], len: 0 };
        assert(r@ =~= Seq::<SdfTask<T>>::empty());
        r
    }

    /// Number of tasks in the list.
    pub fn len(&self) -> (r: usize)
        requires
            self.wf(),
        ensures
            r == self@.len(),
    {
        self.len
    }

    /// The task at place `j`.
    pub fn get(&self, j: usize) -> (r: SdfTask<T>)
        requires
            self.wf(),
            j < self@.len(),
        ensures
            r == self@[j as int],
    {
        self.items[j]
    }

    /// Puts a task into a list that is in the order of the bounds, behind all tasks
    /// whose bound is no greater, and says where it stands.
    pub fn insert(&mut self, t: SdfTask<T>) -> (pos: usize)
        requires
            old(self).wf(),
            old(self)@.len() < 4,
            tasks_sorted(old(self)@),
        ensures
            final(self).wf(),
            pos <= old(self)@.len(),
            final(self)@ == old(self)@.insert(pos as int, t),
            tasks_sorted(final(self)@),
            forall|j: int|
                0 <= j < pos ==> old(self)@[j].best_case_dst_sqr.sqr() <= t.best_case_dst_sqr.sqr(),
            forall|j: int|
                pos <= j < old(self)@.len() ==> t.best_case_dst_sqr.sqr() < old(
                    self,
                )@[j].best_case_dst_sqr.sqr(),
    {
        let ghost before = self@;
        let mut pos: usize = 0;
        while pos < self.len && !(t.best_case_dst_sqr.get_dst_sqr()
            < self.items[pos].best_case_dst_sqr.get_dst_sqr())
            invariant
                pos <= self.len < 4,
                *self == *old(self),
                before == self@,
                forall|j: int| 0 <= j < pos ==> before[j].best_case_dst_sqr.sqr() <= t.best_case_dst_sqr.sqr(),
            decreases self.len - pos,
        {
            assert(self.items@[pos as int] == before[pos as int]);
            pos = pos + 1;
        }
        proof {
            if pos < self.len {
                assert(self.items@[pos as int] == before[pos as int]);
            }
            assert forall|j: int| pos <= j < before.len() implies t.best_case_dst_sqr.sqr()
                < before[j].best_case_dst_sqr.sqr() by {
                assert(before[pos as int].best_case_dst_sqr.sqr() <= before[j].best_case_dst_sqr.sqr());
            }
        }
        let mut j: usize = self.len;
        while j > pos
            invariant
                pos <= j <= self.len < 4,
                self.len == old(self).len,
                forall|i: int| 0 <= i < j ==> self.items@[i] == old(self).items@[i],
                forall|i: int| j < i <= self.len ==> self.items@[i] == old(self).items@[i - 1],
            decreases j,
        {
            let moved = self.items[j - 1];
            self.items[j] = moved;
            j = j - 1;
        }
        self.items[pos] = t;
        self.len = self.len + 1;
        proof {
            let after = self@;
            assert forall|i: int| 0 <= i < after.len() implies after[i] == before.insert(pos as int, t)[i] by {
                if i < pos {
                    assert(after[i] == old(self).items@[i]);
                    assert(before[i] == old(self).items@[i]);
                } else if i > pos {
                    assert(after[i] == old(self).items@[i - 1]);
                    assert(before[i - 1] == old(self).items@[i - 1]);
                }
            }
            assert(after =~= before.insert(pos as int, t));
            assert forall|i: int, j: int| 0 <= i <= j < after.len() implies (
            #[trigger] after[i]).best_case_dst_sqr.sqr() <= (#[trigger] after[j]).best_case_dst_sqr.sqr() by {
                if i < pos {
                    assert(after[i] == before[i]);
                } else if i > pos {
                    assert(after[i] == before[i - 1]);
                }
                if j < pos {
                    assert(after[j] == before[j]);
                } else if j > pos {
                    assert(after[j] == before[j - 1]);
                }
            }
        }
        pos
    }
}

/// Two tasks are equal where they name the same cell with the same bound.
impl<T: DstT> PartialEq for SdfTask<T> {
    fn eq(&self, other: &Self) -> (r: bool) {
        self.x == other.x && self.y == other.y && self.level == other.level
            && self.best_case_dst_sqr.get_dst_sqr() == other.best_case_dst_sqr.get_dst_sqr()
    }
}

impl<T: DstT> PartialEqSpecImpl for SdfTask<T> {
    open spec fn obeys_eq_spec() -> bool {
        true
    }

    open spec fn eq_spec(&self, other: &Self) -> bool {
        self.x == other.x && self.y == other.y && self.level == other.level
            && self.best_case_dst_sqr.sqr() == other.best_case_dst_sqr.sqr()
    }
}

/// Tasks are ordered by their bounds alone, and the other way round: the task with
/// the smaller bound is the greater one, so that a heap that hands out its greatest
/// item hands out the nearest cell.
impl<T: DstT> PartialOrd for SdfTask<T> {
    fn partial_cmp(&self, other: &Self) -> (r: Option<Ordering>) {
        let mine: u64 = self.best_case_dst_sqr.get_dst_sqr();
        let theirs: u64 = other.best_case_dst_sqr.get_dst_sqr();
        if theirs < mine {
            Some(Ordering::Less)
        } else if theirs == mine {
            Some(Ordering::Equal)
        } else {
            Some(Ordering::Greater)
        }
    }
}

impl<T: DstT> PartialOrdSpecImpl for SdfTask<T> {
    open spec fn obeys_partial_cmp_spec() -> bool {
        true
    }

    open spec fn partial_cmp_spec(&self, other: &Self) -> Option<Ordering> {
        if other.best_case_dst_sqr.sqr() < self.best_case_dst_sqr.sqr() {
            Some(Ordering::Less)
        } else if other.best_case_dst_sqr.sqr() == self.best_case_dst_sqr.sqr() {
            Some(Ordering::Equal)
        } else {
            Some(Ordering::Greater)
        }
    }
}

/// Distances are ordered by their size.
impl PartialOrd for SimpleDstT {
    fn partial_cmp(&self, other: &Self) -> (r: Option<Ordering>) {
        let mine: u64 = self.get_dst_sqr();
        let theirs: u64 = other.get_dst_sqr();
        if mine < theirs {
            Some(Ordering::Less)
        } else if mine == theirs {
            Some(Ordering::Equal)
        } else {
            Some(Ordering::Greater)
        }
    }
}

impl PartialOrdSpecImpl for SimpleDstT {
    open spec fn obeys_partial_cmp_spec() -> bool {
        true
    }

    open spec fn partial_cmp_spec(&self, other: &Self) -> Option<Ordering> {
        if self.sqr() < other.sqr() {
            Some(Ordering::Less)
        } else if self.sqr() == other.sqr() {
            Some(Ordering::Equal)
        } else {
            Some(Ordering::Greater)
        }
    }
}

} // verus!
