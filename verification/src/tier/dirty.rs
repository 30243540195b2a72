//! What compiled code changed, and how it is kept or undone.
//!
//! Compiled code may give up wherever it likes, because everything it does to
//! a table can be taken back: writes go through a view that is thrown away,
//! appends are cut off again, and a table it made is let go.
use crate::table;
use crate::table::{Table, TableView};
use crate::vm;
use vstd::prelude::*;

verus! {

/// A table compiled code changed, and the length it had before it was
/// appended to, if it was.
#[derive(Clone, Copy, Debug, PartialEq, Eq, Structural)]
pub struct Dirty {
    pub table: usize,
    pub appended_from: Option<usize>,
}

/// How much belongs to calls already under way.
#[derive(Clone, Copy, Debug, PartialEq, Eq, Structural)]
pub struct Mark {
    pub dirty: usize,
    pub made: usize,
}

/// What the calls under way changed and made.
pub struct Scratch {
    pub dirty: Vec<Dirty>,
    pub made: Vec<usize>,
}

/// The place of a table in the list, or the list's length.
pub open spec fn place(ds: Seq<Dirty>, t: usize, i: nat) -> nat
    decreases ds.len() - i,
{
    if i >= ds.len() || ds[i as int].table == t {
        i
    } else {
        place(ds, t, i + 1)
    }
}

pub open spec fn dirtied(ds: Seq<Dirty>, t: usize) -> Seq<Dirty> {
    if place(ds, t, 0) < ds.len() {
        ds
    } else {
        ds.push(Dirty { table: t, appended_from: None })
    }
}

pub open spec fn shorter(a: Option<usize>, n: usize) -> usize {
    match a {
        Some(m) => if m < n {
            m
        } else {
            n
        },
        None => n,
    }
}

/// A table is about to be appended to: the least length it had is kept.
pub open spec fn appended(ds: Seq<Dirty>, t: usize, n: usize) -> Seq<Dirty> {
    let i = place(ds, t, 0);
    if i < ds.len() {
        ds.update(
            i as int,
            Dirty { table: t, appended_from: Some(shorter(ds[i as int].appended_from, n)) },
        )
    } else {
        ds.push(Dirty { table: t, appended_from: Some(n) })
    }
}

/// A table with what compiled code did to it taken back.
pub open spec fn undone(t: TableView, from: Option<usize>) -> TableView {
    let d = table::t_discard(t);
    match from {
        Some(n) => if d.pairs.len() == 0 {
            table::t_truncate(d, n as nat)
        } else {
            d
        },
        None => d,
    }
}

/// The tables once the changes in a list are kept, or taken back.
pub open spec fn settled(heap: Seq<TableView>, ds: Seq<Dirty>, keep: bool) -> Seq<TableView>
    decreases ds.len(),
{
    if ds.len() == 0 {
        heap
    } else {
        let h = settled(heap, ds.drop_last(), keep);
        let d = ds.last();
        if d.table < h.len() {
            h.update(
                d.table as int,
                if keep {
                    table::t_commit(h[d.table as int])
                } else {
                    undone(h[d.table as int], d.appended_from)
                },
            )
        } else {
            h
        }
    }
}

pub open spec fn all_wf(heap: Seq<TableView>) -> bool {
    forall|i: int| 0 <= i < heap.len() ==> table::t_wf(#[trigger] heap[i])
}

fn place_of(ds: &Vec<Dirty>, t: usize) -> (r: usize)
    ensures
        r == place(ds@, t, 0),
{
    let mut i: usize = 0;
    while i < ds.len()
        invariant
            i <= ds@.len(),
            place(ds@, t, i as nat) == place(ds@, t, 0),
        decreases ds@.len() - i,
    {
        if ds[i].table == t {
            return i;
        }
        i = i + 1;
    }
    i
}

impl Scratch {
    pub fn new() -> (r: Scratch)
        ensures
            r.dirty@ == Seq::<Dirty>::empty(),
            r.made@ == Seq::<usize>::empty(),
    {
        Scratch { dirty: Vec::new(), made: Vec::new() }
    }

    pub fn mark(&self) -> (r: Mark)
        ensures
            r.dirty == self.dirty@.len(),
            r.made == self.made@.len(),
    {
        Mark { dirty: self.dirty.len(), made: self.made.len() }
    }

    /// Compiled code was handed a view of this table to write through.
    pub fn note_dirty(&mut self, t: usize)
        ensures
            final(self).dirty@ == dirtied(old(self).dirty@, t),
            final(self).made@ == old(self).made@,
    {
        if place_of(&self.dirty, t) >= self.dirty.len() {
            self.dirty.push(Dirty { table: t, appended_from: None });
        }
    }

    /// Compiled code is about to append to this table, which is that long.
    pub fn note_append(&mut self, t: usize, n: usize)
        ensures
            final(self).dirty@ == appended(old(self).dirty@, t, n),
            final(self).made@ == old(self).made@,
    {
        let i: usize = place_of(&self.dirty, t);
        if i < self.dirty.len() {
            let least: usize = match self.dirty[i].appended_from {
                Some(m) => if m < n {
                    m
                } else {
                    n
                },
                None => n,
            };
            self.dirty.set(i, Dirty { table: t, appended_from: Some(least) });
        } else {
            self.dirty.push(Dirty { table: t, appended_from: Some(n) });
        }
    }

    /// Compiled code made this table for itself.
    pub fn note_made(&mut self, t: usize)
        ensures
            final(self).made@ == old(self).made@.push(t),
            final(self).dirty@ == old(self).dirty@,
    {
        self.made.push(t);
    }

    /// Finish a call: keep what it wrote, or take it back. What it made is let
    /// go either way; what escaped has an owner by now.
    pub fn settle(&mut self, heap: &mut Vec<Table>, mark: Mark, keep: bool)
        requires
            mark.dirty <= old(self).dirty@.len(),
            all_wf(vm::table_views(old(heap)@)),
        ensures
            final(self).dirty@ == old(self).dirty@.take(mark.dirty as int),
            final(self).made@ == if mark.made < old(self).made@.len() {
                old(self).made@.take(mark.made as int)
            } else {
                old(self).made@
            },
            vm::table_views(final(heap)@) == settled(
                vm::table_views(old(heap)@),
                old(self).dirty@.skip(mark.dirty as int),
                keep,
            ),
            all_wf(vm::table_views(final(heap)@)),
    {
        let ghost h0 = vm::table_views(heap@);
        let ghost ds = self.dirty@.skip(mark.dirty as int);
        let mut i: usize = mark.dirty;
        assert(ds.take(0) =~= Seq::empty());
        while i < self.dirty.len()
            invariant
                *self == *old(self),
                mark.dirty <= i <= self.dirty@.len(),
                ds == self.dirty@.skip(mark.dirty as int),
                vm::table_views(heap@) == settled(h0, ds.take(i - mark.dirty), keep),
                all_wf(vm::table_views(heap@)),
            decreases self.dirty@.len() - i,
        {
            let ghost k = i - mark.dirty;
            assert(ds.take(k + 1).drop_last() =~= ds.take(k));
            assert(ds.take(k + 1).last() == self.dirty@[i as int]);
            let ghost before = vm::table_views(heap@);
            let Dirty { table: t, appended_from } = self.dirty[i];
            if t < heap.len() {
                assert(before[t as int] == heap@[t as int]@);
                if keep {
                    heap[t].commit_nums();
                } else {
                    heap[t].discard_nums();
                    match appended_from {
                        Some(n) => {
                            if heap[t].is_plain_array() {
                                heap[t].truncate_arr(n);
                            }
                        },
                        None => {},
                    }
                }
                assert(vm::table_views(heap@) =~= before.update(t as int, heap@[t as int]@));
            }
            i = i + 1;
        }
        assert(ds.take(ds.len() as int) =~= ds);
        self.dirty.truncate(mark.dirty);
        self.made.truncate(mark.made);
    }
}

/// Two heaps differ only by what compiled code may do to the tables in a
/// list: writes through a view, and appends to a plain array whose length is
/// on record.
pub open spec fn only_dirtied(before: Seq<TableView>, after: Seq<TableView>, ds: Seq<Dirty>) -> bool {
    &&& before.len() == after.len()
    &&& forall|t: int|
        0 <= t < before.len() ==> {
            let i = place(ds, t as usize, 0);
            let from = if t <= usize::MAX && i < ds.len() {
                ds[i as int].appended_from
            } else {
                None
            };
            &&& (#[trigger] after[t]).pairs == before[t].pairs
            &&& match from {
                Some(n) => before[t].pairs.len() == 0 && n == before[t].arr.len()
                    && before[t].arr.is_prefix_of(after[t].arr),
                None => after[t].arr == before[t].arr,
            }
        }
}

pub open spec fn each_once(ds: Seq<Dirty>) -> bool {
    forall|i: int, j: int|
        0 <= i < ds.len() && 0 <= j < ds.len() && i != j ==> (#[trigger] ds[i]).table != (
        #[trigger] ds[j]).table
}

proof fn lemma_place(ds: Seq<Dirty>, t: usize, i: nat)
    requires
        i <= ds.len(),
    ensures
        i <= place(ds, t, i) <= ds.len(),
        place(ds, t, i) < ds.len() ==> ds[place(ds, t, i) as int].table == t,
        forall|k: int| i <= k < place(ds, t, i) ==> (#[trigger] ds[k]).table != t,
    decreases ds.len() - i,
{
    if i < ds.len() && ds[i as int].table != t {
        lemma_place(ds, t, i + 1);
    }
}

/// Noting keeps each table in the list once.
pub proof fn lemma_each_once(ds: Seq<Dirty>, t: usize, n: usize)
    requires
        each_once(ds),
    ensures
        each_once(dirtied(ds, t)),
        each_once(appended(ds, t, n)),
{
    lemma_place(ds, t, 0);
}

/// A call that gives up leaves every table as it found it, whatever it wrote
/// and whatever it appended.
pub proof fn lemma_giving_up_undoes(
    before: Seq<TableView>,
    after: Seq<TableView>,
    ds: Seq<Dirty>,
    t: int,
)
    requires
        before.len() <= usize::MAX,
        only_dirtied(before, after, ds),
        each_once(ds),
        0 <= t < before.len(),
    ensures
        settled(after, ds, false).len() == before.len(),
        settled(after, ds, false)[t].arr == before[t].arr,
        settled(after, ds, false)[t].pairs == before[t].pairs,
{
    lemma_settled_at(after, ds, t);
    lemma_place(ds, t as usize, 0);
    let i = place(ds, t as usize, 0);
    let u = after[t];
    if i < ds.len() {
        let from = ds[i as int].appended_from;
        match from {
            Some(n) => {
                let d = table::t_discard(u);
                if n < d.arr.len() {
                    assert(d.arr.take(n as int) =~= before[t].arr);
                } else {
                    assert(d.arr =~= before[t].arr);
                }
            },
            None => {},
        }
    }
}

/// What settling does to one table.
proof fn lemma_settled_at(heap: Seq<TableView>, ds: Seq<Dirty>, t: int)
    requires
        heap.len() <= usize::MAX,
        each_once(ds),
        0 <= t < heap.len(),
    ensures
        settled(heap, ds, false).len() == heap.len(),
        settled(heap, ds, false)[t] == (if place(ds, t as usize, 0) < ds.len() {
            undone(heap[t], ds[place(ds, t as usize, 0) as int].appended_from)
        } else {
            heap[t]
        }),
    decreases ds.len(),
{
    if ds.len() > 0 {
        let front = ds.drop_last();
        let d = ds.last();
        assert forall|i: int, j: int|
            0 <= i < front.len() && 0 <= j < front.len() && i != j implies (#[trigger] front[i]).table
            != (#[trigger] front[j]).table by {
            assert(ds[i].table != ds[j].table);
        }
        lemma_settled_at(heap, front, t);
        lemma_place(ds, t as usize, 0);
        lemma_place(front, t as usize, 0);
        let p = place(front, t as usize, 0);
        let q = place(ds, t as usize, 0);
        if p < front.len() {
            assert(ds[p as int].table == t as usize);
            if q < p {
                assert(front[q as int].table == t as usize);
            }
            assert(q == p);
            assert(ds[p as int].table != ds[ds.len() - 1].table);
            assert(front[p as int] == ds[p as int]);
        } else {
            assert forall|k: int| 0 <= k < front.len() implies (#[trigger] ds[k]).table
                != t as usize by {
                assert(front[k].table != t as usize);
            }
            if d.table == t as usize {
                assert(q == ds.len() - 1);
            } else {
                assert(q >= ds.len());
            }
        }
    }
}

/// Settling what is kept writes what is in each view over its table, once, and
/// leaves every other table alone.
pub proof fn lemma_keeping_commits(heap: Seq<TableView>, ds: Seq<Dirty>, t: int)
    requires
        0 <= t < heap.len(),
        heap.len() <= usize::MAX,
    ensures
        settled(heap, ds, true).len() == heap.len(),
        settled(heap, ds, true)[t] == (if exists|i: int|
            0 <= i < ds.len() && (#[trigger] ds[i]).table == t {
            table::t_commit(heap[t])
        } else {
            heap[t]
        }),
    decreases ds.len(),
{
    if ds.len() > 0 {
        let front = ds.drop_last();
        lemma_keeping_commits(heap, front, t);
        assert forall|i: int| 0 <= i < front.len() implies #[trigger] front[i] == ds[i] by {}
        assert(ds.last() == ds[ds.len() - 1]);
        if exists|i: int| 0 <= i < front.len() && (#[trigger] front[i]).table == t {
            let i = choose|i: int| 0 <= i < front.len() && (#[trigger] front[i]).table == t;
            assert(ds[i].table == t);
        }
        lemma_commit_twice(heap[t]);
        if ds.last().table != t && exists|i: int| 0 <= i < ds.len() && (#[trigger] ds[i]).table == t {
            let i = choose|i: int| 0 <= i < ds.len() && (#[trigger] ds[i]).table == t;
            assert(front[i].table == t);
        }
    }
}

/// What has been written over a table once is there.
proof fn lemma_commit_twice(t: TableView)
    ensures
        table::t_commit(table::t_commit(t)) == table::t_commit(t),
{
    assert(table::t_commit(table::t_commit(t)) =~= table::t_commit(t));
}

} // verus!
