//! When something cached about tables is still true.
use crate::table;
use crate::table::{Table, TableView};
use crate::value::{Key, KeyVal, Value};
use vstd::prelude::*;

verus! {

/// A count that moves whenever any table's storage moves or changes shape.
pub struct Shapes {
    epoch: u64,
}

pub open spec fn next_epoch(e: u64) -> u64 {
    if e == u64::MAX {
        0
    } else {
        (e + 1) as u64
    }
}

/// Does a view made of one of these stand for the other too? It does while
/// the array is as long and the copy of its numbers is where it was.
pub open spec fn same_shape(a: TableView, b: TableView) -> bool {
    a.arr.len() == b.arr.len() && (a.nums is Some) == (b.nums is Some)
}

/// The epoch after a table went from one state to another.
pub open spec fn moved(e: u64, a: TableView, b: TableView) -> u64 {
    if same_shape(a, b) {
        e
    } else {
        next_epoch(e)
    }
}

impl View for Shapes {
    type V = u64;

    closed spec fn view(&self) -> u64 {
        self.epoch
    }
}

impl Shapes {
    pub fn new() -> (r: Shapes)
        ensures
            r@ == 1,
    {
        Shapes { epoch: 1 }
    }

    pub fn shape_epoch(&self) -> (r: u64)
        ensures
            r == self@,
    {
        self.epoch
    }

    pub fn bump_shape_epoch(&mut self)
        ensures
            final(self)@ == next_epoch(old(self)@),
    {
        self.epoch = self.epoch.wrapping_add(1);
    }

    /// Move on, if a table that was of this shape is of another now.
    fn note(&mut self, len: usize, viewed: bool, t: &Table)
        ensures
            final(self)@ == if len == t@.arr.len() && viewed == (t@.nums is Some) {
                old(self)@
            } else {
                next_epoch(old(self)@)
            },
    {
        if len != t.len() || viewed != t.nums_view().is_some() {
            self.bump_shape_epoch();
        }
    }

    /// `t[k] = v`. The epoch moves when the write drops the view or makes the
    /// array longer or shorter.
    pub fn set(&mut self, t: &mut Table, k: Key, v: Value)
        requires
            table::t_wf(old(t)@),
            table::t_room(old(t)@),
        ensures
            final(t)@ == table::t_set(old(t)@, k@, v@),
            table::t_wf(final(t)@),
            final(self)@ == moved(old(self)@, old(t)@, final(t)@),
    {
        let len: usize = t.len();
        let viewed: bool = t.nums_view().is_some();
        t.set(k, v);
        self.note(len, viewed, t);
    }

    /// Write `t[n] = v` in place, as far as that goes. The epoch moves when
    /// the write drops the view.
    pub fn set_num(&mut self, t: &mut Table, n: u64, v: &Value) -> (r: bool)
        requires
            table::t_wf(old(t)@),
            table::t_room(old(t)@),
        ensures
            table::t_wf(final(t)@),
            r == (crate::num::index_of(n) matches Some(i) && i < old(t)@.arr.len() && !(
            v@ is Nil)),
            r ==> final(t)@ == table::t_set(old(t)@, KeyVal::Num(n), v@),
            !r ==> *final(t) == *old(t),
            final(self)@ == moved(old(self)@, old(t)@, final(t)@),
    {
        let len: usize = t.len();
        let viewed: bool = t.nums_view().is_some();
        let r: bool = t.set_num(n, v);
        self.note(len, viewed, t);
        r
    }

    /// Append. The array is longer, so the epoch moves.
    pub fn push(&mut self, t: &mut Table, v: Value)
        requires
            table::t_wf(old(t)@),
            table::t_room(old(t)@),
        ensures
            final(t)@ == table::t_push(old(t)@, v@),
            table::t_wf(final(t)@),
            final(self)@ == next_epoch(old(self)@),
    {
        t.push(v);
        self.bump_shape_epoch();
    }

    /// Hand out the view of the numbers. One that was not there is new.
    pub fn nums_span(&mut self, t: &mut Table) -> (r: Option<usize>)
        requires
            table::t_wf(old(t)@),
        ensures
            table::t_wf(final(t)@),
            final(t)@ == (TableView {
                nums: if old(t)@.nums is Some {
                    old(t)@.nums
                } else {
                    table::numbers(old(t)@.arr)
                },
                ..old(t)@
            }),
            match r {
                Some(n) => n == old(t)@.arr.len() && final(t)@.nums is Some,
                None => final(t)@.nums is None,
            },
            final(self)@ == moved(old(self)@, old(t)@, final(t)@),
    {
        let len: usize = t.len();
        let viewed: bool = t.nums_view().is_some();
        let r: Option<usize> = t.nums_span();
        self.note(len, viewed, t);
        r
    }

    /// Throw away what compiled code wrote, and the view with it.
    pub fn discard_nums(&mut self, t: &mut Table)
        requires
            table::t_wf(old(t)@),
        ensures
            final(t)@ == table::t_discard(old(t)@),
            table::t_wf(final(t)@),
            final(self)@ == next_epoch(old(self)@),
    {
        t.discard_nums();
        self.bump_shape_epoch();
    }

    /// Undo appends, back to a length.
    pub fn truncate_arr(&mut self, t: &mut Table, n: usize)
        requires
            table::t_wf(old(t)@),
            old(t)@.pairs.len() == 0 || n >= old(t)@.arr.len(),
        ensures
            final(t)@ == table::t_truncate(old(t)@, n as nat),
            table::t_wf(final(t)@),
            final(self)@ == moved(old(self)@, old(t)@, final(t)@),
    {
        let len: usize = t.len();
        let viewed: bool = t.nums_view().is_some();
        t.truncate_arr(n);
        self.note(len, viewed, t);
    }
}

/// Something worked out at one epoch, good for as long as that lasts.
pub struct Cached<T> {
    pub at: u64,
    pub what: T,
}

/// What was worked out, if nothing has moved since.
pub fn still_true<T>(c: &Option<Cached<T>>, epoch: u64) -> (r: Option<&T>)
    ensures
        match *c {
            Some(k) => r == if k.at == epoch {
                Some(&k.what)
            } else {
                None
            },
            None => r is None,
        },
{
    match c {
        Some(k) => {
            if k.at == epoch {
                Some(&k.what)
            } else {
                None
            }
        },
        None => None,
    }
}

/// What is cached outlives a change to a table only where the change left the
/// table its shape.
pub proof fn lemma_a_move_is_seen(e: u64, a: TableView, b: TableView)
    ensures
        moved(e, a, b) == e <==> same_shape(a, b),
{
}

/// A write of something that is no number, to an element the view covers,
/// drops the view, and that is seen.
pub proof fn lemma_a_dropped_view_is_seen(e: u64, t: TableView, k: KeyVal, v: crate::value::Val)
    requires
        table::t_wf(t),
        t.nums is Some,
        table::array_index(k) matches Some(i) && i < t.arr.len(),
        !(v is Num),
    ensures
        table::t_set(t, k, v).nums is None,
        moved(e, t, table::t_set(t, k, v)) != e,
{
}

/// A bump makes everything cached untrue.
pub proof fn lemma_a_bump_is_seen(e: u64)
    ensures
        next_epoch(e) != e,
{
}

} // verus!
