//! The `table` module.
use crate::num;
use crate::table;
use crate::table::{Table, TableView, LIMIT};
use crate::text;
use crate::value;
use crate::value::{Val, Value};
use vstd::prelude::*;

verus! {

pub open spec fn at(t: TableView, i: int) -> Val {
    table::t_get(t, table::index_key(i as nat))
}

pub open spec fn with(t: TableView, i: int, v: Val) -> TableView {
    table::t_set(t, table::index_key(i as nat), v)
}

// ---- pop ---------------------------------------------------------------------------------

/// Take the last element of the array part.
pub fn pop(t: &mut Table) -> (r: Value)
    requires
        table::t_wf(old(t)@),
        table::t_room(old(t)@),
    ensures
        table::t_wf(final(t)@),
        ({
            let n = old(t)@.arr.len();
            if n == 0 {
                r@ is Nil && final(t)@ == old(t)@
            } else {
                r@ == old(t)@.arr[n - 1] && final(t)@ == with(old(t)@, n - 1, Val::Nil)
            }
        }),
{
    let n: usize = t.len();
    if n == 0 {
        return Value::Nil;
    }
    proof {
        num::lemma_index_round_trip((n - 1) as u64);
    }
    let v = t.get_index(n - 1);
    t.set_index(n - 1, Value::Nil);
    v
}

/// What is pushed onto an array is what is popped off it, and the array is
/// then what it was.
pub proof fn lemma_pop_undoes_push(t: TableView, v: Val)
    requires
        table::t_wf(t),
        table::t_room(t),
        t.pairs.len() == 0,
        t.arr.len() == 0 || !(t.arr.last() is Nil),
    ensures
        ({
            let pushed = table::t_push(t, v);
            let n = pushed.arr.len();
            &&& n == t.arr.len() + 1
            &&& pushed.arr[n - 1] == v
            &&& with(pushed, n - 1, Val::Nil).arr == t.arr
            &&& with(pushed, n - 1, Val::Nil).pairs == t.pairs
        }),
{
    let pushed = table::t_push(t, v);
    assert(pushed.arr == t.arr.push(v));
    let n = pushed.arr.len();
    num::lemma_index_round_trip((n - 1) as u64);
    let full = pushed.arr.update(n - 1, Val::Nil);
    assert(full.drop_last() =~= t.arr);
    assert(table::trimmed(full) == table::trimmed(t.arr));
    assert(table::trimmed(t.arr) == t.arr);
}

// ---- insert and remove -------------------------------------------------------------------

/// Move the elements from `pos` up to `i` one place up, the last first.
pub open spec fn moved_up(t: TableView, i: int, pos: int) -> TableView
    decreases i,
{
    if i <= pos || i <= 0 {
        t
    } else {
        moved_up(with(t, i, at(t, i - 1)), i - 1, pos)
    }
}

/// The table with a value put in at a place, or at the end.
pub open spec fn inserted(t: TableView, pos: int, v: Val) -> TableView {
    let n = t.arr.len() as int;
    with(
        moved_up(t, n, pos),
        if pos < n {
            pos
        } else {
            n
        },
        v,
    )
}

/// Move the elements after `i` one place down, up to the last.
pub open spec fn moved_down(t: TableView, i: int, n: int) -> TableView
    decreases n - i,
{
    if i >= n - 1 {
        t
    } else {
        moved_down(with(t, i, at(t, i + 1)), i + 1, n)
    }
}

/// The table with the element at a place taken out.
pub open spec fn removed(t: TableView, pos: int) -> TableView {
    let n = t.arr.len() as int;
    with(moved_down(t, pos, n), n - 1, Val::Nil)
}

/// A write makes a table larger by one element at most.
proof fn lemma_size(t: TableView, i: int, v: Val)
    requires
        table::t_wf(t),
        table::t_room(t),
        0 <= i < LIMIT,
    ensures
        with(t, i, v).arr.len() + with(t, i, v).pairs.len() <= t.arr.len() + t.pairs.len() + 1,
        table::t_wf(with(t, i, v)),
{
    let k = table::index_key(i as nat);
    table::lemma_set(t, k, v, k);
    num::lemma_index_round_trip(i as u64);
    if i < t.arr.len() {
        lemma_trimmed_len(t.arr.update(i, v));
    } else if i == t.arr.len() && !(v is Nil) {
        let u = TableView { nums: table::nums_written(t.nums, i as u64, v), ..t };
        lemma_absorbed_size(TableView { arr: u.arr.push(v), nums: table::nums_pushed(u.nums, v), ..u });
    } else {
        table::lemma_find_key(t.pairs, k, 0);
    }
}

proof fn lemma_trimmed_len(arr: Seq<Val>)
    ensures
        table::trimmed(arr).len() <= arr.len(),
    decreases arr.len(),
{
    if arr.len() > 0 && arr.last() is Nil {
        lemma_trimmed_len(arr.drop_last());
    }
}

proof fn lemma_absorbed_size(t: TableView)
    ensures
        table::absorbed(t).arr.len() + table::absorbed(t).pairs.len() == t.arr.len()
            + t.pairs.len(),
    decreases t.pairs.len(),
{
    let place = table::find_key(t.pairs, table::index_key(t.arr.len()), 0);
    if place < t.pairs.len() {
        lemma_absorbed_size(
            TableView {
                arr: t.arr.push(t.pairs[place as int].1),
                pairs: t.pairs.remove(place as int),
                nums: None,
            },
        );
    }
}

/// Put a value in at a place, moving what is there and after it up.
pub fn insert(t: &mut Table, pos: usize, v: Value)
    requires
        table::t_wf(old(t)@),
        2 * old(t)@.arr.len() + old(t)@.pairs.len() + 2 < LIMIT,
    ensures
        table::t_wf(final(t)@),
        final(t)@ == inserted(old(t)@, pos as int, v@),
{
    let n: usize = t.len();
    let ghost was = t@;
    let mut i: usize = n;
    while i > pos
        invariant
            i <= n == was.arr.len(),
            table::t_wf(t@),
            2 * n + was.pairs.len() + 2 < LIMIT,
            t@.arr.len() + t@.pairs.len() <= was.arr.len() + was.pairs.len() + (n - i),
            moved_up(t@, i as int, pos as int) == moved_up(was, n as int, pos as int),
        decreases i,
    {
        let ghost now = t@;
        let prev = t.get_index(i - 1);
        proof {
            lemma_size(now, i as int, prev@);
        }
        t.set_index(i, prev);
        i = i - 1;
    }
    let place: usize = if pos < n {
        pos
    } else {
        n
    };
    t.set_index(place, v);
}

/// Take out the element at a place, the last one if none is given, and move
/// what comes after it down.
pub fn remove(t: &mut Table, pos: Option<usize>) -> (r: Value)
    requires
        table::t_wf(old(t)@),
        2 * old(t)@.arr.len() + old(t)@.pairs.len() + 2 < LIMIT,
    ensures
        table::t_wf(final(t)@),
        ({
            let n = old(t)@.arr.len() as int;
            let place = match pos {
                Some(p) => p as int,
                None => n - 1,
            };
            if n == 0 || place >= n {
                r@ is Nil && final(t)@ == old(t)@
            } else {
                r@ == old(t)@.arr[place] && final(t)@ == removed(old(t)@, place)
            }
        }),
{
    let n: usize = t.len();
    if n == 0 {
        return Value::Nil;
    }
    let place: usize = match pos {
        Some(p) => p,
        None => n - 1,
    };
    if place >= n {
        return Value::Nil;
    }
    let ghost was = t@;
    proof {
        num::lemma_index_round_trip(place as u64);
    }
    let out = t.get_index(place);
    let mut i: usize = place;
    while i < n - 1
        invariant
            place <= i <= n - 1,
            n == was.arr.len(),
            table::t_wf(t@),
            2 * n + was.pairs.len() + 2 < LIMIT,
            t@.arr.len() + t@.pairs.len() <= was.arr.len() + was.pairs.len() + (i - place),
            moved_down(t@, i as int, n as int) == moved_down(was, place as int, n as int),
        decreases n - i,
    {
        let ghost now = t@;
        let next = t.get_index(i + 1);
        proof {
            lemma_size(now, i as int, next@);
        }
        t.set_index(i, next);
        i = i + 1;
    }
    t.set_index(n - 1, Value::Nil);
    out
}

/// An array: no keyed entries, and nothing missing.
pub open spec fn is_array(t: TableView) -> bool {
    &&& table::t_wf(t)
    &&& table::t_room(t)
    &&& t.pairs.len() == 0
    &&& forall|i: int| 0 <= i < t.arr.len() ==> !((#[trigger] t.arr[i]) is Nil)
}

/// Writing an element of an array changes that element alone.
proof fn lemma_with_inside(t: TableView, i: int, v: Val)
    requires
        is_array(t),
        0 <= i < t.arr.len(),
        !(v is Nil),
    ensures
        with(t, i, v).arr == t.arr.update(i, v),
        is_array(with(t, i, v)),
{
    num::lemma_index_round_trip(i as u64);
    let k = table::index_key(i as nat);
    table::lemma_set(t, k, v, k);
    let u = t.arr.update(i, v);
    assert(!(u.last() is Nil));
    assert(table::trimmed(u) == u);
}

/// Writing just past an array appends to it.
proof fn lemma_with_end(t: TableView, v: Val)
    requires
        is_array(t),
        t.arr.len() + 2 < LIMIT,
        !(v is Nil),
    ensures
        with(t, t.arr.len() as int, v).arr == t.arr.push(v),
        is_array(with(t, t.arr.len() as int, v)),
{
    let n = t.arr.len();
    num::lemma_index_round_trip(n as u64);
    let k = table::index_key(n);
    table::lemma_set(t, k, v, k);
}

/// Moving up from `i` copies one element: the one at `pos` is there twice.
proof fn lemma_moved_up(t: TableView, i: int, pos: int)
    requires
        is_array(t),
        0 <= pos <= i < t.arr.len(),
    ensures
        is_array(moved_up(t, i, pos)),
        moved_up(t, i, pos).arr.len() == t.arr.len(),
        forall|k: int|
            0 <= k < t.arr.len() ==> #[trigger] moved_up(t, i, pos).arr[k] == (if pos < k <= i {
                t.arr[k - 1]
            } else {
                t.arr[k]
            }),
    decreases i,
{
    if i > pos {
        num::lemma_index_round_trip((i - 1) as u64);
        lemma_with_inside(t, i, at(t, i - 1));
        lemma_moved_up(with(t, i, at(t, i - 1)), i - 1, pos);
    }
}

/// Inserting into an array puts the value at its place and keeps the order of
/// the rest.
pub proof fn lemma_insert(t: TableView, pos: int, v: Val)
    requires
        is_array(t),
        t.arr.len() + 2 < LIMIT,
        0 <= pos <= t.arr.len(),
        !(v is Nil),
    ensures
        inserted(t, pos, v).arr == t.arr.insert(pos, v),
        is_array(inserted(t, pos, v)),
{
    let n = t.arr.len() as int;
    if pos == n {
        lemma_with_end(t, v);
        assert(t.arr.insert(pos, v) =~= t.arr.push(v));
    } else {
        num::lemma_index_round_trip((n - 1) as u64);
        let u = with(t, n, at(t, n - 1));
        lemma_with_end(t, at(t, n - 1));
        lemma_moved_up(u, n - 1, pos);
        let m = moved_up(u, n - 1, pos);
        assert(moved_up(t, n, pos) == m);
        lemma_with_inside(m, pos, v);
        assert(m.arr.update(pos, v) =~= t.arr.insert(pos, v));
    }
}

proof fn lemma_moved_down(t: TableView, i: int, n: int)
    requires
        is_array(t),
        0 <= i < n == t.arr.len(),
    ensures
        is_array(moved_down(t, i, n)),
        moved_down(t, i, n).arr.len() == n,
        forall|k: int|
            0 <= k < n ==> #[trigger] moved_down(t, i, n).arr[k] == (if i <= k < n - 1 {
                t.arr[k + 1]
            } else {
                t.arr[k]
            }),
    decreases n - i,
{
    if i < n - 1 {
        num::lemma_index_round_trip((i + 1) as u64);
        lemma_with_inside(t, i, at(t, i + 1));
        lemma_moved_down(with(t, i, at(t, i + 1)), i + 1, n);
    }
}

/// Removing from an array takes that element out and keeps the order of the
/// rest.
pub proof fn lemma_remove(t: TableView, pos: int)
    requires
        is_array(t),
        0 <= pos < t.arr.len(),
    ensures
        removed(t, pos).arr == t.arr.remove(pos),
        removed(t, pos).pairs.len() == 0,
{
    let n = t.arr.len() as int;
    lemma_moved_down(t, pos, n);
    let m = moved_down(t, pos, n);
    num::lemma_index_round_trip((n - 1) as u64);
    let full = m.arr.update(n - 1, Val::Nil);
    assert(full.drop_last() =~= t.arr.remove(pos));
    let rest = t.arr.remove(pos);
    assert(table::trimmed(full) == table::trimmed(full.drop_last()));
    if rest.len() > 0 {
        assert(rest.last() == rest[rest.len() - 1]);
        assert(!(rest.last() is Nil));
    }
    assert(table::trimmed(rest) == rest);
}

/// What was inserted is what is removed again, and the array is then what it
/// was.
pub proof fn lemma_remove_undoes_insert(t: TableView, pos: int, v: Val)
    requires
        is_array(t),
        t.arr.len() + 2 < LIMIT,
        0 <= pos <= t.arr.len(),
        !(v is Nil),
    ensures
        inserted(t, pos, v).arr[pos] == v,
        removed(inserted(t, pos, v), pos).arr == t.arr,
        removed(inserted(t, pos, v), pos).pairs == t.pairs,
{
    lemma_insert(t, pos, v);
    let u = inserted(t, pos, v);
    lemma_remove(u, pos);
    assert(t.arr.insert(pos, v).remove(pos) =~= t.arr);
    assert(removed(u, pos).pairs =~= t.pairs);
}

// ---- contains, keys, values --------------------------------------------------------------

/// Does anything in the table equal this?
pub open spec fn holds(t: TableView, v: Val) -> bool {
    exists|i: int|
        0 <= i < table::t_keys(t).len() && value::same_val(
            table::t_get(t, #[trigger] table::t_keys(t)[i]),
            v,
        )
}

pub fn contains(t: &Table, v: &Value) -> (r: bool)
    ensures
        r == holds(t@, v@),
{
    let keys = t.keys();
    let ghost ks = table::t_keys(t@);
    let mut i: usize = 0;
    while i < keys.len()
        invariant
            i <= keys@.len() == ks.len(),
            ks == table::t_keys(t@),
            forall|k: int| 0 <= k < keys@.len() ==> (#[trigger] keys@[k])@ == ks[k],
            forall|k: int|
                0 <= k < i ==> !value::same_val(table::t_get(t@, #[trigger] ks[k]), v@),
        decreases keys@.len() - i,
    {
        assert(keys@[i as int]@ == ks[i as int]);
        if t.get(&keys[i]).equals(v) {
            return true;
        }
        i = i + 1;
    }
    false
}

pub open spec fn key_values(t: TableView) -> Seq<Val> {
    Seq::new(table::t_keys(t).len(), |i: int| value::val_of_key(table::t_keys(t)[i]))
}

pub open spec fn all_values(t: TableView) -> Seq<Val> {
    Seq::new(table::t_keys(t).len(), |i: int| table::t_get(t, table::t_keys(t)[i]))
}

/// The keys of a table, in order.
pub fn keys(t: &Table) -> (r: Vec<Value>)
    ensures
        value::vals(r@) == key_values(t@),
{
    let ks = t.keys();
    let mut out: Vec<Value> = Vec::new();
    let mut i: usize = 0;
    while i < ks.len()
        invariant
            i <= ks@.len() == table::t_keys(t@).len(),
            forall|k: int|
                0 <= k < ks@.len() ==> (#[trigger] ks@[k])@ == table::t_keys(t@)[k],
            out@.len() == i,
            forall|k: int|
                0 <= k < i ==> (#[trigger] out@[k])@ == value::val_of_key(table::t_keys(t@)[k]),
        decreases ks@.len() - i,
    {
        assert(ks@[i as int]@ == table::t_keys(t@)[i as int]);
        out.push(ks[i].to_value());
        i = i + 1;
    }
    assert(value::vals(out@) =~= key_values(t@));
    out
}

/// The values of a table, in the order of its keys.
pub fn values(t: &Table) -> (r: Vec<Value>)
    ensures
        value::vals(r@) == all_values(t@),
{
    let ks = t.keys();
    let mut out: Vec<Value> = Vec::new();
    let mut i: usize = 0;
    while i < ks.len()
        invariant
            i <= ks@.len() == table::t_keys(t@).len(),
            forall|k: int|
                0 <= k < ks@.len() ==> (#[trigger] ks@[k])@ == table::t_keys(t@)[k],
            out@.len() == i,
            forall|k: int|
                0 <= k < i ==> (#[trigger] out@[k])@ == table::t_get(t@, table::t_keys(t@)[k]),
        decreases ks@.len() - i,
    {
        assert(ks@[i as int]@ == table::t_keys(t@)[i as int]);
        out.push(t.get(&ks[i]));
        i = i + 1;
    }
    assert(value::vals(out@) =~= all_values(t@));
    out
}

/// The elements of the array part.
pub fn items(t: &Table) -> (r: Vec<Value>)
    ensures
        value::vals(r@) == t@.arr,
{
    let n: usize = t.len();
    let mut out: Vec<Value> = Vec::new();
    let mut i: usize = 0;
    while i < n
        invariant
            i <= n == t@.arr.len(),
            out@.len() == i,
            forall|k: int| 0 <= k < i ==> (#[trigger] out@[k])@ == t@.arr[k],
        decreases n - i,
    {
        match t.at(i) {
            Some(v) => out.push(v),
            None => {},
        }
        i = i + 1;
    }
    assert(value::vals(out@) =~= t@.arr);
    out
}

/// Texts put together with a separator between them.
pub open spec fn joined(parts: Seq<Seq<char>>, sep: Seq<char>) -> Seq<char>
    decreases parts.len(),
{
    if parts.len() == 0 {
        Seq::empty()
    } else if parts.len() == 1 {
        parts[0]
    } else {
        joined(parts.drop_last(), sep) + sep + parts.last()
    }
}

pub open spec fn texts(s: Seq<String>) -> Seq<Seq<char>> {
    Seq::new(s.len(), |i: int| s[i]@)
}

pub fn join(parts: &Vec<String>, sep: &str) -> (r: String)
    ensures
        r@ == joined(texts(parts@), sep@),
{
    let mut out = String::new();
    let ghost ps = texts(parts@);
    let mut i: usize = 0;
    assert(ps.take(0).len() == 0);
    assert(out@ =~= Seq::<char>::empty());
    while i < parts.len()
        invariant
            i <= parts@.len(),
            ps == texts(parts@),
            out@ == joined(ps.take(i as int), sep@),
        decreases parts@.len() - i,
    {
        assert(ps.take(i as int + 1).drop_last() =~= ps.take(i as int));
        assert(ps.take(i as int + 1).last() == parts@[i as int]@);
        if i > 0 {
            out.append(sep);
        }
        out.append(parts[i].as_str());
        assert(out@ =~= joined(ps.take(i as int + 1), sep@));
        i = i + 1;
    }
    assert(ps.take(ps.len() as int) =~= ps);
    out
}

// ---- sort --------------------------------------------------------------------------------

/// Is `a` less than `b`, where no function was given to say so? Strings are
/// compared as text and numbers as numbers; anything else has to be read as a
/// number first.
pub open spec fn plainly_less(a: Val, b: Val) -> Option<bool> {
    match (a, b) {
        (Val::Str(x), Val::Str(y)) => Some(text::before(x, y, 0)),
        (Val::Num(x), Val::Num(y)) => Some(num::less(x, y)),
        _ => None,
    }
}

pub fn plain_less(a: &Value, b: &Value) -> (r: Option<bool>)
    ensures
        r == plainly_less(a@, b@),
{
    match (a, b) {
        (Value::Str(x), Value::Str(y)) => Some(text::comes_before(x.as_str(), y.as_str())),
        (Value::Num(x), Value::Num(y)) => Some(num::num_lt(*x, *y)),
        _ => None,
    }
}

/// A sort in progress. Whoever runs it is asked, one pair at a time, whether
/// the first belongs before the second.
pub struct Sort {
    items: Vec<Value>,
    i: usize,
    j: usize,
}

#[verifier::ext_equal]
pub struct SortView {
    pub items: Seq<Val>,
    /// The elements before this one are in order.
    pub i: int,
    /// Where the element being put in its place is now.
    pub j: int,
}

impl View for Sort {
    type V = SortView;

    closed spec fn view(&self) -> SortView {
        SortView { items: value::vals(self.items@), i: self.i as int, j: self.j as int }
    }
}

pub open spec fn sort_wf(s: SortView) -> bool {
    s.i >= s.items.len() || (1 <= s.j <= s.i && s.i >= 1)
}

pub open spec fn sort_done(s: SortView) -> bool {
    s.i >= s.items.len()
}

/// One answer: the element moves down past its neighbour, or has found its
/// place.
pub open spec fn sort_step(s: SortView, less: bool) -> SortView {
    if less {
        let items = s.items.update(s.j, s.items[s.j - 1]).update(s.j - 1, s.items[s.j]);
        if s.j == 1 {
            SortView { items, i: s.i + 1, j: s.i + 1 }
        } else {
            SortView { items, i: s.i, j: s.j - 1 }
        }
    } else {
        SortView { items: s.items, i: s.i + 1, j: s.i + 1 }
    }
}

impl Sort {
    pub fn new(items: Vec<Value>) -> (r: Sort)
        ensures
            r@ == (SortView { items: value::vals(items@), i: 1, j: 1 }),
            sort_wf(r@),
    {
        Sort { items, i: 1, j: 1 }
    }

    /// The pair to compare next: does the first belong before the second?
    pub fn ask(&self) -> (r: Option<(Value, Value)>)
        requires
            sort_wf(self@),
        ensures
            match r {
                Some((a, b)) => {
                    &&& !sort_done(self@)
                    &&& a@ == self@.items[self@.j]
                    &&& b@ == self@.items[self@.j - 1]
                },
                None => sort_done(self@),
            },
    {
        if self.i >= self.items.len() {
            return None;
        }
        Some((self.items[self.j].clone(), self.items[self.j - 1].clone()))
    }

    pub fn answer(&mut self, less: bool)
        requires
            sort_wf(old(self)@),
            !sort_done(old(self)@),
        ensures
            final(self)@ == sort_step(old(self)@, less),
            sort_wf(final(self)@),
    {
        let ghost was = self@;
        let n: usize = self.items.len();
        if less {
            let a = self.items[self.j].clone();
            let b = self.items[self.j - 1].clone();
            self.items.set(self.j, b);
            self.items.set(self.j - 1, a);
            assert(value::vals(self.items@) =~= was.items.update(
                was.j,
                was.items[was.j - 1],
            ).update(was.j - 1, was.items[was.j]));
            if self.j == 1 {
                self.i = self.i + 1;
                self.j = self.i;
            } else {
                self.j = self.j - 1;
            }
        } else {
            self.i = self.i + 1;
            self.j = self.i;
        }
    }

    /// The elements as they stand.
    pub fn take(self) -> (r: Vec<Value>)
        ensures
            value::vals(r@) == self@.items,
    {
        self.items
    }
}

/// A comparison that makes sense of a sort: nothing is before itself or before
/// what is before it, and what is not before goes on being not before.
pub open spec fn orders(less: spec_fn(Val, Val) -> bool) -> bool {
    &&& forall|a: Val, b: Val| !(#[trigger] less(a, b) && #[trigger] less(b, a))
    &&& forall|a: Val, b: Val, c: Val|
        !#[trigger] less(a, b) && !#[trigger] less(b, c) ==> !less(a, c)
}

/// The elements before `n` are in order.
pub open spec fn in_order(items: Seq<Val>, n: int, less: spec_fn(Val, Val) -> bool) -> bool {
    forall|a: int, b: int|
        0 <= a < b < n ==> !less(#[trigger] items[b], #[trigger] items[a])
}

/// What a sort keeps: everything up to its place is in order but for the one
/// element on its way down, which belongs before all it has passed.
pub open spec fn sorting(s: SortView, less: spec_fn(Val, Val) -> bool) -> bool {
    if sort_done(s) {
        in_order(s.items, s.items.len() as int, less)
    } else {
        &&& 1 <= s.j <= s.i
        &&& forall|a: int, b: int|
            0 <= a < b <= s.i && a != s.j && b != s.j ==> !less(
                #[trigger] s.items[b],
                #[trigger] s.items[a],
            )
        &&& forall|b: int| s.j < b <= s.i ==> !less(#[trigger] s.items[b], s.items[s.j])
    }
}

/// A sort whose questions are answered by an order keeps its elements in
/// order as it goes, so that they are in order when it is done.
pub proof fn lemma_sorts(s: SortView, less: spec_fn(Val, Val) -> bool)
    requires
        orders(less),
        sort_wf(s),
        !sort_done(s),
        sorting(s, less),
    ensures
        sorting(sort_step(s, less(s.items[s.j], s.items[s.j - 1])), less),
{
    let x = s.items[s.j];
    let y = s.items[s.j - 1];
    let t = sort_step(s, less(x, y));
    if less(x, y) {
        assert(!less(y, x));
        assert forall|a: int, b: int|
            0 <= a < b <= s.i && a != s.j - 1 && b != s.j - 1 implies !less(
            #[trigger] t.items[b],
            #[trigger] t.items[a],
        ) by {
            if b == s.j {
                assert(t.items[b] == y);
                assert(t.items[a] == s.items[a]);
                assert(!less(s.items[s.j - 1], s.items[a]));
            } else if a == s.j {
                assert(t.items[a] == y);
                assert(t.items[b] == s.items[b]);
                assert(!less(s.items[b], s.items[s.j - 1]));
            } else {
                assert(t.items[a] == s.items[a]);
                assert(t.items[b] == s.items[b]);
                assert(!less(s.items[b], s.items[a]));
            }
        }
        assert forall|b: int| s.j - 1 < b <= s.i implies !less(#[trigger] t.items[b], x) by {
            if b > s.j {
                assert(t.items[b] == s.items[b]);
                assert(!less(s.items[b], s.items[s.j]));
            }
        }
        if s.j == 1 {
            assert forall|a: int, b: int| 0 <= a < b <= s.i implies !less(
                #[trigger] t.items[b],
                #[trigger] t.items[a],
            ) by {
                if a == 0 {
                    assert(t.items[0] == x);
                }
            }
        }
    } else {
        assert forall|a: int, b: int| 0 <= a < b <= s.i implies !less(
            #[trigger] s.items[b],
            #[trigger] s.items[a],
        ) by {
            if b == s.j && a < s.j - 1 {
                assert(!less(s.items[s.j - 1], s.items[a]));
                assert(!less(x, y) && !less(y, s.items[a]));
            }
        }
    }
}

/// A sort begins with everything before its place in order.
pub proof fn lemma_sort_starts(items: Seq<Val>, less: spec_fn(Val, Val) -> bool)
    ensures
        sorting(SortView { items, i: 1, j: 1 }, less),
{
}

/// A sort only ever moves elements about.
pub proof fn lemma_sort_permutes(s: SortView, less: bool)
    requires
        sort_wf(s),
        !sort_done(s),
    ensures
        sort_step(s, less).items.to_multiset() == s.items.to_multiset(),
{
    if less {
        let m = s.items.update(s.j, s.items[s.j - 1]);
        s.items.to_multiset_ensures();
        vstd::seq_lib::to_multiset_update(s.items, s.j, s.items[s.j - 1]);
        vstd::seq_lib::to_multiset_update(m, s.j - 1, s.items[s.j]);
        assert(s.items.contains(s.items[s.j]));
        assert(s.items.contains(s.items[s.j - 1]));
        assert(sort_step(s, less).items.to_multiset() =~= s.items.to_multiset());
    }
}

/// Write the elements back.
pub open spec fn stored(t: TableView, vs: Seq<Val>) -> TableView
    decreases vs.len(),
{
    if vs.len() == 0 {
        t
    } else {
        with(stored(t, vs.drop_last()), vs.len() - 1, vs.last())
    }
}

pub fn store(t: &mut Table, vs: &Vec<Value>)
    requires
        table::t_wf(old(t)@),
        old(t)@.arr.len() + old(t)@.pairs.len() + vs@.len() + 1 < LIMIT,
    ensures
        table::t_wf(final(t)@),
        final(t)@ == stored(old(t)@, value::vals(vs@)),
{
    let ghost was = t@;
    let ghost all = value::vals(vs@);
    let mut i: usize = 0;
    while i < vs.len()
        invariant
            i <= vs@.len(),
            all == value::vals(vs@),
            table::t_wf(t@),
            t@.arr.len() + t@.pairs.len() <= was.arr.len() + was.pairs.len() + i,
            was.arr.len() + was.pairs.len() + vs@.len() + 1 < LIMIT,
            t@ == stored(was, all.take(i as int)),
        decreases vs@.len() - i,
    {
        assert(all.take(i as int + 1).drop_last() =~= all.take(i as int));
        assert(all.take(i as int + 1).last() == vs@[i as int]@);
        proof {
            lemma_size(t@, i as int, vs@[i as int]@);
        }
        t.set_index(i, vs[i].clone());
        i = i + 1;
    }
    assert(all.take(all.len() as int) =~= all);
}

/// A number that stands somewhere among the numbers.
pub open spec fn countable(v: Val) -> bool {
    v matches Val::Num(x) && !num::is_nan(x)
}

/// What sorting goes by where all are numbers, or all are texts: those as they
/// are compared, in front of everything else.
pub open spec fn by_plain(numbers: bool) -> spec_fn(Val, Val) -> bool {
    |a: Val, b: Val|
        {
            let one = if numbers {
                countable(a)
            } else {
                a is Str
            };
            let other = if numbers {
                countable(b)
            } else {
                b is Str
            };
            one && (!other || plainly_less(a, b) == Some(true))
        }
}

/// Numbers but for NaN, and texts, are each in an order, so that a sort by
/// `plain_less` puts them in it.
pub proof fn lemma_plain_orders(numbers: bool)
    ensures
        orders(by_plain(numbers)),
        forall|a: Val, b: Val|
            (if numbers {
                countable(a) && countable(b)
            } else {
                a is Str && b is Str
            }) ==> #[trigger] plainly_less(a, b) == Some(by_plain(numbers)(a, b)),
{
    let less = by_plain(numbers);
    assert forall|a: Val, b: Val| !(#[trigger] less(a, b) && #[trigger] less(b, a)) by {
        match (a, b) {
            (Val::Str(x), Val::Str(y)) => text::lemma_before_one_way(x, y, 0),
            _ => {},
        }
    }
    assert forall|a: Val, b: Val, c: Val|
        !#[trigger] less(a, b) && !#[trigger] less(b, c) implies !less(a, c) by {
        match (a, b, c) {
            (Val::Str(x), Val::Str(y), Val::Str(z)) => if !numbers {
                text::lemma_before_row(x, y, z, 0);
            },
            _ => {},
        }
    }
}

} // verus!
