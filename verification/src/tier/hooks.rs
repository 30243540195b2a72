//! What compiled code asks the runtime to do to a table.
//!
//! A table is named by its place in the heap, and no table by nothing. An
//! answer of nothing is a trap: the call is run over in the interpreter.
use super::dirty;
use super::dirty::Scratch;
use crate::num;
use crate::table;
use crate::table::{Table, TableView};
use crate::value::{Key, KeyVal, RStr, Val, Value};
use crate::vm;
use vstd::prelude::*;

verus! {

/// The table a name means, if it means one.
pub open spec fn named(heap: Seq<TableView>, t: Option<usize>) -> Option<TableView> {
    match t {
        Some(i) => if i < heap.len() {
            Some(heap[i as int])
        } else {
            None
        },
        None => None,
    }
}

pub open spec fn views(heap: Seq<Table>) -> Seq<TableView> {
    vm::table_views(heap)
}

/// The table at a place as `f` would have it, and every other as it was.
pub open spec fn changed(before: Seq<TableView>, after: Seq<TableView>, t: usize, v: TableView) -> bool {
    t < before.len() && after == before.update(t as int, v)
}

fn exists_at(heap: &Vec<Table>, t: Option<usize>) -> (r: Option<usize>)
    ensures
        match r {
            Some(i) => t == Some(i) && i < heap@.len() && named(views(heap@), t) == Some(
                heap@[i as int]@,
            ),
            None => named(views(heap@), t) is None,
        },
{
    match t {
        Some(i) => {
            if i < heap.len() {
                Some(i)
            } else {
                None
            }
        },
        None => None,
    }
}

/// How long a table is.
pub fn hook_len(heap: &Vec<Table>, t: Option<usize>) -> (r: Option<usize>)
    ensures
        match named(views(heap@), t) {
            Some(v) => r matches Some(n) && n == v.arr.len(),
            None => r is None,
        },
{
    match exists_at(heap, t) {
        Some(i) => Some(heap[i].len()),
        None => None,
    }
}

/// The number at an index of a view.
pub open spec fn number_at(t: TableView, i: u64) -> Option<u64> {
    match num::index_of(i) {
        Some(k) => if k < t.arr.len() {
            match t.arr[k as int] {
                Val::Num(n) => Some(n),
                _ => None,
            }
        } else {
            None
        },
        None => None,
    }
}

/// One numeric element of a table.
pub fn hook_get(heap: &Vec<Table>, t: Option<usize>, i: u64) -> (r: Option<u64>)
    ensures
        r == match named(views(heap@), t) {
            Some(v) => number_at(v, i),
            None => None,
        },
{
    match exists_at(heap, t) {
        Some(k) => heap[k].num_at(i),
        None => None,
    }
}

/// Append a value to a table. It is not done where there is no table, or no
/// room in it.
pub open spec fn pushed(before: Seq<TableView>, after: Seq<TableView>, t: Option<usize>, v: Val) -> bool {
    match named(before, t) {
        Some(x) => table::t_room(x) && changed(before, after, t->0, table::t_push(x, v)),
        None => false,
    }
}

fn push_value(heap: &mut Vec<Table>, t: Option<usize>, v: Value) -> (r: bool)
    requires
        dirty::all_wf(views(old(heap)@)),
    ensures
        dirty::all_wf(views(final(heap)@)),
        r ==> pushed(views(old(heap)@), views(final(heap)@), t, v@),
        !r ==> final(heap)@ == old(heap)@ && !(named(views(old(heap)@), t) matches Some(x)
            && table::t_room(x)),
{
    let ghost before = views(heap@);
    match exists_at(heap, t) {
        Some(i) => {
            assert(before[i as int] == heap@[i as int]@);
            if !heap[i].has_room() {
                return false;
            }
            heap[i].push(v);
            assert(views(heap@) =~= before.update(i as int, heap@[i as int]@));
            true
        },
        None => false,
    }
}

/// Append a number to a table.
pub fn hook_push(heap: &mut Vec<Table>, t: Option<usize>, n: u64) -> (r: bool)
    requires
        dirty::all_wf(views(old(heap)@)),
    ensures
        dirty::all_wf(views(final(heap)@)),
        r ==> pushed(views(old(heap)@), views(final(heap)@), t, Val::Num(n)),
        !r ==> final(heap)@ == old(heap)@ && !(named(views(old(heap)@), t) matches Some(x)
            && table::t_room(x)),
{
    push_value(heap, t, Value::Num(n))
}

/// Append a table to a table, which is how a row reaches its matrix.
pub fn hook_push_table(heap: &mut Vec<Table>, t: Option<usize>, e: Option<usize>) -> (r: bool)
    requires
        dirty::all_wf(views(old(heap)@)),
    ensures
        dirty::all_wf(views(final(heap)@)),
        r ==> named(views(old(heap)@), e) is Some && pushed(
            views(old(heap)@),
            views(final(heap)@),
            t,
            Val::Table(e->0),
        ),
        !r ==> final(heap)@ == old(heap)@ && !(named(views(old(heap)@), e) is Some && (named(
            views(old(heap)@),
            t,
        ) matches Some(x) && table::t_room(x))),
{
    match exists_at(heap, e) {
        Some(k) => push_value(heap, t, Value::Table(k)),
        None => false,
    }
}

/// Compiled code is about to append to this table: remember how long it is, so
/// that a trap can put it back. Appending to a table with keyed entries can
/// pull one of them into the array part, and undoing that is not a cut, so
/// such a table traps.
pub fn hook_note_append(heap: &Vec<Table>, scratch: &mut Scratch, t: Option<usize>) -> (r: bool)
    ensures
        r == (named(views(heap@), t) matches Some(v) && v.pairs.len() == 0),
        final(scratch).made@ == old(scratch).made@,
        r ==> final(scratch).dirty@ == dirty::appended(
            old(scratch).dirty@,
            t->0,
            heap@[t->0 as int]@.arr.len() as usize,
        ),
        !r ==> final(scratch).dirty@ == old(scratch).dirty@,
{
    match exists_at(heap, t) {
        Some(i) => {
            if !heap[i].is_plain_array() {
                return false;
            }
            let n: usize = heap[i].len();
            scratch.note_append(i, n);
            true
        },
        None => false,
    }
}

/// Is a write in place possible?
pub open spec fn writable(t: TableView, i: u64) -> bool {
    num::index_of(i) matches Some(k) && k < t.arr.len() && table::t_room(t)
}

/// Write a number already inside a table's array part. Anything else would
/// change the table's shape.
pub fn hook_set(heap: &mut Vec<Table>, t: Option<usize>, i: u64, n: u64) -> (r: bool)
    requires
        dirty::all_wf(views(old(heap)@)),
    ensures
        dirty::all_wf(views(final(heap)@)),
        r == (named(views(old(heap)@), t) matches Some(v) && writable(v, i)),
        r ==> changed(
            views(old(heap)@),
            views(final(heap)@),
            t->0,
            table::t_set(views(old(heap)@)[t->0 as int], KeyVal::Num(i), Val::Num(n)),
        ),
        !r ==> final(heap)@ == old(heap)@,
{
    let ghost before = views(heap@);
    match exists_at(heap, t) {
        Some(k) => {
            assert(before[k as int] == heap@[k as int]@);
            if !heap[k].has_room() {
                return false;
            }
            let done: bool = heap[k].set_num(i, &Value::Num(n));
            assert(views(heap@) =~= before.update(k as int, heap@[k as int]@));
            if !done {
                assert(heap@ =~= old(heap)@);
            }
            done
        },
        None => false,
    }
}

/// A table once its numbers were asked for: there is a copy of them if that is
/// all it holds.
pub open spec fn spanned(t: TableView) -> TableView {
    TableView {
        nums: if t.nums is Some {
            t.nums
        } else {
            table::numbers(t.arr)
        },
        ..t
    }
}

/// A view of a table's numbers, and how many there are.
pub fn hook_span(heap: &mut Vec<Table>, t: Option<usize>) -> (r: Option<usize>)
    requires
        dirty::all_wf(views(old(heap)@)),
    ensures
        dirty::all_wf(views(final(heap)@)),
        match named(views(old(heap)@), t) {
            Some(v) => changed(views(old(heap)@), views(final(heap)@), t->0, spanned(v)) && match r {
                Some(n) => spanned(v).nums is Some && n == v.arr.len(),
                None => spanned(v).nums is None,
            },
            None => r is None && final(heap)@ == old(heap)@,
        },
{
    let ghost before = views(heap@);
    match exists_at(heap, t) {
        Some(i) => {
            assert(before[i as int] == heap@[i as int]@);
            let n: Option<usize> = heap[i].nums_span();
            assert(heap@[i as int]@ =~= spanned(before[i as int]));
            assert(views(heap@) =~= before.update(i as int, spanned(before[i as int])));
            n
        },
        None => None,
    }
}

/// The same for code that writes through it: the table is noted, so that what
/// is written is kept or thrown away as a whole.
pub fn hook_span_mut(heap: &mut Vec<Table>, scratch: &mut Scratch, t: Option<usize>) -> (r: Option<
    usize,
>)
    requires
        dirty::all_wf(views(old(heap)@)),
    ensures
        dirty::all_wf(views(final(heap)@)),
        match named(views(old(heap)@), t) {
            Some(v) => changed(views(old(heap)@), views(final(heap)@), t->0, spanned(v)) && match r {
                Some(n) => spanned(v).nums is Some && n == v.arr.len(),
                None => spanned(v).nums is None,
            },
            None => r is None && final(heap)@ == old(heap)@,
        },
        final(scratch).made@ == old(scratch).made@,
        final(scratch).dirty@ == if r is Some {
            dirty::dirtied(old(scratch).dirty@, t->0)
        } else {
            old(scratch).dirty@
        },
{
    let n: Option<usize> = hook_span(heap, t);
    if n.is_some() {
        match t {
            Some(i) => scratch.note_dirty(i),
            None => {},
        }
    }
    n
}

/// The table at an index of a table, where the elements are tables.
pub open spec fn element(heap: Seq<TableView>, t: Option<usize>, i: u64) -> Option<usize> {
    match named(heap, t) {
        Some(v) => match num::index_of(i) {
            Some(k) => if k < v.arr.len() {
                match v.arr[k as int] {
                    Val::Table(e) => Some(e),
                    _ => None,
                }
            } else {
                None
            },
            None => None,
        },
        None => None,
    }
}

fn element_of(heap: &Vec<Table>, t: Option<usize>, i: u64) -> (r: Option<usize>)
    ensures
        r == element(views(heap@), t, i),
{
    match exists_at(heap, t) {
        Some(k) => match heap[k].get_num(i) {
            Some(Value::Table(e)) => Some(e),
            _ => None,
        },
        None => None,
    }
}

/// `t[i]` when the elements are themselves tables: which one it is, and a view
/// of its numbers.
pub fn hook_inner(heap: &mut Vec<Table>, t: Option<usize>, i: u64) -> (r: Option<(usize, usize)>)
    requires
        dirty::all_wf(views(old(heap)@)),
    ensures
        dirty::all_wf(views(final(heap)@)),
        ({
            let e = element(views(old(heap)@), t, i);
            match named(views(old(heap)@), e) {
                Some(v) => changed(views(old(heap)@), views(final(heap)@), e->0, spanned(v))
                    && match r {
                    Some((k, n)) => spanned(v).nums is Some && e == Some(k) && n == v.arr.len(),
                    None => spanned(v).nums is None,
                },
                None => r is None && final(heap)@ == old(heap)@,
            }
        }),
{
    let e: Option<usize> = element_of(heap, t, i);
    match hook_span(heap, e) {
        Some(n) => match e {
            Some(k) => Some((k, n)),
            None => None,
        },
        None => None,
    }
}

/// The same for code that writes to the element.
pub fn hook_inner_mut(heap: &mut Vec<Table>, scratch: &mut Scratch, t: Option<usize>, i: u64) -> (r:
    Option<(usize, usize)>)
    requires
        dirty::all_wf(views(old(heap)@)),
    ensures
        dirty::all_wf(views(final(heap)@)),
        ({
            let e = element(views(old(heap)@), t, i);
            match named(views(old(heap)@), e) {
                Some(v) => changed(views(old(heap)@), views(final(heap)@), e->0, spanned(v))
                    && match r {
                    Some((k, n)) => spanned(v).nums is Some && e == Some(k) && n == v.arr.len(),
                    None => spanned(v).nums is None,
                },
                None => r is None && final(heap)@ == old(heap)@,
            }
        }),
        final(scratch).made@ == old(scratch).made@,
        final(scratch).dirty@ == match r {
            Some((k, _)) => dirty::dirtied(old(scratch).dirty@, k),
            None => old(scratch).dirty@,
        },
{
    let found: Option<(usize, usize)> = hook_inner(heap, t, i);
    match found {
        Some((k, _)) => scratch.note_dirty(k),
        None => {},
    }
    found
}

/// An empty table for compiled code to fill.
pub fn hook_new_table(heap: &mut Vec<Table>, scratch: &mut Scratch) -> (r: usize)
    requires
        dirty::all_wf(views(old(heap)@)),
    ensures
        dirty::all_wf(views(final(heap)@)),
        r == old(heap)@.len(),
        views(final(heap)@) == views(old(heap)@).push(
            (TableView { arr: Seq::empty(), pairs: Seq::empty(), nums: None }),
        ),
        final(scratch).made@ == old(scratch).made@.push(r),
        final(scratch).dirty@ == old(scratch).dirty@,
{
    let ghost before = views(heap@);
    let r: usize = heap.len();
    let t = Table::new();
    let ghost fresh = t@;
    heap.push(t);
    scratch.note_made(r);
    assert(fresh =~= (TableView { arr: Seq::empty(), pairs: Seq::empty(), nums: None }));
    assert(views(heap@) =~= before.push(fresh));
    r
}

/// What a field of a table holds for compiled code: a table, nothing where it
/// is nil, and a trap for anything else.
pub open spec fn field_of(heap: Seq<TableView>, t: Option<usize>, name: Seq<char>) -> Option<
    Option<usize>,
> {
    match named(heap, t) {
        Some(v) => match table::t_get(v, KeyVal::Str(name)) {
            Val::Table(e) => Some(Some(e)),
            Val::Nil => Some(None),
            _ => None,
        },
        None => None,
    }
}

/// The table at `t.name`. A field holding nil answers none, which is what lets
/// compiled code walk to the end of a chain of them.
pub fn hook_field(heap: &Vec<Table>, t: Option<usize>, name: &RStr) -> (r: Option<Option<usize>>)
    ensures
        r == field_of(views(heap@), t, name@),
{
    match exists_at(heap, t) {
        Some(i) => match heap[i].get_field(name) {
            Value::Table(e) => Some(Some(e)),
            Value::Nil => Some(None),
            _ => None,
        },
        None => None,
    }
}

/// Write a table, or nil for none, into `t.name`.
pub fn hook_set_field(heap: &mut Vec<Table>, t: Option<usize>, name: &RStr, v: Option<usize>) -> (r:
    bool)
    requires
        dirty::all_wf(views(old(heap)@)),
    ensures
        dirty::all_wf(views(final(heap)@)),
        r == (named(views(old(heap)@), t) matches Some(x) && table::t_room(x)),
        r ==> changed(
            views(old(heap)@),
            views(final(heap)@),
            t->0,
            table::t_set(
                views(old(heap)@)[t->0 as int],
                KeyVal::Str(name@),
                match v {
                    Some(e) => Val::Table(e),
                    None => Val::Nil,
                },
            ),
        ),
        !r ==> final(heap)@ == old(heap)@,
{
    let ghost before = views(heap@);
    match exists_at(heap, t) {
        Some(i) => {
            assert(before[i as int] == heap@[i as int]@);
            if !heap[i].has_room() {
                return false;
            }
            let value: Value = match v {
                Some(e) => Value::Table(e),
                None => Value::Nil,
            };
            heap[i].set(Key::Str(name.clone()), value);
            assert(views(heap@) =~= before.update(i as int, heap@[i as int]@));
            true
        },
        None => false,
    }
}

/// What compiled code reads of a table is what a script reads there: a number at an
/// index, a table at an index, a table in a field.
pub proof fn lemma_hooks_read_as_scripts_do(heap: Seq<TableView>, t: usize, i: u64, name: Seq<char>)
    requires
        t < heap.len(),
    ensures
        number_at(heap[t as int], i) matches Some(n) ==> table::t_get(
            heap[t as int],
            KeyVal::Num(i),
        ) == Val::Num(n),
        element(heap, Some(t), i) matches Some(e) ==> table::t_get(heap[t as int], KeyVal::Num(i))
            == Val::Table(e),
        field_of(heap, Some(t), name) matches Some(Some(e)) ==> table::t_get(
            heap[t as int],
            KeyVal::Str(name),
        ) == Val::Table(e),
        field_of(heap, Some(t), name) == Some(None::<usize>) ==> table::t_get(
            heap[t as int],
            KeyVal::Str(name),
        ) is Nil,
{
}

/// What compiled code writes is what a script reads there afterwards, and the table
/// keeps its shape.
pub proof fn lemma_hooks_write_as_scripts_do(
    before: Seq<TableView>,
    after: Seq<TableView>,
    t: usize,
    i: u64,
    n: u64,
    other: KeyVal,
)
    requires
        t < before.len(),
        table::t_wf(before[t as int]),
        writable(before[t as int], i),
        changed(before, after, t, table::t_set(before[t as int], KeyVal::Num(i), Val::Num(n))),
    ensures
        table::t_get(after[t as int], KeyVal::Num(i)) == Val::Num(n),
        !table::same_place(KeyVal::Num(i), other) ==> table::t_get(after[t as int], other)
            == table::t_get(before[t as int], other),
        forall|k: int| 0 <= k < before.len() && k != t ==> after[k] == #[trigger] before[k],
{
    table::lemma_set(before[t as int], KeyVal::Num(i), Val::Num(n), other);
}

} // verus!
