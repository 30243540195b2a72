//! Values on their way into compiled code and back.
use crate::jit::kinds::Kind;
use crate::num;
use crate::table;
use crate::table::{Table, TableView};
use crate::value;
use crate::value::{Val, Value};
use crate::vm;
use vstd::prelude::*;

verus! {

/// The bits of the number one.
pub const ONE: u64 = 0x3ff0_0000_0000_0000;

/// What compiled code is handed: a number, or a table by its place.
#[derive(Clone, Copy, Debug, PartialEq, Eq, Structural)]
pub enum Arg {
    Num(u64),
    Table(usize),
}

/// Is every element a table of numbers at least this long?
pub open spec fn rows_fit(heap: Seq<TableView>, t: usize, min: u32) -> bool {
    t < heap.len() && forall|k: int|
        0 <= k < heap[t as int].arr.len() ==> row_fits(heap, #[trigger] heap[t as int].arr[k], min)
}

pub open spec fn row_fits(heap: Seq<TableView>, v: Val, min: u32) -> bool {
    match v {
        Val::Table(e) => {
            &&& e < heap.len()
            &&& heap[e as int].nums is Some || table::numbers(heap[e as int].arr) is Some
            &&& heap[e as int].arr.len() >= min
        },
        _ => false,
    }
}

/// One value, as what compiled code expects of that kind; or nothing, which
/// sends the call back to the interpreter.
pub open spec fn marshalled(heap: Seq<TableView>, v: Val, kind: Kind) -> Option<Arg> {
    match kind {
        Kind::Num => match v {
            Val::Num(n) => Some(Arg::Num(n)),
            _ => None,
        },
        Kind::Bool => match v {
            Val::Bool(b) => Some(
                Arg::Num(
                    if b {
                        ONE
                    } else {
                        0
                    },
                ),
            ),
            Val::Nil => Some(Arg::Num(0)),
            _ => None,
        },
        Kind::Dead => Some(Arg::Num(0)),
        Kind::Table | Kind::TableOut => match v {
            Val::Table(t) => Some(Arg::Table(t)),
            _ => None,
        },
        Kind::Tables { checked, min } => match v {
            Val::Table(t) => if !checked || rows_fit(heap, t, min) {
                Some(Arg::Table(t))
            } else {
                None
            },
            _ => None,
        },
        Kind::New => None,
    }
}

/// Is this table that one, or one of its elements?
pub open spec fn within(heap: Seq<TableView>, t: Val, outer: Val) -> bool {
    t == outer || match outer {
        Val::Table(o) => o < heap.len() && heap[o as int].arr.contains(t),
        _ => false,
    }
}

/// Compiled code reads one table through a view of its array part and appends
/// to another. If those are the same, or if the one is an element of the
/// other, an append would move what is being read.
pub open spec fn clash(heap: Seq<TableView>, vals: Seq<Val>, kinds: Seq<Kind>, i: int, j: int) -> bool {
    kinds[i] is TableOut && match kinds[j] {
        Kind::Table => vals[i] == vals[j],
        Kind::Tables { checked, min } => within(heap, vals[i], vals[j]),
        _ => false,
    }
}

/// The same for a loop, which appends to nothing that is an element.
pub open spec fn flat_clash(vals: Seq<Val>, kinds: Seq<Kind>, i: int, j: int) -> bool {
    kinds[i] is TableOut && kinds[j] is Table && vals[i] == vals[j]
}

pub open spec fn each_fits(heap: Seq<TableView>, vals: Seq<Val>, kinds: Seq<Kind>) -> bool {
    vals.len() == kinds.len() && forall|i: int|
        0 <= i < vals.len() ==> marshalled(heap, #[trigger] vals[i], kinds[i]) is Some
}

/// May a call with these values run compiled code?
pub open spec fn call_fits(heap: Seq<TableView>, vals: Seq<Val>, kinds: Seq<Kind>) -> bool {
    each_fits(heap, vals, kinds) && forall|i: int, j: int|
        0 <= i < vals.len() && 0 <= j < vals.len() ==> !#[trigger] clash(heap, vals, kinds, i, j)
}

/// May a loop with these values run compiled code?
pub open spec fn loop_fits(heap: Seq<TableView>, vals: Seq<Val>, kinds: Seq<Kind>) -> bool {
    each_fits(heap, vals, kinds) && forall|i: int, j: int|
        0 <= i < vals.len() && 0 <= j < vals.len() ==> !#[trigger] flat_clash(vals, kinds, i, j)
}

pub open spec fn all_marshalled(heap: Seq<TableView>, vals: Seq<Val>, kinds: Seq<Kind>) -> Seq<Arg> {
    Seq::new(vals.len(), |i: int| marshalled(heap, vals[i], kinds[i])->Some_0)
}

fn check_rows(heap: &Vec<Table>, t: usize, min: u32) -> (r: bool)
    ensures
        r == rows_fit(vm::table_views(heap@), t, min),
{
    let ghost h = vm::table_views(heap@);
    if t >= heap.len() {
        return false;
    }
    let n: usize = heap[t].len();
    let mut k: usize = 0;
    while k < n
        invariant
            t < heap@.len(),
            h == vm::table_views(heap@),
            n == h[t as int].arr.len(),
            k <= n,
            forall|m: int| 0 <= m < k ==> row_fits(h, #[trigger] h[t as int].arr[m], min),
        decreases n - k,
    {
        assert(heap@[t as int]@ == h[t as int]);
        let fits: bool = match heap[t].at(k) {
            Some(Value::Table(e)) => {
                if e < heap.len() {
                    assert(heap@[e as int]@ == h[e as int]);
                    heap[e].has_numbers() && heap[e].len() >= min as usize
                } else {
                    false
                }
            },
            _ => false,
        };
        assert(fits == row_fits(h, h[t as int].arr[k as int], min));
        if !fits {
            return false;
        }
        k = k + 1;
    }
    true
}

/// Turn one value into what compiled code expects.
pub fn rt_arg(heap: &Vec<Table>, v: &Value, kind: Kind) -> (r: Option<Arg>)
    ensures
        r == marshalled(vm::table_views(heap@), v@, kind),
{
    match kind {
        Kind::Num => match v {
            Value::Num(n) => Some(Arg::Num(*n)),
            _ => None,
        },
        Kind::Bool => match v {
            Value::Bool(b) => Some(
                Arg::Num(
                    if *b {
                        ONE
                    } else {
                        0
                    },
                ),
            ),
            Value::Nil => Some(Arg::Num(0)),
            _ => None,
        },
        Kind::Dead => Some(Arg::Num(0)),
        Kind::Table | Kind::TableOut => match v {
            Value::Table(t) => Some(Arg::Table(*t)),
            _ => None,
        },
        Kind::Tables { checked, min } => match v {
            Value::Table(t) => if !checked || check_rows(heap, *t, min) {
                Some(Arg::Table(*t))
            } else {
                None
            },
            _ => None,
        },
        Kind::New => None,
    }
}

/// Marshal every value, or none.
fn marshal_all(heap: &Vec<Table>, vals: &Vec<Value>, kinds: &Vec<Kind>) -> (r: Option<Vec<Arg>>)
    ensures
        match r {
            Some(out) => each_fits(vm::table_views(heap@), value::vals(vals@), kinds@) && out@
                == all_marshalled(vm::table_views(heap@), value::vals(vals@), kinds@),
            None => !each_fits(vm::table_views(heap@), value::vals(vals@), kinds@),
        },
{
    let ghost h = vm::table_views(heap@);
    let ghost vs = value::vals(vals@);
    if vals.len() != kinds.len() {
        return None;
    }
    let mut out: Vec<Arg> = Vec::new();
    let mut i: usize = 0;
    while i < vals.len()
        invariant
            h == vm::table_views(heap@),
            vs == value::vals(vals@),
            i <= vals@.len() == kinds@.len(),
            out@.len() == i,
            forall|k: int|
                0 <= k < i ==> marshalled(h, #[trigger] vs[k], kinds@[k]) == Some(out@[k]),
        decreases vals@.len() - i,
    {
        assert(vs[i as int] == vals@[i as int]@);
        match rt_arg(heap, &vals[i], kinds[i]) {
            Some(a) => out.push(a),
            None => {
                assert(marshalled(h, vs[i as int], kinds@[i as int]) is None);
                return None;
            },
        }
        i = i + 1;
    }
    assert(out@ =~= all_marshalled(h, vs, kinds@)) by {
        assert forall|k: int| 0 <= k < out@.len() implies out@[k] == marshalled(
            h,
            vs[k],
            kinds@[k],
        )->Some_0 by {
            assert(marshalled(h, vs[k], kinds@[k]) == Some(out@[k]));
        }
    }
    Some(out)
}

fn same_table(a: &Value, b: &Value) -> (r: bool)
    requires
        a@ is Table,
        b@ is Table,
    ensures
        r == (a@ == b@),
{
    match (a, b) {
        (Value::Table(x), Value::Table(y)) => *x == *y,
        _ => false,
    }
}

fn is_within(heap: &Vec<Table>, t: &Value, outer: &Value) -> (r: bool)
    requires
        t@ is Table,
        outer@ is Table,
    ensures
        r == within(vm::table_views(heap@), t@, outer@),
{
    let ghost h = vm::table_views(heap@);
    if same_table(t, outer) {
        return true;
    }
    match outer {
        Value::Table(o) => {
            let o: usize = *o;
            if o >= heap.len() {
                return false;
            }
            assert(heap@[o as int]@ == h[o as int]);
            let n: usize = heap[o].len();
            let mut k: usize = 0;
            while k < n
                invariant
                    o < heap@.len(),
                    heap@[o as int]@ == h[o as int],
                    outer@ == Val::Table(o),
                    h == vm::table_views(heap@),
                    t@ is Table,
                    n == h[o as int].arr.len(),
                    k <= n,
                    forall|m: int| 0 <= m < k ==> #[trigger] h[o as int].arr[m] != t@,
                decreases n - k,
            {
                match heap[o].at(k) {
                    Some(Value::Table(e)) => {
                        if same_table(&Value::Table(e), t) {
                            assert(h[o as int].arr[k as int] == t@);
                            return true;
                        }
                    },
                    _ => {},
                }
                k = k + 1;
            }
            false
        },
        _ => false,
    }
}

/// Turn the arguments of a call into what compiled code expects, or nothing
/// when they are not what it was compiled for.
pub fn compiled_args(heap: &Vec<Table>, vals: &Vec<Value>, kinds: &Vec<Kind>) -> (r: Option<
    Vec<Arg>,
>)
    ensures
        match r {
            Some(out) => call_fits(vm::table_views(heap@), value::vals(vals@), kinds@) && out@
                == all_marshalled(vm::table_views(heap@), value::vals(vals@), kinds@),
            None => !call_fits(vm::table_views(heap@), value::vals(vals@), kinds@),
        },
{
    let ghost h = vm::table_views(heap@);
    let ghost vs = value::vals(vals@);
    let out = match marshal_all(heap, vals, kinds) {
        Some(out) => out,
        None => {
            return None;
        },
    };
    let mut i: usize = 0;
    while i < kinds.len()
        invariant
            h == vm::table_views(heap@),
            vs == value::vals(vals@),
            each_fits(h, vs, kinds@),
            i <= kinds@.len() == vals@.len(),
            forall|a: int, b: int|
                0 <= a < i && 0 <= b < vs.len() ==> !#[trigger] clash(h, vs, kinds@, a, b),
        decreases kinds@.len() - i,
    {
        let mut j: usize = 0;
        while j < kinds.len()
            invariant
                h == vm::table_views(heap@),
                vs == value::vals(vals@),
                each_fits(h, vs, kinds@),
                i < kinds@.len() == vals@.len(),
                j <= kinds@.len(),
                forall|b: int| 0 <= b < j ==> !#[trigger] clash(h, vs, kinds@, i as int, b),
            decreases kinds@.len() - j,
        {
            assert(marshalled(h, vs[i as int], kinds@[i as int]) is Some);
            assert(marshalled(h, vs[j as int], kinds@[j as int]) is Some);
            if kinds[i] == Kind::TableOut {
                let bad: bool = match kinds[j] {
                    Kind::Table => same_table(&vals[i], &vals[j]),
                    Kind::Tables { checked, min } => is_within(heap, &vals[i], &vals[j]),
                    _ => false,
                };
                assert(bad == clash(h, vs, kinds@, i as int, j as int));
                if bad {
                    return None;
                }
            }
            j = j + 1;
        }
        i = i + 1;
    }
    Some(out)
}

/// The same for the slots of a loop.
pub fn loop_args(heap: &Vec<Table>, vals: &Vec<Value>, kinds: &Vec<Kind>) -> (r: Option<Vec<Arg>>)
    ensures
        match r {
            Some(out) => loop_fits(vm::table_views(heap@), value::vals(vals@), kinds@) && out@
                == all_marshalled(vm::table_views(heap@), value::vals(vals@), kinds@),
            None => !loop_fits(vm::table_views(heap@), value::vals(vals@), kinds@),
        },
{
    let ghost h = vm::table_views(heap@);
    let ghost vs = value::vals(vals@);
    let out = match marshal_all(heap, vals, kinds) {
        Some(out) => out,
        None => {
            return None;
        },
    };
    let mut i: usize = 0;
    while i < kinds.len()
        invariant
            vs == value::vals(vals@),
            each_fits(h, vs, kinds@),
            i <= kinds@.len() == vals@.len(),
            forall|a: int, b: int|
                0 <= a < i && 0 <= b < vs.len() ==> !#[trigger] flat_clash(vs, kinds@, a, b),
        decreases kinds@.len() - i,
    {
        let mut j: usize = 0;
        while j < kinds.len()
            invariant
                vs == value::vals(vals@),
                each_fits(h, vs, kinds@),
                i < kinds@.len() == vals@.len(),
                j <= kinds@.len(),
                forall|b: int| 0 <= b < j ==> !#[trigger] flat_clash(vs, kinds@, i as int, b),
            decreases kinds@.len() - j,
        {
            assert(marshalled(h, vs[i as int], kinds@[i as int]) is Some);
            assert(marshalled(h, vs[j as int], kinds@[j as int]) is Some);
            if kinds[i] == Kind::TableOut && kinds[j] == Kind::Table {
                if same_table(&vals[i], &vals[j]) {
                    assert(flat_clash(vs, kinds@, i as int, j as int));
                    return None;
                }
            }
            j = j + 1;
        }
        i = i + 1;
    }
    Some(out)
}

/// What a slot holds once a loop has run: a number, a flag as the boolean it
/// is, or the table it held.
pub open spec fn brought_back(kind: Kind, bits: u64, was: Val) -> Val {
    match kind {
        Kind::Num | Kind::Dead => Val::Num(bits),
        Kind::Bool => Val::Bool(!num::equal(bits, 0)),
        _ => was,
    }
}

pub fn bring_back(kind: Kind, bits: u64, was: &Value) -> (r: Value)
    ensures
        r@ == brought_back(kind, bits, was@),
{
    match kind {
        Kind::Num | Kind::Dead => Value::Num(bits),
        Kind::Bool => Value::Bool(!num::num_eq(bits, 0)),
        _ => was.clone(),
    }
}

/// The value of a compiled call that did not give up: the table it made, nil,
/// or a number. A table that was promised and not made sends the call back.
pub open spec fn call_result(
    returns_table: bool,
    returns_nil: bool,
    bits: u64,
    made: Option<usize>,
) -> Option<Val> {
    if returns_table {
        match made {
            Some(t) => Some(Val::Table(t)),
            None => None,
        }
    } else if returns_nil {
        Some(Val::Nil)
    } else {
        Some(Val::Num(bits))
    }
}

pub fn result_of(returns_table: bool, returns_nil: bool, bits: u64, made: Option<usize>) -> (r:
    Option<Value>)
    ensures
        match r {
            Some(v) => call_result(returns_table, returns_nil, bits, made) == Some(v@),
            None => call_result(returns_table, returns_nil, bits, made) is None,
        },
{
    if returns_table {
        match made {
            Some(t) => Some(Value::Table(t)),
            None => None,
        }
    } else if returns_nil {
        Some(Value::Nil)
    } else {
        Some(Value::Num(bits))
    }
}

/// A flag that goes in and comes back untouched is the flag it was.
pub proof fn lemma_flag_round_trip(heap: Seq<TableView>, b: bool)
    ensures
        marshalled(heap, Val::Bool(b), Kind::Bool) matches Some(Arg::Num(bits)) && brought_back(
            Kind::Bool,
            bits,
            Val::Bool(b),
        ) == Val::Bool(b),
{
    assert(!num::equal(ONE, 0)) by (bit_vector);
    assert(num::equal(0, 0)) by (bit_vector);
}

/// What crosses over is what it was: a number is that number, a table that table, and
/// what is neither does not cross as one. What comes back untouched is what went in,
/// and a table stays the table it was whatever came back for it.
pub proof fn lemma_what_crosses(heap: Seq<TableView>, v: Val, bits: u64, min: u32)
    ensures
        marshalled(heap, v, Kind::Num) == if v is Num {
            Some(Arg::Num(v->Num_0))
        } else {
            None
        },
        v is Num ==> brought_back(Kind::Num, v->Num_0, v) == v,
        v is Table ==> marshalled(heap, v, Kind::Table) == Some(Arg::Table(v->Table_0))
            && marshalled(heap, v, Kind::TableOut) == Some(Arg::Table(v->Table_0)),
        !(v is Table) ==> marshalled(heap, v, Kind::Table) is None && marshalled(
            heap,
            v,
            Kind::TableOut,
        ) is None,
        brought_back(Kind::Table, bits, v) == v,
        brought_back(Kind::TableOut, bits, v) == v,
        v is Num || v is Table || v is Str ==> marshalled(heap, v, Kind::Bool) is None,
        marshalled(heap, v, (Kind::Tables { checked: true, min })) is Some ==> (v matches Val::Table(t)
            && t < heap.len() && forall|k: int|
            0 <= k < heap[t as int].arr.len() ==> ((#[trigger] heap[t as int].arr[k]) matches Val::Table(
                e,
            ) && e < heap.len() && heap[e as int].arr.len() >= min)),
{
    if marshalled(heap, v, (Kind::Tables { checked: true, min })) is Some {
        let t = v->Table_0;
        assert(rows_fit(heap, t, min));
        assert forall|k: int| 0 <= k < heap[t as int].arr.len() implies (
        (#[trigger] heap[t as int].arr[k]) matches Val::Table(e) && e < heap.len()
            && heap[e as int].arr.len() >= min) by {
            assert(row_fits(heap, heap[t as int].arr[k], min));
        }
    }
}

} // verus!
