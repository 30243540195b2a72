//! What code on numbers means: the tree a region is read as, and the code it is
//! lowered to, each as a function of the locals.
//!
//! Sums, and what functions of numbers give, are the machine's: they are
//! handed in, and both sides use the same. A loop may go round for ever, so how
//! far a meaning is followed is handed in as well.
use super::flags;
use super::ir::{
    Cond, Ir, IrArgs, IrBlock, IrElse, IrIf, IrList, IrSlots, IrStat, IrStats, IrTail, IrValues, MathFn,
};
use super::lowering;
use super::walk;
use crate::ast::{BinOp, Block, Expr, Stat, UnOp};
use crate::machine::ONE;
use crate::num;
use vstd::prelude::*;

verus! {

/// How a function that is called is named.
pub ghost enum Callee {
    Global(Seq<char>),
    Upval(u16),
}

/// What the machine computes, and what functions that are called give: nothing,
/// where a call was not followed so far.
pub ghost struct Sums {
    pub bin: spec_fn(BinOp, u64, u64) -> u64,
    pub math: spec_fn(MathFn, Seq<u64>) -> u64,
    /// What a call gives, by what is called.
    pub call: spec_fn(Callee, Seq<u64>) -> Option<u64>,
    /// What compiled code gives: the function itself, one compiled beside it.
    pub own: spec_fn(Seq<u64>) -> Option<u64>,
    pub beside: spec_fn(usize, Seq<u64>) -> Option<u64>,
    /// One the runtime keeps, by its place, and what is kept at each place.
    pub through: spec_fn(usize, Seq<u64>) -> Option<u64>,
    pub direct: Seq<Seq<char>>,
}

/// What a function that is called gives.
pub open spec fn called(q: Sums, c: Callee, xs: Seq<u64>) -> Option<u64> {
    (q.call)(c, xs)
}

/// The function an expression names, if it names one.
pub open spec fn callee_of(f: Expr) -> Option<Callee> {
    match f {
        Expr::Global(name, _) => Some(Callee::Global(name@)),
        Expr::Upval(i, _) => Some(Callee::Upval(i)),
        _ => None,
    }
}

/// How a call ends that gives this.
pub open spec fn gave<M>(v: Option<u64>, m: M) -> Ends<M> {
    match v {
        Some(x) => Ends::Num(x, m),
        None => Ends::Late,
    }
}

/// What a local holds.
pub enum Cell {
    Num(u64),
    Flag(bool),
}

/// How compiled code carries what a local holds: a flag is one or zero.
pub open spec fn carried(c: Cell) -> u64 {
    match c {
        Cell::Num(x) => x,
        Cell::Flag(b) => if b {
            ONE
        } else {
            0
        },
    }
}

pub open spec fn carry(f: Map<u16, Cell>) -> Map<u16, u64> {
    f.map_values(|c: Cell| carried(c))
}

pub open spec fn carry_all(cs: Seq<Cell>) -> Seq<u64> {
    cs.map_values(|c: Cell| carried(c))
}

/// Where control goes when it does not go on.
pub enum Exit {
    Break,
    /// To the next turn of a loop, by the label its body is left by.
    Next(Option<u32>),
    Return(Option<u64>),
}

/// How a piece of code ends, and the locals then.
pub ghost enum Ends<M> {
    Num(u64, M),
    Truth(bool, M),
    Many(Seq<u64>, M),
    Cells(Seq<Cell>, M),
    Done(M),
    Out(Exit, M),
    /// It is no code on numbers: a flag is used as a number, or a number as a
    /// condition.
    Wrong,
    /// It was not followed so far.
    Late,
}

/// What an end that is not the one hoped for leads to.
pub open spec fn passed<M>(a: Ends<M>) -> Ends<M> {
    match a {
        Ends::Out(x, m) => Ends::Out(x, m),
        Ends::Late => Ends::Late,
        _ => Ends::Wrong,
    }
}

pub open spec fn compared(op: BinOp, x: u64, y: u64) -> bool {
    match op {
        BinOp::Lt => num::less(x, y),
        BinOp::Le => num::less_or_equal(x, y),
        BinOp::Gt => num::less(y, x),
        BinOp::Ge => num::less_or_equal(y, x),
        BinOp::Eq => num::equal(x, y),
        _ => !num::equal(x, y),
    }
}

/// Does a counted loop go round with its counter at `x`?
pub open spec fn goes_round(x: u64, end: u64, inclusive: bool) -> bool {
    if inclusive {
        num::less_or_equal(x, end)
    } else {
        num::less(x, end)
    }
}

// ---- the tree ----------------------------------------------------------------------------

/// The number in a local.
pub open spec fn t_local(f: Map<u16, Cell>, slot: u16) -> Ends<Map<u16, Cell>> {
    if f.contains_key(slot) {
        match f[slot] {
            Cell::Num(x) => Ends::Num(x, f),
            Cell::Flag(_) => Ends::Wrong,
        }
    } else {
        Ends::Wrong
    }
}

pub open spec fn holds_flag(f: Map<u16, Cell>, slot: u16) -> bool {
    f.contains_key(slot) && f[slot] is Flag
}

/// An expression whose value is a number.
pub open spec fn t_expr(q: Sums, n: nat, f: Map<u16, Cell>, e: Expr) -> Ends<Map<u16, Cell>>
    decreases n, e, 2int, 0int,
{
    match e {
        Expr::Num(x) => Ends::Num(x, f),
        Expr::Local(b, _) => t_local(f, b.slot),
        Expr::Un(op, a) => if op == UnOp::Not {
            Ends::Wrong
        } else {
            match t_expr(q, n, f, *a) {
                Ends::Num(x, f1) => Ends::Num(num::negated(x), f1),
                other => passed(other),
            }
        },
        Expr::Bin(op, a, b) => if lowering::arithmetic(op) {
            match t_expr(q, n, f, *a) {
                Ends::Num(x, f1) => match t_expr(q, n, f1, *b) {
                    Ends::Num(y, f2) => Ends::Num((q.bin)(op, x, y), f2),
                    other => passed(other),
                },
                other => passed(other),
            }
        } else {
            Ends::Wrong
        },
        Expr::Call(g, args) => match lowering::math_name(*g) {
            Some(k) => match t_exprs(q, n, f, args@) {
                Ends::Many(xs, f1) => t_math(q, k, xs, f1),
                other => passed(other),
            },
            None => match callee_of(*g) {
                Some(c) => match t_exprs(q, n, f, args@) {
                    Ends::Many(xs, f1) => gave(called(q, c, xs), f1),
                    other => passed(other),
                },
                None => Ends::Wrong,
            },
        },
        Expr::Method(obj, name, args) => match t_expr(q, n, f, *obj) {
            Ends::Num(x, f1) => match t_exprs(q, n, f1, args@) {
                Ends::Many(xs, f2) => t_math(q, name@, seq![x] + xs, f2),
                other => passed(other),
            },
            other => passed(other),
        },
        Expr::Do(b) => t_block(q, n, f, b, true),
        Expr::If(_, _) => t_if(q, n, f, e, 0, true),
        _ => Ends::Wrong,
    }
}

/// A function of numbers applied to the first and the rest.
pub open spec fn t_math(q: Sums, name: Seq<char>, xs: Seq<u64>, f: Map<u16, Cell>) -> Ends<
    Map<u16, Cell>,
> {
    match lowering::math_fn(name) {
        Some((g, want)) => if xs.len() == want + 1 {
            Ends::Num((q.math)(g, xs), f)
        } else {
            Ends::Wrong
        },
        None => Ends::Wrong,
    }
}

pub open spec fn t_exprs(q: Sums, n: nat, f: Map<u16, Cell>, es: Seq<Expr>) -> Ends<Map<u16, Cell>>
    decreases n, es, 3int, 0int,
{
    if es.len() == 0 {
        Ends::Many(Seq::empty(), f)
    } else {
        match t_expr(q, n, f, es[0]) {
            Ends::Num(x, f1) => match t_exprs(q, n, f1, es.drop_first()) {
                Ends::Many(xs, f2) => Ends::Many(seq![x] + xs, f2),
                other => passed(other),
            },
            other => passed(other),
        }
    }
}

/// A condition, which is a boolean and nothing else.
pub open spec fn t_cond(q: Sums, n: nat, f: Map<u16, Cell>, e: Expr) -> Ends<Map<u16, Cell>>
    decreases n, e, 2int, 0int,
{
    match e {
        Expr::Bool(b) => Ends::Truth(b, f),
        Expr::Bin(op, a, b) => if flags::compares(op) {
            match t_expr(q, n, f, *a) {
                Ends::Num(x, f1) => match t_expr(q, n, f1, *b) {
                    Ends::Num(y, f2) => Ends::Truth(compared(op, x, y), f2),
                    other => passed(other),
                },
                other => passed(other),
            }
        } else if op == BinOp::And || op == BinOp::Or {
            match t_cond(q, n, f, *a) {
                Ends::Truth(x, f1) => if x == (op == BinOp::And) {
                    t_cond(q, n, f1, *b)
                } else {
                    Ends::Truth(x, f1)
                },
                other => passed(other),
            }
        } else {
            Ends::Wrong
        },
        Expr::Un(op, a) => if op == UnOp::Not {
            match t_cond(q, n, f, *a) {
                Ends::Truth(x, f1) => Ends::Truth(!x, f1),
                other => passed(other),
            }
        } else {
            Ends::Wrong
        },
        Expr::Local(b, _) => if f.contains_key(b.slot) {
            match f[b.slot] {
                Cell::Flag(x) => Ends::Truth(x, f),
                Cell::Num(_) => Ends::Wrong,
            }
        } else {
            Ends::Wrong
        },
        _ => Ends::Wrong,
    }
}

/// The arms of an `if` from `i` on.
pub open spec fn t_if(q: Sums, n: nat, f: Map<u16, Cell>, e: Expr, i: nat, want: bool) -> Ends<
    Map<u16, Cell>,
>
    decreases
            n,
            e,
            1int,
            (match e {
                Expr::If(arms, _) => arms@.len() - i,
                _ => 0,
            }),
{
    match e {
        Expr::If(arms, els) => if i >= arms@.len() {
            Ends::Wrong
        } else {
            match t_cond(q, n, f, arms@[i as int].0) {
                Ends::Truth(x, f1) => if x {
                    t_block(q, n, f1, arms@[i as int].1, want)
                } else if i + 1 < arms@.len() {
                    t_if(q, n, f1, e, i + 1, want)
                } else {
                    match els {
                        Some(b) => t_block(q, n, f1, b, want),
                        None => if want {
                            Ends::Wrong
                        } else {
                            Ends::Done(f1)
                        },
                    }
                },
                other => passed(other),
            }
        },
        _ => Ends::Wrong,
    }
}

/// An expression whose value nobody wants.
pub open spec fn t_unit(q: Sums, n: nat, f: Map<u16, Cell>, e: Expr) -> Ends<Map<u16, Cell>>
    decreases n, e, 3int, 0int,
{
    match e {
        Expr::Do(b) => t_block(q, n, f, b, false),
        Expr::If(_, _) => t_if(q, n, f, e, 0, false),
        _ => match t_expr(q, n, f, e) {
            Ends::Num(_, f1) => Ends::Done(f1),
            other => passed(other),
        },
    }
}

pub open spec fn t_stats(q: Sums, n: nat, f: Map<u16, Cell>, stats: Seq<Stat>) -> Ends<Map<u16, Cell>>
    decreases n, stats, 3int, 0int,
{
    if stats.len() == 0 {
        Ends::Done(f)
    } else {
        match t_stat(q, n, f, stats[0]) {
            Ends::Done(f1) => t_stats(q, n, f1, stats.drop_first()),
            other => passed(other),
        }
    }
}

/// A block: its statements, and the value it ends in if one is wanted.
pub open spec fn t_block(q: Sums, n: nat, f: Map<u16, Cell>, b: Block, want: bool) -> Ends<
    Map<u16, Cell>,
>
    decreases n, b, 3int, 0int,
{
    match t_stats(q, n, f, b.stats@) {
        Ends::Done(f1) => match b.tail {
            Some(e) => if want {
                t_expr(q, n, f1, *e)
            } else {
                t_unit(q, n, f1, *e)
            },
            None => if want {
                Ends::Wrong
            } else {
                Ends::Done(f1)
            },
        },
        other => passed(other),
    }
}

/// The values of a `let`: what is written as a condition is a flag.
pub open spec fn t_values(q: Sums, n: nat, f: Map<u16, Cell>, es: Seq<Expr>) -> Ends<Map<u16, Cell>>
    decreases n, es, 3int, 0int,
{
    if es.len() == 0 {
        Ends::Cells(Seq::empty(), f)
    } else if flags::bool_like(es[0]) {
        match t_cond(q, n, f, es[0]) {
            Ends::Truth(x, f1) => match t_values(q, n, f1, es.drop_first()) {
                Ends::Cells(cs, f2) => Ends::Cells(seq![Cell::Flag(x)] + cs, f2),
                other => passed(other),
            },
            other => passed(other),
        }
    } else {
        match t_expr(q, n, f, es[0]) {
            Ends::Num(x, f1) => match t_values(q, n, f1, es.drop_first()) {
                Ends::Cells(cs, f2) => Ends::Cells(seq![Cell::Num(x)] + cs, f2),
                other => passed(other),
            },
            other => passed(other),
        }
    }
}

/// The values of an assignment: a local that is a flag stays one.
pub open spec fn t_assigned(
    q: Sums,
    n: nat,
    f: Map<u16, Cell>,
    ts: Seq<Expr>,
    es: Seq<Expr>,
) -> Ends<Map<u16, Cell>>
    decreases n, es, 3int, 0int,
{
    if es.len() == 0 {
        Ends::Cells(Seq::empty(), f)
    } else if (match walk::local_slot(ts[0]) {
        Some(slot) => holds_flag(f, slot),
        None => false,
    }) {
        match t_cond(q, n, f, es[0]) {
            Ends::Truth(x, f1) => match t_assigned(q, n, f1, ts.drop_first(), es.drop_first()) {
                Ends::Cells(cs, f2) => Ends::Cells(seq![Cell::Flag(x)] + cs, f2),
                other => passed(other),
            },
            other => passed(other),
        }
    } else {
        match t_expr(q, n, f, es[0]) {
            Ends::Num(x, f1) => match t_assigned(q, n, f1, ts.drop_first(), es.drop_first()) {
                Ends::Cells(cs, f2) => Ends::Cells(seq![Cell::Num(x)] + cs, f2),
                other => passed(other),
            },
            other => passed(other),
        }
    }
}

/// The locals once each of some slots has been given its value, in order.
pub open spec fn bound_all(f: Map<u16, Cell>, slots: Seq<u16>, cs: Seq<Cell>) -> Map<u16, Cell>
    decreases slots.len(),
{
    if slots.len() == 0 || cs.len() == 0 {
        f
    } else {
        bound_all(f.insert(slots[0], cs[0]), slots.drop_first(), cs.drop_first())
    }
}

/// The slots of some targets; one that is no local has none.
pub open spec fn targets(ts: Seq<Expr>) -> Option<Seq<u16>>
    decreases ts.len(),
{
    if ts.len() == 0 {
        Some(Seq::empty())
    } else {
        match (walk::local_slot(ts[0]), targets(ts.drop_first())) {
            (Some(slot), Some(rest)) => Some(seq![slot] + rest),
            _ => None,
        }
    }
}

/// Go round while a condition holds; with none, until something leaves.
pub open spec fn t_while(q: Sums, n: nat, f: Map<u16, Cell>, c: Option<Expr>, b: Block) -> Ends<
    Map<u16, Cell>,
>
    decreases n, b, 5int, 0int,
{
    if n == 0 {
        Ends::Late
    } else {
        let test = match c {
            Some(e) => t_cond(q, (n - 1) as nat, f, e),
            None => Ends::Truth(true, f),
        };
        match test {
            Ends::Truth(x, f1) => if !x {
                Ends::Done(f1)
            } else {
                match t_block(q, (n - 1) as nat, f1, b, false) {
                    Ends::Done(f2) => t_while(q, (n - 1) as nat, f2, c, b),
                    Ends::Out(x, f2) => match x {
                        Exit::Break => Ends::Done(f2),
                        Exit::Next(_) => t_while(q, (n - 1) as nat, f2, c, b),
                        Exit::Return(_) => Ends::Out(x, f2),
                    },
                    other => passed(other),
                }
            },
            other => passed(other),
        }
    }
}

/// Count a local up to an end.
pub open spec fn t_count(
    q: Sums,
    n: nat,
    f: Map<u16, Cell>,
    slot: u16,
    end: u64,
    inclusive: bool,
    b: Block,
) -> Ends<Map<u16, Cell>>
    decreases n, b, 5int, 0int,
{
    if n == 0 {
        Ends::Late
    } else {
        match t_local(f, slot) {
            Ends::Num(x, _) => if !goes_round(x, end, inclusive) {
                Ends::Done(f)
            } else {
                match t_block(q, (n - 1) as nat, f, b, false) {
                    Ends::Done(f1) => t_stepped(q, n, f1, slot, end, inclusive, b),
                    Ends::Out(x, f1) => match x {
                        Exit::Break => Ends::Done(f1),
                        Exit::Next(_) => t_stepped(q, n, f1, slot, end, inclusive, b),
                        Exit::Return(_) => Ends::Out(x, f1),
                    },
                    other => passed(other),
                }
            },
            other => passed(other),
        }
    }
}

/// The same, once the counter has gone up by one.
pub open spec fn t_stepped(
    q: Sums,
    n: nat,
    f: Map<u16, Cell>,
    slot: u16,
    end: u64,
    inclusive: bool,
    b: Block,
) -> Ends<Map<u16, Cell>>
    decreases n, b, 4int, 0int,
{
    if n == 0 {
        Ends::Late
    } else {
        match t_local(f, slot) {
            Ends::Num(x, _) => t_count(
                q,
                (n - 1) as nat,
                f.insert(slot, Cell::Num((q.bin)(BinOp::Add, x, ONE))),
                slot,
                end,
                inclusive,
                b,
            ),
            other => passed(other),
        }
    }
}

/// One statement.
pub open spec fn t_stat(q: Sums, n: nat, f: Map<u16, Cell>, st: Stat) -> Ends<Map<u16, Cell>>
    decreases n, st, 3int, 0int,
{
    match st {
        Stat::LetSlots(bs, es) => if bs@.len() != es@.len() {
            Ends::Wrong
        } else {
            match t_values(q, n, f, es@) {
                Ends::Cells(cs, f1) => Ends::Done(bound_all(f1, walk::slots_of(bs@), cs)),
                other => passed(other),
            }
        },
        Stat::Assign(ts, es) => if ts@.len() != es@.len() {
            Ends::Wrong
        } else {
            match t_assigned(q, n, f, ts@, es@) {
                Ends::Cells(cs, f1) => match targets(ts@) {
                    Some(slots) => Ends::Done(bound_all(f1, slots, cs)),
                    None => Ends::Wrong,
                },
                other => passed(other),
            }
        },
        Stat::OpAssign(t, op, e) => match walk::local_slot(t) {
            Some(slot) => match t_expr(q, n, f, e) {
                Ends::Num(y, f1) => match t_local(f1, slot) {
                    Ends::Num(x, _) => Ends::Done(
                        f1.insert(slot, Cell::Num((q.bin)(op, x, y))),
                    ),
                    other => passed(other),
                },
                other => passed(other),
            },
            None => Ends::Wrong,
        },
        Stat::Return(es) => if es@.len() == 0 {
            Ends::Out(Exit::Return(None), f)
        } else if es@.len() == 1 {
            match t_expr(q, n, f, es@[0]) {
                Ends::Num(x, f1) => Ends::Out(Exit::Return(Some(x)), f1),
                other => passed(other),
            }
        } else {
            Ends::Wrong
        },
        Stat::Break => Ends::Out(Exit::Break, f),
        Stat::Continue => Ends::Out(Exit::Next(None), f),
        Stat::While(_, c, b) => t_while(q, n, f, Some(c), b),
        Stat::Loop(_, b) => t_while(q, n, f, None, b),
        Stat::ForRange { id, var, binding, start, end, inclusive, body } => match binding {
            Some(b) => match t_expr(q, n, f, start) {
                Ends::Num(x, f1) => match t_expr(q, n, f1, end) {
                    Ends::Num(y, f2) => t_count(
                        q,
                        n,
                        f2.insert(b.slot, Cell::Num(x)),
                        b.slot,
                        y,
                        inclusive,
                        body,
                    ),
                    other => passed(other),
                },
                other => passed(other),
            },
            None => Ends::Wrong,
        },
        Stat::Expr(e) => t_unit(q, n, f, e),
        Stat::TypeAlias(..) => Ends::Done(f),
        _ => Ends::Wrong,
    }
}

// ---- the lowered code --------------------------------------------------------------------

pub open spec fn i_local(r: Map<u16, u64>, slot: u16) -> Ends<Map<u16, u64>> {
    if r.contains_key(slot) {
        Ends::Num(r[slot], r)
    } else {
        Ends::Wrong
    }
}

/// A number.
pub open spec fn i_num(q: Sums, n: nat, r: Map<u16, u64>, x: Ir) -> Ends<Map<u16, u64>>
    decreases n, x, 2int,
{
    match x {
        Ir::Num(b) => Ends::Num(b, r),
        Ir::Local(slot) => i_local(r, slot),
        Ir::Neg(a) => match i_num(q, n, r, *a) {
            Ends::Num(v, r1) => Ends::Num(num::negated(v), r1),
            other => passed(other),
        },
        Ir::Bin(op, a, b) => match i_num(q, n, r, *a) {
            Ends::Num(v, r1) => match i_num(q, n, r1, *b) {
                Ends::Num(w, r2) => Ends::Num((q.bin)(op, v, w), r2),
                other => passed(other),
            },
            other => passed(other),
        },
        Ir::Math(g, a, rest) => match i_num(q, n, r, *a) {
            Ends::Num(v, r1) => match i_list(q, n, r1, *rest) {
                Ends::Many(vs, r2) => Ends::Num((q.math)(g, seq![v] + vs), r2),
                other => passed(other),
            },
            other => passed(other),
        },
        Ir::Block(b) => i_block(q, n, r, *b),
        Ir::If(i) => i_if(q, n, r, *i),
        Ir::CallSelf(args) => match i_args(q, n, r, *args) {
            Ends::Many(vs, r1) => gave((q.own)(vs), r1),
            other => passed(other),
        },
        Ir::CallBeside(id, args) => match i_args(q, n, r, *args) {
            Ends::Many(vs, r1) => gave((q.beside)(id, vs), r1),
            other => passed(other),
        },
        Ir::CallThrough(i, args) => match i_args(q, n, r, *args) {
            Ends::Many(vs, r1) => gave((q.through)(i, vs), r1),
            other => passed(other),
        },
        _ => Ends::Wrong,
    }
}

/// Arguments: numbers, and what a local holds.
pub open spec fn i_args(q: Sums, n: nat, r: Map<u16, u64>, x: IrArgs) -> Ends<Map<u16, u64>>
    decreases n, x, 2int,
{
    match x {
        IrArgs::End => Ends::Many(Seq::empty(), r),
        IrArgs::Num(a, rest) => match i_num(q, n, r, *a) {
            Ends::Num(v, r1) => match i_args(q, n, r1, *rest) {
                Ends::Many(vs, r2) => Ends::Many(seq![v] + vs, r2),
                other => passed(other),
            },
            other => passed(other),
        },
        IrArgs::Table(slot, rest) => match i_local(r, slot) {
            Ends::Num(v, r1) => match i_args(q, n, r1, *rest) {
                Ends::Many(vs, r2) => Ends::Many(seq![v] + vs, r2),
                other => passed(other),
            },
            other => passed(other),
        },
    }
}

pub open spec fn i_list(q: Sums, n: nat, r: Map<u16, u64>, x: IrList) -> Ends<Map<u16, u64>>
    decreases n, x, 2int,
{
    match x {
        IrList::End => Ends::Many(Seq::empty(), r),
        IrList::Item(a, rest) => match i_num(q, n, r, *a) {
            Ends::Num(v, r1) => match i_list(q, n, r1, *rest) {
                Ends::Many(vs, r2) => Ends::Many(seq![v] + vs, r2),
                other => passed(other),
            },
            other => passed(other),
        },
    }
}

/// A condition.
pub open spec fn i_cond(q: Sums, n: nat, r: Map<u16, u64>, x: Cond) -> Ends<Map<u16, u64>>
    decreases n, x, 2int,
{
    match x {
        Cond::Lit(b) => Ends::Truth(b, r),
        Cond::Compare(op, a, b) => match i_num(q, n, r, *a) {
            Ends::Num(v, r1) => match i_num(q, n, r1, *b) {
                Ends::Num(w, r2) => Ends::Truth(compared(op, v, w), r2),
                other => passed(other),
            },
            other => passed(other),
        },
        Cond::And(a, b) => match i_cond(q, n, r, *a) {
            Ends::Truth(v, r1) => if v {
                i_cond(q, n, r1, *b)
            } else {
                Ends::Truth(false, r1)
            },
            other => passed(other),
        },
        Cond::Or(a, b) => match i_cond(q, n, r, *a) {
            Ends::Truth(v, r1) => if v {
                Ends::Truth(true, r1)
            } else {
                i_cond(q, n, r1, *b)
            },
            other => passed(other),
        },
        Cond::Not(a) => match i_cond(q, n, r, *a) {
            Ends::Truth(v, r1) => Ends::Truth(!v, r1),
            other => passed(other),
        },
        Cond::Flag(slot) => match i_local(r, slot) {
            Ends::Num(v, r1) => Ends::Truth(!num::equal(v, 0), r1),
            other => passed(other),
        },
        Cond::Subject(_) => Ends::Wrong,
    }
}

pub open spec fn i_values(q: Sums, n: nat, r: Map<u16, u64>, x: IrValues) -> Ends<Map<u16, u64>>
    decreases n, x, 2int,
{
    match x {
        IrValues::End => Ends::Many(Seq::empty(), r),
        IrValues::Num(a, rest) => match i_num(q, n, r, *a) {
            Ends::Num(v, r1) => match i_values(q, n, r1, *rest) {
                Ends::Many(vs, r2) => Ends::Many(seq![v] + vs, r2),
                other => passed(other),
            },
            other => passed(other),
        },
        IrValues::Flag(c, rest) => match i_cond(q, n, r, *c) {
            Ends::Truth(v, r1) => match i_values(q, n, r1, *rest) {
                Ends::Many(vs, r2) => Ends::Many(seq![carried(Cell::Flag(v))] + vs, r2),
                other => passed(other),
            },
            other => passed(other),
        },
    }
}

/// The slots once each has been given its value, in order.
pub open spec fn put_all(r: Map<u16, u64>, slots: IrSlots, vs: Seq<u64>) -> Map<u16, u64>
    decreases slots,
{
    match slots {
        IrSlots::End => r,
        IrSlots::Slot(slot, rest) => if vs.len() == 0 {
            r
        } else {
            put_all(r.insert(slot, vs[0]), *rest, vs.drop_first())
        },
    }
}

pub open spec fn i_stats(q: Sums, n: nat, r: Map<u16, u64>, x: IrStats) -> Ends<Map<u16, u64>>
    decreases n, x, 2int,
{
    match x {
        IrStats::End => Ends::Done(r),
        IrStats::Then(a, rest) => match i_stat(q, n, r, *a) {
            Ends::Done(r1) => i_stats(q, n, r1, *rest),
            other => passed(other),
        },
    }
}

pub open spec fn i_tail(q: Sums, n: nat, r: Map<u16, u64>, x: IrTail) -> Ends<Map<u16, u64>>
    decreases n, x, 2int,
{
    match x {
        IrTail::Nothing => Ends::Done(r),
        IrTail::Value(a) => i_num(q, n, r, *a),
        IrTail::Unit(st) => i_stat(q, n, r, *st),
        IrTail::Table(_) => Ends::Wrong,
    }
}

pub open spec fn i_block(q: Sums, n: nat, r: Map<u16, u64>, x: IrBlock) -> Ends<Map<u16, u64>>
    decreases n, x, 2int,
{
    match i_stats(q, n, r, x.stats) {
        Ends::Done(r1) => i_tail(q, n, r1, x.tail),
        other => passed(other),
    }
}

pub open spec fn i_if(q: Sums, n: nat, r: Map<u16, u64>, x: IrIf) -> Ends<Map<u16, u64>>
    decreases n, x, 2int,
{
    match i_cond(q, n, r, x.cond) {
        Ends::Truth(v, r1) => if v {
            i_block(q, n, r1, x.body)
        } else {
            i_else(q, n, r1, x.rest)
        },
        other => passed(other),
    }
}

pub open spec fn i_else(q: Sums, n: nat, r: Map<u16, u64>, x: IrElse) -> Ends<Map<u16, u64>>
    decreases n, x, 2int,
{
    match x {
        IrElse::Nothing => Ends::Done(r),
        IrElse::Block(b) => i_block(q, n, r, *b),
        IrElse::If(i) => i_if(q, n, r, *i),
    }
}

/// Go round while a condition holds; with none, until something leaves.
pub open spec fn i_while(q: Sums, n: nat, r: Map<u16, u64>, c: Option<Cond>, b: IrBlock) -> Ends<
    Map<u16, u64>,
>
    decreases n, b, 4int,
{
    if n == 0 {
        Ends::Late
    } else {
        let test = match c {
            Some(x) => i_cond(q, (n - 1) as nat, r, x),
            None => Ends::Truth(true, r),
        };
        match test {
            Ends::Truth(v, r1) => if !v {
                Ends::Done(r1)
            } else {
                match i_block(q, (n - 1) as nat, r1, b) {
                    Ends::Done(r2) => i_while(q, (n - 1) as nat, r2, c, b),
                    Ends::Out(x, r2) => match x {
                        Exit::Break => Ends::Done(r2),
                        Exit::Next(None) => i_while(q, (n - 1) as nat, r2, c, b),
                        _ => Ends::Out(x, r2),
                    },
                    other => passed(other),
                }
            },
            other => passed(other),
        }
    }
}

/// Count a slot up to an end; the body is left by a label, and then steps.
pub open spec fn i_count(
    q: Sums,
    n: nat,
    r: Map<u16, u64>,
    slot: u16,
    end: u64,
    inclusive: bool,
    label: u32,
    b: IrBlock,
) -> Ends<Map<u16, u64>>
    decreases n, b, 4int,
{
    if n == 0 {
        Ends::Late
    } else {
        match i_local(r, slot) {
            Ends::Num(v, _) => if !goes_round(v, end, inclusive) {
                Ends::Done(r)
            } else {
                match i_block(q, (n - 1) as nat, r, b) {
                    Ends::Done(r1) => i_stepped(q, n, r1, slot, end, inclusive, label, b),
                    Ends::Out(x, r1) => if x == Exit::Break {
                        Ends::Done(r1)
                    } else if x == Exit::Next(Some(label)) {
                        i_stepped(q, n, r1, slot, end, inclusive, label, b)
                    } else {
                        Ends::Out(x, r1)
                    },
                    other => passed(other),
                }
            },
            other => passed(other),
        }
    }
}

pub open spec fn i_stepped(
    q: Sums,
    n: nat,
    r: Map<u16, u64>,
    slot: u16,
    end: u64,
    inclusive: bool,
    label: u32,
    b: IrBlock,
) -> Ends<Map<u16, u64>>
    decreases n, b, 3int,
{
    if n == 0 {
        Ends::Late
    } else {
        match i_local(r, slot) {
            Ends::Num(v, _) => i_count(
                q,
                (n - 1) as nat,
                r.insert(slot, (q.bin)(BinOp::Add, v, ONE)),
                slot,
                end,
                inclusive,
                label,
                b,
            ),
            other => passed(other),
        }
    }
}

/// One statement.
pub open spec fn i_stat(q: Sums, n: nat, r: Map<u16, u64>, x: IrStat) -> Ends<Map<u16, u64>>
    decreases n, x, 2int,
{
    match x {
        IrStat::Skip => Ends::Done(r),
        IrStat::Let { values, slots } => match i_values(q, n, r, values) {
            Ends::Many(vs, r1) => Ends::Done(put_all(r1, slots, vs)),
            other => passed(other),
        },
        IrStat::Assign { values, slots } => match i_values(q, n, r, values) {
            Ends::Many(vs, r1) => Ends::Done(put_all(r1, slots, vs)),
            other => passed(other),
        },
        IrStat::Update(op, slot, a) => match i_num(q, n, r, a) {
            Ends::Num(w, r1) => match i_local(r1, slot) {
                Ends::Num(v, _) => Ends::Done(r1.insert(slot, (q.bin)(op, v, w))),
                other => passed(other),
            },
            other => passed(other),
        },
        IrStat::Return(None) => Ends::Out(Exit::Return(None), r),
        IrStat::Return(Some(a)) => match i_num(q, n, r, a) {
            Ends::Num(v, r1) => Ends::Out(Exit::Return(Some(v)), r1),
            other => passed(other),
        },
        IrStat::Break => Ends::Out(Exit::Break, r),
        IrStat::Continue => Ends::Out(Exit::Next(None), r),
        IrStat::Leave(l) => Ends::Out(Exit::Next(Some(l)), r),
        IrStat::While(c, b) => i_while(q, n, r, Some(c), b),
        IrStat::Loop(b) => i_while(q, n, r, None, b),
        // the end is worked out before the start
        IrStat::For { slot, start, end, inclusive, label, body } => match i_num(q, n, r, end) {
            Ends::Num(w, r1) => match i_num(q, n, r1, start) {
                Ends::Num(v, r2) => i_count(
                    q,
                    n,
                    r2.insert(slot, v),
                    slot,
                    w,
                    inclusive,
                    label,
                    body,
                ),
                other => passed(other),
            },
            other => passed(other),
        },
        IrStat::Discard(a) => match i_num(q, n, r, a) {
            Ends::Num(_, r1) => Ends::Done(r1),
            other => passed(other),
        },
        IrStat::Block(b) => i_block(q, n, r, b),
        IrStat::If(i) => i_if(q, n, r, i),
        _ => Ends::Wrong,
    }
}

} // verus!
