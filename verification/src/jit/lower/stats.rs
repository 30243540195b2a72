//! Statements and blocks.
use super::super::flags;
use super::super::ir::{
    IrBlock, IrSlots, IrStat, IrStats, IrTail, IrValues, Ir, Store,
};
use super::super::kinds::Kind;
use super::super::lengths;
use super::super::lowering;
use super::super::lowering::Low;
use super::exprs::{arithmetic, expr, exprs, if_chain, match_chain, no_number, truthy};
use super::{say, Scene, State};
use crate::ast::{Binding, Block, Expr, Stat};
use crate::text;
use vstd::prelude::*;

verus! {

/// An expression whose value nobody wants.
fn unit(env: &Scene, low: &mut State, e: &Expr) -> (r: Result<IrStat, String>)
    ensures
        super::agrees(r, final(low)@, lowering::l_unit(env@, old(low)@, *e)),
        r is Ok ==> super::grew(old(low)@, final(low)@),
    decreases *e, 3int, 0int,
{
    match e {
        Expr::Do(b) => match block(env, low, b, false) {
            Ok(x) => Ok(IrStat::Block(x)),
            Err(m) => Err(m),
        },
        Expr::If(_, _) => match if_chain(env, low, e, 0, false) {
            Ok(x) => Ok(IrStat::If(x)),
            Err(m) => Err(m),
        },
        Expr::Match(_, _) => match match_chain(env, low, e, false) {
            Ok(x) => Ok(IrStat::Match(x)),
            Err(m) => Err(m),
        },
        _ => match expr(env, low, e) {
            Ok(x) => Ok(IrStat::Discard(x)),
            Err(m) => Err(m),
        },
    }
}

/// The statements of a block from `i` on.
fn stats_from(env: &Scene, low: &mut State, stats: &Vec<Stat>, i: usize) -> (r: Result<
    IrStats,
    String,
>)
    requires
        i <= stats@.len(),
    ensures
        super::agrees(r, final(low)@, lowering::l_stats(env@, old(low)@, stats@.skip(i as int))),
        r is Ok ==> super::grew(old(low)@, final(low)@),
    decreases *stats, 3int, stats@.len() - i,
{
    if i >= stats.len() {
        return Ok(IrStats::End);
    }
    assert(stats@.skip(i as int)[0] == stats@[i as int]);
    assert(stats@.skip(i as int).drop_first() =~= stats@.skip(i as int + 1));
    let x = match stat(env, low, &stats[i]) {
        Ok(x) => x,
        Err(m) => {
            return Err(m);
        },
    };
    match stats_from(env, low, stats, i + 1) {
        Ok(rest) => Ok(IrStats::Then(Box::new(x), Box::new(rest))),
        Err(m) => Err(m),
    }
}

/// What a block ends in.
fn tail(env: &Scene, low: &mut State, b: &Block, want: bool, ret: Option<u16>) -> (r: Result<
    IrTail,
    String,
>)
    ensures
        super::agrees(r, final(low)@, lowering::l_tail(env@, old(low)@, *b, want, ret)),
        r is Ok ==> super::grew(old(low)@, final(low)@),
    decreases *b, 2int, 0int,
{
    match &b.tail {
        Some(e) => {
            if want {
                match (&**e, ret) {
                    (Expr::Local(lb, _), Some(slot)) => {
                        if lb.slot == slot {
                            return Ok(IrTail::Table(slot));
                        }
                    },
                    _ => {},
                }
                return match expr(env, low, e) {
                    Ok(x) => Ok(IrTail::Value(Box::new(x))),
                    Err(m) => Err(m),
                };
            }
            match unit(env, low, e) {
                Ok(x) => Ok(IrTail::Unit(Box::new(x))),
                Err(m) => Err(m),
            }
        },
        None => {
            if want && !lengths::ends_with_return(b) {
                Err(text::owned("a value is needed but the block produces none"))
            } else {
                Ok(IrTail::Nothing)
            }
        },
    }
}

/// A block.
pub(in super::super) fn block(env: &Scene, low: &mut State, b: &Block, want: bool) -> (r: Result<
    IrBlock,
    String,
>)
    ensures
        super::agrees(r, final(low)@, lowering::l_block(env@, old(low)@, *b, want)),
        r is Ok ==> super::grew(old(low)@, final(low)@),
    decreases *b, 3int, 0int,
{
    let ghost was = low@;
    assert(b.stats@.skip(0) =~= b.stats@);
    let known: usize = low.known.len();
    let marks: usize = low.flags.len();
    let ret: Option<u16> = low.ret_slot;
    low.ret_slot = None;
    assert(low@ =~= (Low { ret_slot: None, ..was }));
    let stats = match stats_from(env, low, &b.stats, 0) {
        Ok(x) => x,
        Err(m) => {
            return Err(m);
        },
    };
    let end = match tail(env, low, b, want, ret) {
        Ok(x) => x,
        Err(m) => {
            return Err(m);
        },
    };
    let ghost mid = low@;
    low.known.truncate(known);
    low.flags.truncate(marks);
    assert(low@.known =~= was.known);
    assert(low@.flags =~= was.flags);
    assert(low@ =~= (Low { known: was.known, flags: was.flags, ..mid }));
    Ok(IrBlock { stats, tail: end })
}

/// The body of a loop.
pub(in super::super) fn body_of(env: &Scene, low: &mut State, b: &Block, label: Option<u32>) -> (r:
    Result<IrBlock, String>)
    ensures
        super::agrees(r, final(low)@, lowering::l_body(env@, old(low)@, *b, label)),
        r is Ok ==> super::grew(old(low)@, final(low)@),
    decreases *b, 4int, 0int,
{
    let ghost was = low@;
    low.labels.push(label);
    assert(low@ =~= (Low { labels: was.labels.push(label), ..was }));
    match block(env, low, b, false) {
        Ok(x) => {
            let ghost mid = low@;
            low.labels.pop();
            assert(low@.labels =~= was.labels);
            assert(low@ =~= (Low { labels: was.labels, ..mid }));
            Ok(x)
        },
        Err(m) => Err(m),
    }
}

fn let_element(env: &Scene, low: &mut State, st: &Stat) -> (r: Result<IrStat, String>)
    requires
        *st matches Stat::LetSlots(bs, _) && bs@.len() == 1,
    ensures
        super::agrees(r, final(low)@, lowering::l_let_element(env@, old(low)@, *st)),
        r is Ok ==> super::grew(old(low)@, final(low)@),
    decreases *st, 2int, 0int,
{
    match st {
        Stat::LetSlots(bs, es) => {
            if bs[0].cell {
                return Err(text::owned("an element of an array captured by a closure"));
            }
            if es.len() == 0 {
                return Err(text::owned("an element binding with no index"));
            }
            match &es[0] {
                Expr::Index(obj, key) => {
                    let outer: u16 = match super::table_slot(low, obj) {
                        Ok(slot) => slot,
                        Err(m) => {
                            return Err(m);
                        },
                    };
                    if !super::proven(env, low, key, outer) {
                        return Err(text::owned("an unproven index into an array of arrays"));
                    }
                    let x = match expr(env, low, key) {
                        Ok(x) => x,
                        Err(m) => {
                            return Err(m);
                        },
                    };
                    low.known.push(bs[0].slot);
                    super::add_once(&mut low.spans, outer);
                    let min: u32 = match super::kind(env, outer) {
                        Kind::Tables { checked, min } => min,
                        _ => 0,
                    };
                    Ok(IrStat::LetElement { slot: bs[0].slot, outer, key: x, min })
                },
                _ => Err(text::owned("an element binding with no index")),
            }
        },
        _ => Err(String::new()),
    }
}

fn let_table(env: &Scene, low: &mut State, st: &Stat) -> (r: Result<IrStat, String>)
    requires
        *st matches Stat::LetSlots(bs, es) && bs@.len() == 1 && es@.len() == 1 && es@[0] is Array,
    ensures
        super::agrees(r, final(low)@, lowering::l_let_table(env@, old(low)@, *st)),
        r is Ok ==> super::grew(old(low)@, final(low)@),
    decreases *st, 2int, 0int,
{
    match st {
        Stat::LetSlots(bs, es) => {
            if bs[0].cell {
                return Err(text::owned("a table made here is captured by a closure"));
            }
            match &es[0] {
                Expr::Array(items) => {
                    assert(items@.skip(0) =~= items@);
                    let xs = match exprs(env, low, items, 0) {
                        Ok(x) => x,
                        Err(m) => {
                            return Err(m);
                        },
                    };
                    low.known.push(bs[0].slot);
                    Ok(IrStat::LetTable { slot: bs[0].slot, items: xs })
                },
                _ => Err(String::new()),
            }
        },
        _ => Err(String::new()),
    }
}

/// The values of a `let` from `i` on.
fn values_from(env: &Scene, low: &mut State, es: &Vec<Expr>, i: usize) -> (r: Result<
    IrValues,
    String,
>)
    requires
        i <= es@.len(),
    ensures
        super::agrees(r, final(low)@, lowering::l_values(env@, old(low)@, es@.skip(i as int))),
        r is Ok ==> super::grew(old(low)@, final(low)@),
    decreases *es, 3int, es@.len() - i,
{
    if i >= es.len() {
        return Ok(IrValues::End);
    }
    assert(es@.skip(i as int)[0] == es@[i as int]);
    assert(es@.skip(i as int).drop_first() =~= es@.skip(i as int + 1));
    if flags::bool_valued(&es[i]) {
        let c = match truthy(env, low, &es[i]) {
            Ok(c) => c,
            Err(m) => {
                return Err(m);
            },
        };
        return match values_from(env, low, es, i + 1) {
            Ok(rest) => Ok(IrValues::Flag(Box::new(c), Box::new(rest))),
            Err(m) => Err(m),
        };
    }
    let x = match expr(env, low, &es[i]) {
        Ok(x) => x,
        Err(m) => {
            return Err(m);
        },
    };
    match values_from(env, low, es, i + 1) {
        Ok(rest) => Ok(IrValues::Num(Box::new(x), Box::new(rest))),
        Err(m) => Err(m),
    }
}

fn slot_list(bs: &Vec<Binding>, i: usize) -> (r: IrSlots)
    requires
        i <= bs@.len(),
    ensures
        r == lowering::slot_list(bs@.skip(i as int)),
    decreases bs@.len() - i,
{
    if i >= bs.len() {
        return IrSlots::End;
    }
    assert(bs@.skip(i as int)[0] == bs@[i as int]);
    assert(bs@.skip(i as int).drop_first() =~= bs@.skip(i as int + 1));
    IrSlots::Slot(bs[i].slot, Box::new(slot_list(bs, i + 1)))
}

fn let_values(env: &Scene, low: &mut State, st: &Stat) -> (r: Result<IrStat, String>)
    requires
        *st is LetSlots,
    ensures
        super::agrees(r, final(low)@, lowering::l_let(env@, old(low)@, *st)),
        r is Ok ==> super::grew(old(low)@, final(low)@),
    decreases *st, 2int, 0int,
{
    match st {
        Stat::LetSlots(bs, es) => {
            if es.len() > bs.len() {
                return Err(text::owned("extra values in a `let`"));
            }
            if lengths::any_cell(bs) {
                return Err(text::owned("a local captured by a closure"));
            }
            assert(es@.skip(0) =~= es@);
            assert(bs@.skip(0) =~= bs@);
            let values = match values_from(env, low, es, 0) {
                Ok(x) => x,
                Err(m) => {
                    return Err(m);
                },
            };
            if es.len() < bs.len() {
                return Err(text::owned("a binding with no value (that is nil, not 0)"));
            }
            let ghost mid = low@;
            let mut i: usize = 0;
            while i < bs.len()
                invariant
                    i <= bs@.len() == es@.len(),
                    low@ =~= (Low {
                        known: mid.known + super::walk::slots_of(bs@).take(i as int),
                        flags: mid.flags + lowering::let_flags(bs@, es@).take(i as int),
                        ..mid
                    }),
                decreases bs@.len() - i,
            {
                low.known.push(bs[i].slot);
                low.flags.push((bs[i].slot, flags::bool_valued(&es[i])));
                assert(low@.known =~= mid.known + super::walk::slots_of(bs@).take(i as int + 1));
                assert(low@.flags =~= mid.flags + lowering::let_flags(bs@, es@).take(
                    i as int + 1,
                ));
                i = i + 1;
            }
            assert(super::walk::slots_of(bs@).take(bs@.len() as int) =~= super::walk::slots_of(
                bs@,
            ));
            assert(lowering::let_flags(bs@, es@).take(bs@.len() as int) =~= lowering::let_flags(
                bs@,
                es@,
            ));
            Ok(IrStat::Let { values, slots: slot_list(bs, 0) })
        },
        _ => Err(String::new()),
    }
}

fn plain_local(low: &State, t: &Expr) -> (r: Result<u16, String>)
    ensures
        match r {
            Ok(slot) => lowering::plain_local(low@, *t) == Ok::<u16, Seq<char>>(slot),
            Err(m) => lowering::plain_local(low@, *t) == Err::<u16, Seq<char>>(m@),
        },
{
    match t {
        Expr::Local(b, name) => {
            if !b.cell && super::walk::has(&low.known, b.slot) {
                Ok(b.slot)
            } else {
                Err(say("assignment to `", name.as_str(), "`, which is not a plain local"))
            }
        },
        Expr::Upval(_, name) => Err(
            say("assignment to `", name.as_str(), "`, which is not a plain local"),
        ),
        Expr::Global(name, _) => Err(
            say("assignment to `", name.as_str(), "`, which is not a plain local"),
        ),
        _ => Err(text::owned("assignment to a field")),
    }
}

/// The values of an assignment from `i` on.
fn assigned_from(env: &Scene, low: &mut State, ts: &Vec<Expr>, es: &Vec<Expr>, i: usize) -> (r:
    Result<IrValues, String>)
    requires
        i <= es@.len() <= ts@.len(),
    ensures
        super::agrees(
            r,
            final(low)@,
            lowering::l_assigned(
                env@,
                old(low)@,
                ts@.skip(i as int),
                es@.skip(i as int),
            ),
        ),
        r is Ok ==> super::grew(old(low)@, final(low)@),
    decreases *es, 3int, es@.len() - i,
{
    if i >= es.len() {
        return Ok(IrValues::End);
    }
    assert(es@.skip(i as int)[0] == es@[i as int]);
    assert(es@.skip(i as int).drop_first() =~= es@.skip(i as int + 1));
    assert(ts@.skip(i as int)[0] == ts@[i as int]);
    assert(ts@.skip(i as int).drop_first() =~= ts@.skip(i as int + 1));
    let to_flag: bool = match &ts[i] {
        Expr::Local(b, _) => super::flag(&low.flags, b.slot),
        _ => false,
    };
    if to_flag {
        let c = match truthy(env, low, &es[i]) {
            Ok(c) => c,
            Err(m) => {
                return Err(m);
            },
        };
        return match assigned_from(env, low, ts, es, i + 1) {
            Ok(rest) => Ok(IrValues::Flag(Box::new(c), Box::new(rest))),
            Err(m) => Err(m),
        };
    }
    let x = match expr(env, low, &es[i]) {
        Ok(x) => x,
        Err(m) => {
            return Err(m);
        },
    };
    match assigned_from(env, low, ts, es, i + 1) {
        Ok(rest) => Ok(IrValues::Num(Box::new(x), Box::new(rest))),
        Err(m) => Err(m),
    }
}

/// The slots of an assignment's targets from `i` on.
fn targets_from(low: &State, ts: &Vec<Expr>, n: usize, i: usize) -> (r: Result<IrSlots, String>)
    requires
        i <= ts@.len(),
    ensures
        match r {
            Ok(l) => lowering::target_list(low@, ts@.skip(i as int), n as nat) == Ok::<
                IrSlots,
                Seq<char>,
            >(l),
            Err(m) => lowering::target_list(low@, ts@.skip(i as int), n as nat) == Err::<
                IrSlots,
                Seq<char>,
            >(m@),
        },
    decreases ts@.len() - i,
{
    if i >= ts.len() {
        return Ok(IrSlots::End);
    }
    assert(ts@.skip(i as int)[0] == ts@[i as int]);
    assert(ts@.skip(i as int).drop_first() =~= ts@.skip(i as int + 1));
    let slot: u16 = match plain_local(low, &ts[i]) {
        Ok(slot) => slot,
        Err(m) => {
            return Err(m);
        },
    };
    if n == 0 {
        return Err(text::owned("an assignment with no value (that is nil, not 0)"));
    }
    match targets_from(low, ts, n - 1, i + 1) {
        Ok(rest) => Ok(IrSlots::Slot(slot, Box::new(rest))),
        Err(m) => Err(m),
    }
}

fn assign(env: &Scene, low: &mut State, st: &Stat) -> (r: Result<IrStat, String>)
    requires
        *st is Assign,
    ensures
        super::agrees(r, final(low)@, lowering::l_assign(env@, old(low)@, *st)),
        r is Ok ==> super::grew(old(low)@, final(low)@),
    decreases *st, 2int, 0int,
{
    match st {
        Stat::Assign(ts, es) => {
            if es.len() > ts.len() {
                return Err(text::owned("extra values in an assignment"));
            }
            assert(es@.skip(0) =~= es@);
            assert(ts@.skip(0) =~= ts@);
            let values = match assigned_from(env, low, ts, es, 0) {
                Ok(x) => x,
                Err(m) => {
                    return Err(m);
                },
            };
            match targets_from(low, ts, es.len(), 0) {
                Ok(slots) => Ok(IrStat::Assign { values, slots }),
                Err(m) => Err(m),
            }
        },
        _ => Err(String::new()),
    }
}

/// How an element is written, once its index and value are there.
fn store(env: &Scene, low: &mut State, slot: u16, at: &Expr, key: Ir, value: Ir) -> (r: IrStat)
    ensures
        (final(low)@, r) == lowering::stored(env@, old(low)@, slot, *at, key, value),
        super::grew(old(low)@, final(low)@),
{
    let ok: bool = super::proven(env, low, at, slot);
    let how: Store = if ok {
        Store::Proven
    } else if super::walk::has(&env.mutable, slot) {
        Store::Tested
    } else {
        Store::Asked
    };
    IrStat::Write { slot, key, value, how }
}

fn write(env: &Scene, low: &mut State, st: &Stat) -> (r: Result<IrStat, String>)
    requires
        *st matches Stat::Assign(ts, es) && ts@.len() == 1 && es@.len() == 1 && ts@[0] is Index,
    ensures
        super::agrees(r, final(low)@, lowering::l_write(env@, old(low)@, *st)),
        r is Ok ==> super::grew(old(low)@, final(low)@),
    decreases *st, 2int, 0int,
{
    match st {
        Stat::Assign(ts, es) => match &ts[0] {
            Expr::Index(obj, key) => {
                let slot: u16 = match super::table_slot(low, obj) {
                    Ok(slot) => slot,
                    Err(m) => {
                        return Err(m);
                    },
                };
                let x = match expr(env, low, key) {
                    Ok(x) => x,
                    Err(m) => {
                        return Err(m);
                    },
                };
                let y = match expr(env, low, &es[0]) {
                    Ok(y) => y,
                    Err(m) => {
                        return Err(m);
                    },
                };
                Ok(store(env, low, slot, key, x, y))
            },
            _ => Err(String::new()),
        },
        _ => Err(String::new()),
    }
}

fn plain_index(e: &Expr) -> (r: bool)
    ensures
        r == lowering::plain_index(*e),
{
    match e {
        Expr::Index(_, key) => match &**key {
            Expr::Local(..) => true,
            Expr::Num(_) => true,
            _ => false,
        },
        _ => false,
    }
}

fn update_element(env: &Scene, low: &mut State, st: &Stat) -> (r: Result<IrStat, String>)
    requires
        *st matches Stat::OpAssign(t, _, _) && t is Index,
    ensures
        super::agrees(r, final(low)@, lowering::l_update_element(env@, old(low)@, *st)),
        r is Ok ==> super::grew(old(low)@, final(low)@),
    decreases *st, 2int, 0int,
{
    match st {
        Stat::OpAssign(t, op, e) => match t {
            Expr::Index(obj, key) => {
                let slot: u16 = match super::table_slot(low, obj) {
                    Ok(slot) => slot,
                    Err(m) => {
                        return Err(m);
                    },
                };
                let x = match expr(env, low, key) {
                    Ok(x) => x,
                    Err(m) => {
                        return Err(m);
                    },
                };
                if !arithmetic(*op) {
                    return Err(no_number(*op));
                }
                let before = match expr(env, low, t) {
                    Ok(y) => y,
                    Err(m) => {
                        return Err(m);
                    },
                };
                let by = match expr(env, low, e) {
                    Ok(y) => y,
                    Err(m) => {
                        return Err(m);
                    },
                };
                Ok(store(env, low, slot, key, x, Ir::Bin(*op, Box::new(before), Box::new(by))))
            },
            _ => Err(String::new()),
        },
        _ => Err(String::new()),
    }
}

fn update(env: &Scene, low: &mut State, st: &Stat) -> (r: Result<IrStat, String>)
    requires
        *st is OpAssign,
    ensures
        super::agrees(r, final(low)@, lowering::l_update(env@, old(low)@, *st)),
        r is Ok ==> super::grew(old(low)@, final(low)@),
    decreases *st, 2int, 0int,
{
    match st {
        Stat::OpAssign(t, op, e) => {
            let slot: u16 = match plain_local(low, t) {
                Ok(slot) => slot,
                Err(m) => {
                    return Err(m);
                },
            };
            let x = match expr(env, low, e) {
                Ok(x) => x,
                Err(m) => {
                    return Err(m);
                },
            };
            if arithmetic(*op) {
                Ok(IrStat::Update(*op, slot, x))
            } else {
                Err(text::owned("unsupported compound assignment"))
            }
        },
        _ => Err(String::new()),
    }
}

fn returned_table(env: &Scene, low: &State, es: &Vec<Expr>) -> (r: Option<u16>)
    ensures
        r == lowering::returned_table(env@, low@, es@),
{
    if env.returns_table && es.len() == 1 {
        match &es[0] {
            Expr::Local(b, _) => {
                if super::kind(env, b.slot) == Kind::New && super::walk::has(&low.known, b.slot) {
                    return Some(b.slot);
                }
            },
            _ => {},
        }
    }
    None
}

fn return_stat(env: &Scene, low: &mut State, st: &Stat) -> (r: Result<IrStat, String>)
    requires
        *st is Return,
    ensures
        super::agrees(r, final(low)@, lowering::l_return(env@, old(low)@, *st)),
        r is Ok ==> super::grew(old(low)@, final(low)@),
    decreases *st, 2int, 0int,
{
    match st {
        Stat::Return(es) => {
            match returned_table(env, low, es) {
                Some(slot) => {
                    return Ok(IrStat::ReturnTable(slot));
                },
                None => {},
            }
            if es.len() == 0 {
                return Ok(IrStat::Return(None));
            }
            if es.len() > 1 {
                return Err(text::owned("multiple return values"));
            }
            match expr(env, low, &es[0]) {
                Ok(x) => Ok(IrStat::Return(Some(x))),
                Err(m) => Err(m),
            }
        },
        _ => Err(String::new()),
    }
}

fn for_stat(env: &Scene, low: &mut State, st: &Stat) -> (r: Result<IrStat, String>)
    requires
        *st is ForRange,
    ensures
        super::agrees(r, final(low)@, lowering::l_for(env@, old(low)@, *st)),
        r is Ok ==> super::grew(old(low)@, final(low)@),
    decreases *st, 2int, 0int,
{
    match st {
        Stat::ForRange { id, var, binding, start, end, inclusive, body } => {
            let b: Binding = match binding {
                Some(b) => *b,
                None => {
                    return Err(text::owned("unresolved `for` loop"));
                },
            };
            if b.cell {
                return Err(text::owned("the loop variable is captured by a closure"));
            }
            let x = match expr(env, low, start) {
                Ok(x) => x,
                Err(m) => {
                    return Err(m);
                },
            };
            let y = match expr(env, low, end) {
                Ok(y) => y,
                Err(m) => {
                    return Err(m);
                },
            };
            let ghost s2 = low@;
            let known: usize = low.known.len();
            let facts: usize = low.in_range.len();
            let bounds: usize = low.bounded.len();
            low.known.push(b.slot);
            assert(low@ =~= (Low { known: s2.known.push(b.slot), ..s2 }));
            let bound = super::hoistable(env, low, b, start, end, *inclusive, body);
            match super::range_fact(env, b, start, end, *inclusive, body) {
                Some(f) => low.in_range.push(f),
                None => {},
            }
            match bound {
                Some(d) => low.bounded.push((b.slot, d)),
                None => {},
            }
            let label: u32 = super::bump(low.n_labels);
            low.n_labels = label;
            let ghost s4 = low@;
            let inner = match body_of(env, low, body, Some(label)) {
                Ok(x) => x,
                Err(m) => {
                    return Err(m);
                },
            };
            let ghost s5 = low@;
            low.known.truncate(known);
            low.in_range.truncate(facts);
            low.bounded.truncate(bounds);
            assert(low@.known =~= s2.known) by {
                assert forall|i: int| 0 <= i < s2.known.len() implies low@.known[i]
                    == s2.known[i] by {
                    assert(s5.known[i] == s4.known[i]);
                }
            }
            assert(low@.in_range =~= s2.in_range);
            assert(low@.bounded =~= s2.bounded);
            assert(low@ =~= (Low {
                known: s2.known,
                in_range: s2.in_range,
                bounded: s2.bounded,
                ..s5
            }));
            Ok(
                IrStat::For {
                    slot: b.slot,
                    start: x,
                    end: y,
                    inclusive: *inclusive,
                    label,
                    body: inner,
                },
            )
        },
        _ => Err(String::new()),
    }
}

/// One statement.
pub(in super::super) fn stat(env: &Scene, low: &mut State, st: &Stat) -> (r: Result<IrStat, String>)
    ensures
        super::agrees(r, final(low)@, lowering::l_stat(env@, old(low)@, *st)),
        r is Ok ==> super::grew(old(low)@, final(low)@),
    decreases *st, 3int, 0int,
{
    match st {
        Stat::LetSlots(bs, es) => {
            if bs.len() == 1 && super::infer::outer_of(&env.inner_of, bs[0].slot).is_some() {
                return let_element(env, low, st);
            }
            if bs.len() == 1 && es.len() == 1 && super::kind(env, bs[0].slot) == Kind::New {
                match &es[0] {
                    Expr::Array(_) => {
                        return let_table(env, low, st);
                    },
                    _ => {},
                }
            }
            let_values(env, low, st)
        },
        Stat::Assign(ts, es) => {
            if ts.len() == 1 && es.len() == 1 && super::is_table_write(env, &ts[0]) {
                write(env, low, st)
            } else {
                assign(env, low, st)
            }
        },
        Stat::OpAssign(t, op, e) => {
            if super::is_table_write(env, t) && plain_index(t) {
                update_element(env, low, st)
            } else {
                update(env, low, st)
            }
        },
        Stat::Return(_) => return_stat(env, low, st),
        Stat::Break => Ok(IrStat::Break),
        Stat::Continue => {
            let n: usize = low.labels.len();
            if n == 0 {
                return Err(text::owned("`continue` outside a loop"));
            }
            match low.labels[n - 1] {
                Some(l) => Ok(IrStat::Leave(l)),
                None => Ok(IrStat::Continue),
            }
        },
        Stat::While(_, c, b) => {
            let cond = match truthy(env, low, c) {
                Ok(c) => c,
                Err(m) => {
                    return Err(m);
                },
            };
            match body_of(env, low, b, None) {
                Ok(body) => Ok(IrStat::While(cond, body)),
                Err(m) => Err(m),
            }
        },
        Stat::Loop(_, b) => match body_of(env, low, b, None) {
            Ok(body) => Ok(IrStat::Loop(body)),
            Err(m) => Err(m),
        },
        Stat::ForRange { .. } => for_stat(env, low, st),
        Stat::Expr(e) => {
            let stands: bool = match e {
                Expr::If(_, _) => true,
                Expr::Do(_) => true,
                _ => false,
            };
            if stands {
                return unit(env, low, e);
            }
            match expr(env, low, e) {
                Ok(x) => Ok(IrStat::Discard(x)),
                Err(m) => Err(m),
            }
        },
        Stat::ForIn { .. } => Err(text::owned("`for ... in` over an iterator")),
        Stat::FnSlot(..) => Err(text::owned("nested function")),
        Stat::FnDecl(..) => Err(text::owned("nested function")),
        Stat::Let(..) => Err(text::owned("unresolved `let`")),
        Stat::TypeAlias(..) => Ok(IrStat::Skip),
    }
}

} // verus!
