//! The machine goes where code on numbers goes.
use super::faithful;
use super::flags;
use super::meaning;
use super::meaning::{Cell, Ends, Exit, Sums};
use super::running;
use super::running::Aim;
use super::several;
use super::sums;
use super::walk;
use crate::ast::{BinOp, Block, Expr, Stat};
use crate::bytecode;
use crate::bytecode::{BinKind, Op, ProtoView};
use crate::codegen;
use crate::codegen::Gen;
use crate::machine;
use crate::machine::{Mach, Need, Out, ONE};
use crate::value::Val;
use vstd::prelude::*;

verus! {

// ---- statements that do not branch -------------------------------------------------------

/// The one value of a `let`.
proof fn lemma_one_value(q: Sums, n: nat, f: Map<u16, Cell>, es: Seq<Expr>)
    requires
        es.len() == 1,
    ensures
        meaning::t_values(q, n, f, es) == if flags::bool_like(es[0]) {
            match meaning::t_cond(q, n, f, es[0]) {
                Ends::Truth(x, f1) => Ends::Cells(seq![Cell::Flag(x)], f1),
                other => meaning::passed(other),
            }
        } else {
            match meaning::t_expr(q, n, f, es[0]) {
                Ends::Num(x, f1) => Ends::Cells(seq![Cell::Num(x)], f1),
                other => meaning::passed(other),
            }
        },
{
    let none = es.drop_first();
    if flags::bool_like(es[0]) {
        match meaning::t_cond(q, n, f, es[0]) {
            Ends::Truth(x, f1) => {
                assert(meaning::t_values(q, n, f1, none) == Ends::<Map<u16, Cell>>::Cells(
                    Seq::empty(),
                    f1,
                ));
                assert(seq![Cell::Flag(x)] + Seq::<Cell>::empty() =~= seq![Cell::Flag(x)]);
            },
            _ => {},
        }
    } else {
        match meaning::t_expr(q, n, f, es[0]) {
            Ends::Num(x, f1) => {
                assert(meaning::t_values(q, n, f1, none) == Ends::<Map<u16, Cell>>::Cells(
                    Seq::empty(),
                    f1,
                ));
                assert(seq![Cell::Num(x)] + Seq::<Cell>::empty() =~= seq![Cell::Num(x)]);
            },
            _ => {},
        }
    }
}

/// The one value of an assignment.
proof fn lemma_one_assigned(q: Sums, n: nat, f: Map<u16, Cell>, ts: Seq<Expr>, es: Seq<Expr>)
    requires
        es.len() == 1,
    ensures
        meaning::t_assigned(q, n, f, ts, es) == if (match walk::local_slot(ts[0]) {
            Some(slot) => meaning::holds_flag(f, slot),
            None => false,
        }) {
            match meaning::t_cond(q, n, f, es[0]) {
                Ends::Truth(x, f1) => Ends::Cells(seq![Cell::Flag(x)], f1),
                other => meaning::passed(other),
            }
        } else {
            match meaning::t_expr(q, n, f, es[0]) {
                Ends::Num(x, f1) => Ends::Cells(seq![Cell::Num(x)], f1),
                other => meaning::passed(other),
            }
        },
{
    let none = es.drop_first();
    let others = ts.drop_first();
    if (match walk::local_slot(ts[0]) {
        Some(slot) => meaning::holds_flag(f, slot),
        None => false,
    }) {
        match meaning::t_cond(q, n, f, es[0]) {
            Ends::Truth(x, f1) => {
                assert(meaning::t_assigned(q, n, f1, others, none) == Ends::<Map<u16, Cell>>::Cells(
                    Seq::empty(),
                    f1,
                ));
                assert(seq![Cell::Flag(x)] + Seq::<Cell>::empty() =~= seq![Cell::Flag(x)]);
            },
            _ => {},
        }
    } else {
        match meaning::t_expr(q, n, f, es[0]) {
            Ends::Num(x, f1) => {
                assert(meaning::t_assigned(q, n, f1, others, none) == Ends::<Map<u16, Cell>>::Cells(
                    Seq::empty(),
                    f1,
                ));
                assert(seq![Cell::Num(x)] + Seq::<Cell>::empty() =~= seq![Cell::Num(x)]);
            },
            _ => {},
        }
    }
}

/// One slot given its value.
proof fn lemma_one_bound(f: Map<u16, Cell>, slot: u16, c: Cell)
    ensures
        meaning::bound_all(f, seq![slot], seq![c]) == f.insert(slot, c),
{
    let f1 = f.insert(slot, c);
    assert(meaning::bound_all(f1, seq![slot].drop_first(), seq![c].drop_first()) == f1);
}

/// A sum or a test changes nothing.
pub(super) proof fn lemma_value_quiet(q: Sums, n: nat, f: Map<u16, Cell>, e: Expr)
    requires
        sums::is_sum(e) || running::is_cond(e, true),
    ensures
        match meaning::t_expr(q, n, f, e) {
            Ends::Num(_, g) => g == f,
            Ends::Wrong | Ends::Late => true,
            _ => false,
        },
        match meaning::t_cond(q, n, f, e) {
            Ends::Truth(_, g) => g == f,
            Ends::Wrong | Ends::Late => true,
            _ => false,
        },
{
    if sums::is_sum(e) {
        sums::lemma_sum_is_quiet(e);
        faithful::lemma_quiet(q, n, f, e);
    } else {
        running::lemma_cond_quiet(q, n, f, e, true);
    }
}

/// A value for a local.
proof fn lemma_follow_store(
    q: Sums,
    n: nat,
    f: Map<u16, Cell>,
    g: Gen,
    st: Stat,
    e: Expr,
    slot: u16,
    c: Cell,
    m: Mach,
    aim: Aim,
) -> (k: nat)
    requires
        running::is_plain(st),
        sums::is_sum(e) || (running::is_cond(e, true) && (running::avoids(e, slot)
            || codegen::in_place(e))),
        codegen::g_stat(g, st) == codegen::g_release(
            codegen::g_expr(codegen::g_slot(g, slot), e, slot),
            g.free,
        ),
        running::before(m, g, codegen::g_stat(g, st), f, aim),
        match c {
            Cell::Num(x) => meaning::t_expr(q, n, f, e) == Ends::Num(x, f),
            Cell::Flag(x) => meaning::t_cond(q, n, f, e) == Ends::Truth(x, f),
        },
    ensures
        running::at(
            m,
            sums::after(q, m, k),
            g,
            f.insert(slot, c),
            codegen::g_stat(g, st).code.len() as int,
        ),
{
    reveal(running::grew);
    reveal(running::has_stats);
    let h = codegen::g_stat(g, st);
    reveal(codegen::g_slot);
    reveal(codegen::g_release);
    reveal(codegen::fail);
    let g0 = codegen::g_slot(g, slot);
    running::lemma_value_came(g0, e, slot);
    let h0 = codegen::g_expr(g0, e, slot);
    assert(g0 == g && slot < g.n_slots);
    running::lemma_plainly(machine::cur(m), g, h, aim);
    let k = if c is Num {
        running::lemma_run_value(q, n, f, g, e, slot, c, m)
    } else {
        running::lemma_run_flag(q, n, f, g, e, slot, c->Flag_0, m)
    };
    running::lemma_at_written(m, sums::after(q, m, k), g, f, slot, c, h.code.len() as int);
    k
}

/// A value for a local that may be read on the way to it.
#[verifier::spinoff_prover]
proof fn lemma_follow_carried(
    q: Sums,
    n: nat,
    f: Map<u16, Cell>,
    g: Gen,
    st: Stat,
    e: Expr,
    slot: u16,
    x: bool,
    m: Mach,
    aim: Aim,
) -> (k: nat)
    requires
        running::is_plain(st),
        running::is_cond(e, true),
        !codegen::in_place(e),
        codegen::g_stat(g, st) == running::assigned(g, slot, e),
        running::before(m, g, codegen::g_stat(g, st), f, aim),
        meaning::t_cond(q, n, f, e) == Ends::Truth(x, f),
    ensures
        running::at(
            m,
            sums::after(q, m, k),
            g,
            f.insert(slot, Cell::Flag(x)),
            codegen::g_stat(g, st).code.len() as int,
        ),
{
    reveal(running::grew);
    reveal(running::has_stats);
    let h = codegen::g_stat(g, st);
    let p = machine::cur(m);
    reveal(codegen::g_slot);
    reveal(codegen::g_alloc);
    reveal(codegen::g_emit);
    reveal(codegen::g_release);
    reveal(codegen::fail);
    let g0 = codegen::g_slot(g, slot);
    let (g1, tmp) = codegen::g_alloc(g0);
    let h0 = codegen::g_expr(g1, e, tmp);
    running::lemma_value_came(g1, e, tmp);
    assert(g0 == g && slot < g.n_slots);
    running::lemma_plainly(p, g, h, aim);
    assert(sums::has_code(p, g1, h0)) by {
        assert forall|i: int| g1.code.len() <= i < h0.code.len() implies #[trigger] p.code[i]
            == bytecode::specialised(h0.code[i]) by {
            assert(h.code[i] == h0.code[i]);
        }
    }
    assert(sums::ready(m, g1, h0, f));
    let k = running::lemma_run_flag(q, n, f, g1, e, tmp, x, m);
    let m1 = sums::after(q, m, k);
    let at = h0.code.len() as int;
    assert(h.code[at] == Op::Move { dst: slot, src: tmp });
    assert(p.code[at] == Op::Move { dst: slot, src: tmp });
    running::lemma_put_value(q, m1, slot, Val::Bool(x));
    sums::lemma_after(q, m, k, 1);
    running::lemma_at_written(
        m,
        sums::after(q, m, k + 1),
        g,
        f,
        slot,
        Cell::Flag(x),
        h.code.len() as int,
    );
    k + 1
}

/// What a sum is worked out in, it is written to once.
proof fn lemma_in_place(e: Expr)
    requires
        sums::is_sum(e),
    ensures
        codegen::in_place(e),
    decreases e,
{
    match e {
        Expr::Un(_, a) => lemma_in_place(*a),
        _ => {},
    }
}

/// `let` and assignment.
proof fn lemma_follow_let(
    q: Sums,
    n: nat,
    f: Map<u16, Cell>,
    g: Gen,
    st: Stat,
    m: Mach,
    aim: Aim,
) -> (k: nat)
    requires
        st is LetSlots || st is Assign,
        running::is_plain(st),
        running::before(m, g, codegen::g_stat(g, st), f, aim),
    ensures
        running::arrives(
            m,
            sums::after(q, m, k),
            g,
            meaning::t_stat(q, n, f, st),
            codegen::g_stat(g, st).code.len() as int,
            aim,
        ),
{
    if several::is_several(st) {
        several::lemma_follow_several(q, n, f, g, st, m, aim)
    } else {
        lemma_follow_one(q, n, f, g, st, m, aim)
    }
}

proof fn lemma_follow_one(
    q: Sums,
    n: nat,
    f: Map<u16, Cell>,
    g: Gen,
    st: Stat,
    m: Mach,
    aim: Aim,
) -> (k: nat)
    requires
        st is LetSlots || st is Assign,
        running::is_plain(st),
        !several::is_several(st),
        running::before(m, g, codegen::g_stat(g, st), f, aim),
    ensures
        running::arrives(
            m,
            sums::after(q, m, k),
            g,
            meaning::t_stat(q, n, f, st),
            codegen::g_stat(g, st).code.len() as int,
            aim,
        ),
{
    reveal(running::has_stats);
    running::lemma_of_stat(g, st);
    let a = meaning::t_stat(q, n, f, st);
    match st {
        Stat::LetSlots(bs, es) => {
            let e = es@[0];
            let slot = bs@[0].slot;
            lemma_one_value(q, n, f, es@);
            lemma_value_quiet(q, n, f, e);
            if a is Done {
                let c = if flags::bool_like(e) {
                    Cell::Flag(meaning::t_cond(q, n, f, e)->Truth_0)
                } else {
                    Cell::Num(meaning::t_expr(q, n, f, e)->Num_0)
                };
                assert(walk::slots_of(bs@) =~= seq![slot]);
                lemma_one_bound(f, slot, c);
                lemma_follow_store(q, n, f, g, st, e, slot, c, m, aim)
            } else {
                0
            }
        },
        Stat::Assign(ts, es) => {
            let e = es@[0];
            let slot = codegen::plain_reg_of(ts@[0])->Some_0;
            lemma_one_assigned(q, n, f, ts@, es@);
            lemma_value_quiet(q, n, f, e);
            if a is Done {
                let c = if meaning::holds_flag(f, slot) {
                    Cell::Flag(meaning::t_cond(q, n, f, e)->Truth_0)
                } else {
                    Cell::Num(meaning::t_expr(q, n, f, e)->Num_0)
                };
                assert(meaning::targets(ts@.drop_first()) == Some(Seq::<u16>::empty()));
                assert(meaning::targets(ts@)->Some_0 =~= seq![slot]);
                lemma_one_bound(f, slot, c);
                if sums::is_sum(e) {
                    lemma_in_place(e);
                }
                if codegen::in_place(e) {
                    lemma_follow_store(q, n, f, g, st, e, slot, c, m, aim)
                } else {
                    lemma_follow_carried(q, n, f, g, st, e, slot, c->Flag_0, m, aim)
                }
            } else {
                0
            }
        },
        _ => 0,
    }
}

/// `x op= e`.
proof fn lemma_follow_update(
    q: Sums,
    n: nat,
    f: Map<u16, Cell>,
    g: Gen,
    st: Stat,
    m: Mach,
    aim: Aim,
) -> (k: nat)
    requires
        st is OpAssign,
        running::is_plain(st),
        running::before(m, g, codegen::g_stat(g, st), f, aim),
    ensures
        running::arrives(
            m,
            sums::after(q, m, k),
            g,
            meaning::t_stat(q, n, f, st),
            codegen::g_stat(g, st).code.len() as int,
            aim,
        ),
{
    reveal(running::grew);
    reveal(running::has_stats);
    running::lemma_of_stat(g, st);
    running::lemma_stat_came(g, st);
    let h = codegen::g_stat(g, st);
    let p = machine::cur(m);
    let a = meaning::t_stat(q, n, f, st);
    reveal(codegen::g_slot);
    reveal(codegen::g_release);
    reveal(codegen::g_emit);
    reveal(codegen::fail);
    match st {
        Stat::OpAssign(t, op, e) => if a is Done {
            let slot = codegen::plain_reg_of(t)->Some_0;
            let kind = codegen::kind_of(op)->Some_0;
            let g0 = codegen::g_slot(g, slot);
            running::lemma_literal_or_operand(g0, e);
            lemma_value_quiet(q, n, f, e);
            let y = meaning::t_expr(q, n, f, e)->Num_0;
            let x = f[slot]->Num_0;
            assert(f.contains_key(slot));
            assert(machine::reg(m, slot) == Val::Num(x));
            let (g1, c) = codegen::g_maybe_const(g0, codegen::num_literal(e));
            running::lemma_plainly(p, g, h, aim);
            let v = Cell::Num((q.bin)(op, x, y));
            match c {
                Some(c) => {
                    assert(p.code[m.pc] == bytecode::specialised(
                        Op::BinK { kind, dst: slot, a: slot, k: c },
                    ));
                    assert(p.consts[c as int] == Val::Num(y));
                    sums::lemma_summed(q, m, kind, x, y, slot);
                    let m2 = sums::after(q, m, 1);
                    running::lemma_at_written(m, m2, g, f, slot, v, h.code.len() as int);
                    1
                },
                None => {
                    let (g2, rb) = codegen::g_operand(g1, e);
                    assert(sums::has_code(p, g, g2)) by {
                        assert forall|i: int| g.code.len() <= i < g2.code.len() implies
                            #[trigger] p.code[i] == bytecode::specialised(g2.code[i]) by {
                            assert(h.code[i] == g2.code[i]);
                        }
                    }
                    let k = sums::lemma_runs_operand(q, n, f, g, e, m);
                    let m1 = sums::after(q, m, k);
                    assert(p.code[m1.pc] == bytecode::specialised(
                        Op::Bin { kind, dst: slot, a: slot, b: rb },
                    ));
                    assert(m1.stack[m.base + slot] == m.stack[m.base + slot]);
                    sums::lemma_summed(q, m1, kind, x, y, slot);
                    sums::lemma_after(q, m, k, 1);
                    let m2 = sums::after(q, m, k + 1);
                    running::lemma_at_written(m, m2, g, f, slot, v, h.code.len() as int);
                    k + 1
                },
            }
        } else {
            lemma_value_quiet(q, n, f, e);
            0
        },
        _ => 0,
    }
}

/// `return`.
proof fn lemma_follow_return(
    q: Sums,
    n: nat,
    f: Map<u16, Cell>,
    g: Gen,
    st: Stat,
    m: Mach,
    aim: Aim,
) -> (k: nat)
    requires
        st is Return,
        running::is_plain(st),
        running::before(m, g, codegen::g_stat(g, st), f, aim),
    ensures
        running::arrives(
            m,
            sums::after(q, m, k),
            g,
            meaning::t_stat(q, n, f, st),
            codegen::g_stat(g, st).code.len() as int,
            aim,
        ),
{
    reveal(running::grew);
    reveal(running::has_stats);
    running::lemma_of_stat(g, st);
    running::lemma_stat_came(g, st);
    let h = codegen::g_stat(g, st);
    let p = machine::cur(m);
    reveal(codegen::g_slot);
    reveal(codegen::g_alloc);
    reveal(codegen::g_release);
    reveal(codegen::g_emit);
    reveal(codegen::fail);
    match st {
        Stat::Return(es) => if es@.len() == 0 {
            running::lemma_plainly(p, g, h, aim);
            assert(p.code[m.pc] == h.code[m.pc]);
            0
        } else {
            let e = es@[0];
            lemma_value_quiet(q, n, f, e);
            if meaning::t_expr(q, n, f, e) is Num {
                let x = meaning::t_expr(q, n, f, e)->Num_0;
                running::lemma_returned_came(g, e);
                running::lemma_plainly(p, g, h, aim);
                running::lemma_run_returned(q, n, f, g, e, x, m)
            } else {
                0
            }
        },
        _ => 0,
    }
}

/// `break` and `continue`.
proof fn lemma_follow_jump(q: Sums, n: nat, f: Map<u16, Cell>, g: Gen, st: Stat, m: Mach, aim: Aim) -> (k:
    nat)
    requires
        st is Break || st is Continue,
        running::before(m, g, codegen::g_stat(g, st), f, aim),
    ensures
        running::arrives(
            m,
            sums::after(q, m, k),
            g,
            meaning::t_stat(q, n, f, st),
            codegen::g_stat(g, st).code.len() as int,
            aim,
        ),
{
    reveal(running::has_stats);
    running::lemma_of_stat(g, st);
    reveal(codegen::g_break);
    reveal(codegen::g_continue);
    reveal(codegen::g_emit);
    reveal(codegen::fail);
    let h = codegen::g_stat(g, st);
    let p = machine::cur(m);
    let i = g.code.len() as int;
    if g.loops.len() > 0 {
        let l = g.loops.last();
        let hl = h.loops.last();
        if st is Break {
            assert(hl.breaks[l.breaks.len() as int] == i as usize);
            assert(aim.breaks[l.breaks.len() as int] == i as usize);
            assert(aim.breaks.contains(i as usize));
        } else {
            assert(hl.continues[l.continues.len() as int] == i as usize);
            assert(aim.continues[l.continues.len() as int] == i as usize);
            assert(aim.continues.contains(i as usize));
            running::lemma_outside(l.breaks, aim.breaks, g.code.len(), h.code.len(), i);
        }
        let to = if st is Break {
            aim.brk
        } else {
            aim.cont
        };
        assert(p.code[i] == Op::Jump { to });
        lemma_jumped(q, m, to);
        1
    } else {
        0
    }
}

/// An instruction that jumps.
proof fn lemma_jumped(q: Sums, m: Mach, to: u32)
    requires
        sums::clean(m),
        machine::cur(m).code[m.pc] == (Op::Jump { to }),
    ensures
        sums::after(q, m, 1) == sums::moved(m, m.stack, to as int),
{
    reveal(sums::served);
    reveal_with_fuel(sums::after, 2);
    assert(sums::after(q, m, 1) =~= sums::moved(m, m.stack, to as int));
}

// ---- statements one after the other ------------------------------------------------------

/// With the registers from `d` on free to use.
pub open spec fn below(g: Gen, d: u16) -> Gen {
    Gen { free: d, ..g }
}

/// What a block leaves alone, when its value goes somewhere.
spec fn keeps(g: Gen, dst: Option<u16>) -> Gen {
    match dst {
        Some(d) => below(g, d),
        None => g,
    }
}

/// A register for a value nobody wants.
spec fn spare(g: Gen, dst: Option<u16>) -> bool {
    dst matches Some(d) ==> g.n_slots <= d < g.free
}

/// Less is kept.
proof fn lemma_arrives_less(
    m: Mach,
    m2: Mach,
    g: Gen,
    d: u16,
    a: Ends<Map<u16, Cell>>,
    pc: int,
    aim: Aim,
)
    requires
        d <= g.free,
        running::arrives(m, m2, g, a, pc, aim),
    ensures
        running::arrives(m, m2, below(g, d), a, pc, aim),
{
}

/// From where the machine has come it can go on.
proof fn lemma_go_on(
    m: Mach,
    m1: Mach,
    g: Gen,
    g1: Gen,
    h: Gen,
    f1: Map<u16, Cell>,
    aim: Aim,
)
    requires
        running::at(m, m1, g, f1, g1.code.len() as int),
        sums::clean(m),
        !m.jit,
        running::has_stats(machine::cur(m), g1, h, aim),
        running::covers(h, aim),
        sums::has_room(m, h),
        sums::fit(g1),
        h.bad is None,
        g1.n_slots == g.n_slots,
    ensures
        running::before(m1, g1, h, f1, aim),
{
}

#[verifier::spinoff_prover]
#[verifier::rlimit(60)]
pub(super) proof fn lemma_follow_stats(
    q: Sums,
    n: nat,
    f: Map<u16, Cell>,
    g: Gen,
    stats: Seq<Stat>,
    lines: Seq<u32>,
    m: Mach,
    aim: Aim,
) -> (k: nat)
    requires
        running::plain_stats(stats),
        running::before(m, g, codegen::g_stats(g, stats, lines), f, aim),
    ensures
        running::arrives(
            m,
            sums::after(q, m, k),
            g,
            meaning::t_stats(q, n, f, stats),
            codegen::g_stats(g, stats, lines).code.len() as int,
            aim,
        ),
    decreases n, stats, 3int, 0int,
{
    running::lemma_of_stats(g, stats, lines);
    if stats.len() == 0 {
        running::lemma_at_once(m, g, f);
        0
    } else {
        let h = codegen::g_stats(g, stats, lines);
        let p = machine::cur(m);
        let g0 = Gen { line: codegen::line_at(lines, g.line), ..g };
        let g1 = codegen::g_stat(g0, stats[0]);
        let rest = codegen::lines_from(lines, 1);
        running::lemma_stat_came(g0, stats[0]);
        running::lemma_stats_came(g1, stats.drop_first(), rest);
        assert(sums::fit(g0));
        running::lemma_grew(g0, g1);
        running::lemma_grew(g1, h);
        lemma_same_code(p, g, h, g0, h, aim);
        running::lemma_pieces(p, g0, g1, h, aim);
        let j = lemma_follow_stat(q, n, f, g0, stats[0], m, aim);
        let m1 = sums::after(q, m, j);
        let a = meaning::t_stat(q, n, f, stats[0]);
        match a {
            Ends::Done(f1) => {
                lemma_go_on(m, m1, g, g1, h, f1, aim);
                let l = lemma_follow_stats(q, n, f1, g1, stats.drop_first(), rest, m1, aim);
                sums::lemma_after(q, m, j, l);
                running::lemma_arrives_on(
                    m,
                    m1,
                    sums::after(q, m1, l),
                    g,
                    g1,
                    f1,
                    meaning::t_stats(q, n, f1, stats.drop_first()),
                    g1.code.len() as int,
                    h.code.len() as int,
                    aim,
                );
                j + l
            },
            _ => j,
        }
    }
}

/// A block whose value nobody wants.
#[verifier::spinoff_prover]
#[verifier::rlimit(60)]
proof fn lemma_follow_block(
    q: Sums,
    n: nat,
    f: Map<u16, Cell>,
    g: Gen,
    b: Block,
    dst: Option<u16>,
    m: Mach,
    aim: Aim,
) -> (k: nat)
    requires
        running::plain_block(b),
        spare(g, dst),
        running::before(m, g, codegen::g_block(g, b, dst), f, aim),
    ensures
        running::arrives(
            m,
            sums::after(q, m, k),
            keeps(g, dst),
            meaning::t_block(q, n, f, b, false),
            codegen::g_block(g, b, dst).code.len() as int,
            aim,
        ),
    decreases n, b, 3int, 0int,
{
    running::lemma_of_block(g, b, dst);
    running::lemma_stats_came(g, b.stats@, b.lines@);
    let g1 = codegen::g_stats(g, b.stats@, b.lines@);
    let h = codegen::g_block(g, b, dst);
    let p = machine::cur(m);
    running::lemma_block_came(g, b, dst);
    lemma_block_tail(g, b, dst);
    running::lemma_grew(g, g1);
    running::lemma_grew(g1, h);
    running::lemma_pieces(p, g, g1, h, aim);
    let j = lemma_follow_stats(q, n, f, g, b.stats@, b.lines@, m, aim);
    let m1 = sums::after(q, m, j);
    let kg = keeps(g, dst);
    match meaning::t_stats(q, n, f, b.stats@) {
        Ends::Done(f1) => {
            lemma_go_on(m, m1, g, g1, h, f1, aim);
            running::lemma_at_once(m1, kg, f1);
            match b.tail {
                Some(e) => {
                    let (g3, d) = tail_place(g1, b, dst);
                    let h3 = codegen::g_expr(g3, *e, d);
                    lemma_same_code(p, g1, h, g3, h3, aim);
                    assert(running::before(m1, g3, h3, f1, aim));
                    let l = lemma_follow_unit(q, n, f1, g3, *e, d, true, m1, aim);
                    sums::lemma_after(q, m, j, l);
                    let a = meaning::t_unit(q, n, f1, *e);
                    let m2 = sums::after(q, m1, l);
                    assert(running::arrives(m1, m2, below(g3, d), a, h.code.len() as int, aim));
                    assert(running::at(m, m1, kg, f1, g1.code.len() as int));
                    running::lemma_arrives_on(
                        m,
                        m1,
                        m2,
                        kg,
                        below(g3, d),
                        f1,
                        a,
                        g1.code.len() as int,
                        h.code.len() as int,
                        aim,
                    );
                    j + l
                },
                None => match dst {
                    Some(d) => {
                        running::lemma_plainly(p, g1, h, aim);
                        lemma_cleared(q, m1, g1, f1, d);
                        sums::lemma_after(q, m, j, 1);
                        let m2 = sums::after(q, m1, 1);
                        running::lemma_at_on(
                            m,
                            m1,
                            m2,
                            kg,
                            kg,
                            f1,
                            f1,
                            g1.code.len() as int,
                            h.code.len() as int,
                        );
                        j + 1
                    },
                    None => j,
                },
            }
        },
        a => {
            if dst is Some {
                lemma_arrives_less(
                    m,
                    m1,
                    g,
                    dst->Some_0,
                    meaning::passed(a),
                    h.code.len() as int,
                    aim,
                );
            }
            j
        },
    }
}

/// Where the value at the end of a block goes.
spec fn tail_place(g1: Gen, b: Block, dst: Option<u16>) -> (Gen, u16) {
    let g2 = codegen::g_tail_line(g1, b.tail_line);
    match dst {
        Some(d) => (g2, d),
        None => codegen::g_alloc(g2),
    }
}

/// What the end of a block adds.
proof fn lemma_block_tail(g: Gen, b: Block, dst: Option<u16>)
    requires
        running::plain_block(b),
        sums::fit(g),
        codegen::g_block(g, b, dst).bad is None,
        spare(g, dst),
    ensures
        ({
            let g1 = codegen::g_stats(g, b.stats@, b.lines@);
            let h = codegen::g_block(g, b, dst);
            &&& g1.bad is None
            &&& running::grew(g, g1)
            &&& running::grew(g1, h)
            &&& match b.tail {
                Some(e) => {
                    let (g3, d) = tail_place(g1, b, dst);
                    let h3 = codegen::g_expr(g3, *e, d);
                    &&& sums::fit(g3)
                    &&& g3.n_slots == g1.n_slots <= d < g3.free
                    &&& (dst is None ==> d == g1.free)
                    &&& g3.code == g1.code
                    &&& g3.loops == g1.loops
                    &&& h3.bad is None
                    &&& h3.code == h.code
                    &&& h3.consts == h.consts
                    &&& h3.globals == h.globals
                    &&& h3.loops == h.loops
                    &&& h3.max_regs == h.max_regs
                },
                None => match dst {
                    Some(d) => h.code == g1.code.push(Op::Nil { dst: d }) && h.loops == g1.loops,
                    None => h == g1,
                },
            }
        }),
{
    reveal(running::grew);
    running::lemma_of_block(g, b, dst);
    running::lemma_stats_came(g, b.stats@, b.lines@);
    reveal(codegen::g_emit);
    reveal(codegen::g_alloc);
    reveal(codegen::g_release);
    reveal(codegen::g_tail_line);
    reveal(codegen::fail);
    let g1 = codegen::g_stats(g, b.stats@, b.lines@);
    match b.tail {
        Some(e) => {
            let (g3, d) = tail_place(g1, b, dst);
            running::lemma_unit_came(g3, *e, d);
        },
        None => {},
    }
}

/// Code that is the same is in place alike.
proof fn lemma_same_code(p: ProtoView, g: Gen, h: Gen, g3: Gen, h3: Gen, aim: Aim)
    requires
        g3.code == g.code,
        h3.code == h.code,
        h3.consts == h.consts,
        h3.globals == h.globals,
        h3.loops == h.loops,
        running::has_stats(p, g, h, aim),
        running::covers(h, aim),
    ensures
        running::has_stats(p, g3, h3, aim),
        running::covers(h3, aim),
{
    reveal(running::has_stats);
}

/// A register that nobody wants is cleared.
proof fn lemma_cleared(q: Sums, m: Mach, g: Gen, f: Map<u16, Cell>, d: u16)
    requires
        sums::clean(m),
        g.n_slots <= d < g.free,
        0 <= m.base,
        m.base + g.free <= m.stack.len(),
        sums::in_regs(m, g.n_slots, f),
        machine::cur(m).code[m.pc] == (Op::Nil { dst: d }),
    ensures
        running::at(m, sums::after(q, m, 1), below(g, d), f, m.pc + 1),
{
    assert(machine::step(m) == (machine::next(machine::put(m, d, Val::Nil)), Out::Run));
    running::lemma_put_value(q, m, d, Val::Nil);
    let m2 = sums::after(q, m, 1);
    assert forall|x: u16| #[trigger] f.contains_key(x) && x < g.n_slots implies machine::reg(m2, x)
        == sums::cell_val(f[x]) by {
        assert(machine::reg(m, x) == sums::cell_val(f[x]));
    }
}

/// An expression whose value nobody wants.
#[verifier::spinoff_prover]
#[verifier::rlimit(60)]
proof fn lemma_follow_unit(
    q: Sums,
    n: nat,
    f: Map<u16, Cell>,
    g: Gen,
    e: Expr,
    d: u16,
    valued: bool,
    m: Mach,
    aim: Aim,
) -> (k: nat)
    requires
        running::plain_unit(e),
        g.n_slots <= d < g.free,
        running::before(m, g, unit_code(g, e, d, valued), f, aim),
    ensures
        running::arrives(
            m,
            sums::after(q, m, k),
            below(g, d),
            meaning::t_unit(q, n, f, e),
            unit_code(g, e, d, valued).code.len() as int,
            aim,
        ),
    decreases n, e, 3int, 0int,
{
    running::lemma_of_unit(g, e, d);
    running::lemma_unit_came(g, e, d);
    let h = unit_code(g, e, d, valued);
    let dst = if valued {
        Some(d)
    } else {
        None
    };
    let a = meaning::t_unit(q, n, f, e);
    match e {
        Expr::Do(b) => {
            let k = lemma_follow_block(q, n, f, g, b, dst, m, aim);
            if !valued {
                lemma_arrives_less(m, sums::after(q, m, k), g, d, a, h.code.len() as int, aim);
            }
            k
        },
        Expr::If(..) => {
            let k = lemma_follow_if(q, n, f, g, e, dst, m, aim);
            if !valued {
                lemma_arrives_less(m, sums::after(q, m, k), g, d, a, h.code.len() as int, aim);
            }
            k
        },
        _ => {
            lemma_value_quiet(q, n, f, e);
            if a is Done {
                reveal(codegen::g_release);
                running::lemma_value_came(g, e, d);
                assert(codegen::g_release(h, g.free) =~= h);
                running::lemma_plainly(machine::cur(m), g, h, aim);
                let k = sums::lemma_runs(q, n, f, g, e, d, m);
                let m2 = sums::after(q, m, k);
                assert forall|x: u16| #[trigger]
                    f.contains_key(x) && x < g.n_slots implies machine::reg(m2, x)
                    == sums::cell_val(f[x]) by {
                    assert(machine::reg(m, x) == sums::cell_val(f[x]));
                    assert(m2.stack[m.base + x] == m.stack[m.base + x]);
                }
                k
            } else {
                0
            }
        },
    }
}

spec fn unit_code(g: Gen, e: Expr, d: u16, valued: bool) -> Gen {
    if valued {
        codegen::g_expr(g, e, d)
    } else {
        codegen::g_discard(g, e, d)
    }
}

#[verifier::spinoff_prover]
#[verifier::rlimit(60)]
pub(super) proof fn lemma_follow_stat(
    q: Sums,
    n: nat,
    f: Map<u16, Cell>,
    g: Gen,
    st: Stat,
    m: Mach,
    aim: Aim,
) -> (k: nat)
    requires
        running::is_plain(st),
        running::before(m, g, codegen::g_stat(g, st), f, aim),
    ensures
        running::arrives(
            m,
            sums::after(q, m, k),
            g,
            meaning::t_stat(q, n, f, st),
            codegen::g_stat(g, st).code.len() as int,
            aim,
        ),
    decreases n, st, 3int, 0int,
{
    match st {
        Stat::LetSlots(..) | Stat::Assign(..) => lemma_follow_let(q, n, f, g, st, m, aim),
        Stat::OpAssign(..) => lemma_follow_update(q, n, f, g, st, m, aim),
        Stat::Return(..) => lemma_follow_return(q, n, f, g, st, m, aim),
        Stat::Break | Stat::Continue => lemma_follow_jump(q, n, f, g, st, m, aim),
        Stat::While(..) | Stat::Loop(..) => lemma_follow_loop(q, n, f, g, st, m, aim),
        Stat::ForRange { .. } => lemma_follow_for(q, n, f, g, st, m, aim),
        Stat::Expr(e) => if running::is_done(e) {
            lemma_follow_done(q, n, f, g, st, m, aim)
        } else {
            lemma_follow_expr(q, n, f, g, st, m, aim)
        },
        _ => {
            running::lemma_of_stat(g, st);
            running::lemma_at_once(m, g, f);
            0
        },
    }
}

/// A call for its own sake.
#[verifier::spinoff_prover]
proof fn lemma_follow_done(
    q: Sums,
    n: nat,
    f: Map<u16, Cell>,
    g: Gen,
    st: Stat,
    m: Mach,
    aim: Aim,
) -> (k: nat)
    requires
        st matches Stat::Expr(e) && running::is_done(e),
        running::before(m, g, codegen::g_stat(g, st), f, aim),
    ensures
        running::arrives(
            m,
            sums::after(q, m, k),
            g,
            meaning::t_stat(q, n, f, st),
            codegen::g_stat(g, st).code.len() as int,
            aim,
        ),
{
    running::lemma_of_stat(g, st);
    let h = codegen::g_stat(g, st);
    match st {
        Stat::Expr(e) => {
            running::lemma_done_came(g, e);
            lemma_value_quiet(q, n, f, e);
            if meaning::t_expr(q, n, f, e) is Num {
                let p = machine::cur(m);
                let (g1, tmp) = codegen::g_alloc(g);
                let h1 = codegen::g_call(g1, e, tmp, 0);
                reveal(codegen::g_alloc);
                reveal(codegen::g_release);
                reveal(codegen::fail);
                running::lemma_plainly(p, g, h, aim);
                sums::lemma_added_call(g1, e, tmp, 0);
                assert(sums::ready(m, g1, h1, f));
                let k = sums::lemma_runs_unit(q, n, f, g1, e, tmp, m);
                let m2 = sums::after(q, m, k);
                assert(sums::in_regs(m2, g.n_slots, f)) by {
                    assert forall|x: u16| #[trigger]
                        f.contains_key(x) && x < g.n_slots implies machine::reg(m2, x)
                        == sums::cell_val(f[x]) by {
                        assert(machine::reg(m, x) == sums::cell_val(f[x]));
                        assert(m2.stack[m.base + x] == m.stack[m.base + x]);
                    }
                }
                k
            } else {
                0
            }
        },
        _ => 0,
    }
}

/// An expression for what it does.
#[verifier::spinoff_prover]
#[verifier::rlimit(60)]
proof fn lemma_follow_expr(
    q: Sums,
    n: nat,
    f: Map<u16, Cell>,
    g: Gen,
    st: Stat,
    m: Mach,
    aim: Aim,
) -> (k: nat)
    requires
        running::is_plain(st),
        st matches Stat::Expr(e) && !running::is_done(e),
        running::before(m, g, codegen::g_stat(g, st), f, aim),
    ensures
        running::arrives(
            m,
            sums::after(q, m, k),
            g,
            meaning::t_stat(q, n, f, st),
            codegen::g_stat(g, st).code.len() as int,
            aim,
        ),
    decreases n, st, 2int, 0int,
{
    running::lemma_of_stat(g, st);
    running::lemma_stat_came(g, st);
    match st {
        Stat::Expr(e) => {
            reveal(codegen::g_alloc);
            reveal(codegen::g_release);
            reveal(codegen::fail);
            let (g1, tmp) = codegen::g_alloc(g);
            running::lemma_unit_came(g1, e, tmp);
            let h1 = codegen::g_discard(g1, e, tmp);
            lemma_same_code(machine::cur(m), g, codegen::g_stat(g, st), g1, h1, aim);
            assert(running::before(m, g1, h1, f, aim));
            let k = lemma_follow_unit(q, n, f, g1, e, tmp, false, m, aim);
            let a = meaning::t_stat(q, n, f, st);
            assert(running::arrives(
                m,
                sums::after(q, m, k),
                below(g1, tmp),
                a,
                h1.code.len() as int,
                aim,
            ));
            k
        },
        _ => 0,
    }
}

// ---- arms --------------------------------------------------------------------------------

/// A finished function has the code of some arms, with the jumps past them
/// pointed.
#[verifier::opaque]
spec fn has_arms(p: ProtoView, g: Gen, h: Gen, ends: Seq<usize>, end: u32, a: Aim) -> bool {
    &&& h.code.len() <= p.code.len()
    &&& forall|i: int|
        g.code.len() <= i < h.code.len() ==> #[trigger] p.code[i] == bytecode::specialised(
            running::aimed(
                if ends.contains(i as usize) {
                    codegen::retarget(h.code[i], end)
                } else {
                    h.code[i]
                },
                i,
                a.breaks,
                a.continues,
                a.brk,
                a.cont,
            ),
        )
    &&& running::has_consts(p, h)
}

/// The pieces of the first arm, in place.
#[verifier::spinoff_prover]
#[verifier::rlimit(60)]
proof fn lemma_arm_in_place(
    p: ProtoView,
    g: Gen,
    arms: Seq<(Expr, Block)>,
    els: bool,
    dst: Option<u16>,
    end: u32,
    aim: Aim,
)
    requires
        arms.len() > 0,
        running::plain_arms(arms),
        sums::fit(g),
        codegen::g_arms(g, arms, els, dst).0.bad is None,
        has_arms(
            p,
            g,
            codegen::g_arms(g, arms, els, dst).0,
            codegen::g_arms(g, arms, els, dst).1,
            end,
            aim,
        ),
        running::covers(codegen::g_arms(g, arms, els, dst).0, aim),
    ensures
        ({
            let last = arms.len() == 1 && !els;
            let (g1, next, g2, g3, g4) = running::arm_parts(g, arms[0].0, arms[0].1, last, dst);
            let (g5, ends) = codegen::g_arms(g4, arms.drop_first(), els, dst);
            &&& g5 == codegen::g_arms(g, arms, els, dst).0
            &&& g1.bad is None && g2.bad is None && g4.bad is None
            &&& sums::came_to(g, g1)
            &&& running::grew(g1, g2)
            &&& running::grew(g2, g3)
            &&& running::grew(g, g4)
            &&& running::grew(g4, g5)
            &&& g4.code.len() == g3.code.len()
            &&& g2.max_regs <= g5.max_regs
            &&& running::has_cond(p, g, g1, next, codegen::here(g3))
            &&& running::has_stats(p, g1, g2, aim)
            &&& running::covers(g2, aim)
            &&& (last ==> g5 == g4 && g3 == g2)
            &&& (!last ==> g3.code.len() == g2.code.len() + 1 && p.code[g2.code.len() as int] == (
            Op::Jump { to: end }))
            &&& has_arms(p, g4, g5, ends, end, aim)
        }),
{
    reveal(running::has_cond);
    reveal(running::grew);
    reveal(running::has_stats);
    reveal(has_arms);
    running::lemma_of_arms(g, arms, els, dst);
    let last = arms.len() == 1 && !els;
    let (g1, next, g2, g3, g4) = running::arm_parts(g, arms[0].0, arms[0].1, last, dst);
    let (g5, more) = codegen::g_arms(g4, arms.drop_first(), els, dst);
    let ends = codegen::g_arms(g, arms, els, dst).1;
    running::lemma_cond_came(g, arms[0].0, true);
    running::lemma_block_came(g1, arms[0].1, dst);
    running::lemma_arms_came(g4, arms.drop_first(), els, dst);
    running::lemma_of_arms(g4, arms.drop_first(), els, dst);
    reveal(codegen::g_patch_all);
    reveal(codegen::g_emit);
    reveal(codegen::fail);
    running::lemma_patch_keeps(g3, next, codegen::here(g3));
    running::lemma_calm(g, g1);
    running::lemma_grew_on(g, g1, g2);
    assert(running::grew(g2, g3));
    running::lemma_grew_on(g, g2, g3);
    running::lemma_patched(g3, next, codegen::here(g3));
    running::lemma_within(next, g.code.len(), g1.code.len());
    assert(running::grew(g, g4));
    assert(sums::fit(g4));
    running::lemma_within(more, g4.code.len(), g5.code.len());
    // g3 differs from g4 only where the condition jumps
    assert(running::covers(g4, aim)) by {
        running::lemma_covers(g4, g5, aim);
    }
    assert(running::covers(g3, aim));
    running::lemma_covers(g2, g3, aim);
    running::lemma_covers(g1, g2, aim);
    if !last {
        running::lemma_either_list(seq![g2.code.len() as usize], more, g2.code.len() as usize);
        assert(seq![g2.code.len() as usize][0] == g2.code.len() as usize);
        assert(seq![g2.code.len() as usize].contains(g2.code.len() as usize));
    }
    assert forall|i: int| g.code.len() <= i < g5.code.len() && i != g2.code.len() implies
        #[trigger] ends.contains(i as usize) == more.contains(i as usize) by {
        if !last {
            running::lemma_either_list(seq![g2.code.len() as usize], more, i as usize);
        }
    }
    assert forall|i: int| g.code.len() <= i < g1.code.len() implies #[trigger] p.code[i]
        == bytecode::specialised(
        if next.contains(i as usize) {
            codegen::retarget(g1.code[i], codegen::here(g3))
        } else {
            g1.code[i]
        },
    ) by {
        assert(g5.code[i] == g4.code[i]);
        assert(g3.code[i] == g1.code[i]) by {
            assert(g2.code[i] == g1.code[i]);
        }
        assert(!more.contains(i as usize));
        assert(!ends.contains(i as usize)) by {
            assert(ends.contains(i as usize) == more.contains(i as usize));
        }
        if g.loops.len() > 0 {
            running::lemma_outside(
                g.loops.last().breaks,
                aim.breaks,
                g.code.len(),
                g1.code.len(),
                i,
            );
            running::lemma_outside(
                g.loops.last().continues,
                aim.continues,
                g.code.len(),
                g1.code.len(),
                i,
            );
        }
    }
    assert forall|i: int| g1.code.len() <= i < g2.code.len() implies #[trigger] p.code[i]
        == bytecode::specialised(
        running::aimed(g2.code[i], i, aim.breaks, aim.continues, aim.brk, aim.cont),
    ) by {
        assert(g5.code[i] == g4.code[i]);
        assert(!next.contains(i as usize));
        assert(g3.code[i] == g2.code[i]);
        assert(!more.contains(i as usize));
        assert(ends.contains(i as usize) == more.contains(i as usize));
    }
    assert forall|i: int| 0 <= i < g2.consts.len() implies #[trigger] p.consts[i] == g2.consts[i] by {
        assert(g4.consts[i] == g2.consts[i]);
        assert(g5.consts[i] == g4.consts[i]);
    }
    assert forall|i: int| 0 <= i < g1.consts.len() implies #[trigger] p.consts[i] == g1.consts[i] by {
        assert(g2.consts[i] == g1.consts[i]);
    }
    if !last {
        let i = g2.code.len() as int;
        assert(g5.code[i] == g4.code[i]);
        assert(!next.contains(i as usize));
        assert(ends.contains(i as usize));
        if g2.loops.len() > 0 {
            running::lemma_outside(
                g2.loops.last().breaks,
                aim.breaks,
                g2.code.len(),
                g3.code.len(),
                i,
            );
            running::lemma_outside(
                g2.loops.last().continues,
                aim.continues,
                g2.code.len(),
                g3.code.len(),
                i,
            );
        }
        assert(p.code[i] == Op::Jump { to: end });
    }
    assert forall|i: int| g4.code.len() <= i < g5.code.len() implies #[trigger] p.code[i]
        == bytecode::specialised(
        running::aimed(
            if more.contains(i as usize) {
                codegen::retarget(g5.code[i], end)
            } else {
                g5.code[i]
            },
            i,
            aim.breaks,
            aim.continues,
            aim.brk,
            aim.cont,
        ),
    ) by {
        assert(ends.contains(i as usize) == more.contains(i as usize));
    }
}

/// What comes of the arms of an `if`: none was taken, or one ended so.
spec fn armed(
    q: Sums,
    n: nat,
    f: Map<u16, Cell>,
    e: Expr,
    i: nat,
    g: Gen,
    dst: Option<u16>,
    h: Gen,
    end: u32,
    m: Mach,
    m2: Mach,
    fell: bool,
    aim: Aim,
) -> bool {
    match e {
        Expr::If(arms, els) => {
            let a = meaning::t_if(q, n, f, e, i, false);
            if fell {
                &&& running::at(m, m2, g, f, h.code.len() as int)
                &&& a == match els {
                    Some(b) => meaning::t_block(q, n, f, b, false),
                    None => Ends::Done(f),
                }
            } else {
                match a {
                    Ends::Done(f1) => running::at(m, m2, keeps(g, dst), f1, end as int) || (els is None
                        && running::at(m, m2, keeps(g, dst), f1, h.code.len() as int)),
                    _ => running::arrives(m, m2, keeps(g, dst), a, end as int, aim),
                }
            }
        },
        _ => true,
    }
}

/// The arms of an `if` from `i` on.
#[verifier::spinoff_prover]
#[verifier::rlimit(60)]
proof fn lemma_follow_arms(
    q: Sums,
    n: nat,
    f: Map<u16, Cell>,
    g: Gen,
    e: Expr,
    i: nat,
    arms: Seq<(Expr, Block)>,
    els: Option<Block>,
    dst: Option<u16>,
    end: u32,
    m: Mach,
    aim: Aim,
) -> (r: (nat, bool))
    requires
        e matches Expr::If(all, other) && i < all@.len() && arms == all@.skip(i as int) && els
            == other,
        running::plain_arms(arms),
        spare(g, dst),
        sums::clean(m),
        !m.jit,
        m.pc == g.code.len(),
        sums::in_regs(m, g.n_slots, f),
        sums::fit(g),
        ({
            let (h, ends) = codegen::g_arms(g, arms, els is Some || dst is Some, dst);
            &&& h.bad is None
            &&& sums::has_room(m, h)
            &&& has_arms(machine::cur(m), g, h, ends, end, aim)
            &&& running::covers(h, aim)
        }),
    ensures
        armed(
            q,
            n,
            f,
            e,
            i,
            g,
            dst,
            codegen::g_arms(g, arms, els is Some || dst is Some, dst).0,
            end,
            m,
            sums::after(q, m, r.0),
            r.1,
            aim,
        ),
    decreases
            n,
            e,
            1int,
            (match e {
                Expr::If(all, _) => all@.len() - i,
                _ => 0,
            }),
{
    let p = machine::cur(m);
    match e {
        Expr::If(all, _) => {
            let last = arms.len() == 1 && els is None && dst is None;
            let c = all@[i as int].0;
            let b = all@[i as int].1;
            assert(arms[0] == all@[i as int]);
            let (g1, next, g2, g3, g4) = running::arm_parts(g, c, b, last, dst);
            let (g5, ends) = codegen::g_arms(g4, arms.drop_first(), els is Some || dst is Some, dst);
            lemma_arm_in_place(p, g, arms, els is Some || dst is Some, dst, end, aim);
            running::lemma_grew(g1, g2);
            running::lemma_grew(g, g4);
            running::lemma_grew(g4, g5);
            running::lemma_cond_quiet(q, n, f, c, true);
            match meaning::t_cond(q, n, f, c) {
                Ends::Truth(x, _) => {
                    let j = running::lemma_run_cond(q, n, f, g, c, true, codegen::here(g3), m);
                    let m1 = sums::after(q, m, j);
                    assert(sums::in_regs(m1, g.n_slots, f));
                    if x {
                        assert(running::at(m, m1, g, f, g1.code.len() as int));
                        let k = lemma_arm_taken(
                            q,
                            n,
                            f,
                            g,
                            g1,
                            b,
                            g2,
                            dst,
                            last,
                            end,
                            m,
                            m1,
                            j,
                            aim,
                        );
                        (k, false)
                    } else {
                        assert(running::at(m, m1, g, f, g4.code.len() as int));
                        if arms.len() == 1 {
                            running::lemma_of_arms(g4, arms.drop_first(), els is Some || dst is Some, dst);
                            (j, true)
                        } else {
                            assert(arms.drop_first() =~= all@.skip(i as int + 1));
                            let (l, fell) = lemma_follow_arms(
                                q,
                                n,
                                f,
                                g4,
                                e,
                                i + 1,
                                arms.drop_first(),
                                els,
                                dst,
                                end,
                                m1,
                                aim,
                            );
                            sums::lemma_after(q, m, j, l);
                            lemma_armed_on(
                                q,
                                n,
                                f,
                                e,
                                i,
                                g,
                                g4,
                                dst,
                                g5,
                                end,
                                m,
                                m1,
                                sums::after(q, m1, l),
                                fell,
                                aim,
                            );
                            (j + l, fell)
                        }
                    }
                },
                _ => (0, false),
            }
        },
        _ => (0, false),
    }
}

/// An arm that is taken.
proof fn lemma_arm_taken(
    q: Sums,
    n: nat,
    f: Map<u16, Cell>,
    g: Gen,
    g1: Gen,
    b: Block,
    g2: Gen,
    dst: Option<u16>,
    last: bool,
    end: u32,
    m: Mach,
    m1: Mach,
    j: nat,
    aim: Aim,
) -> (k: nat)
    requires
        running::plain_block(b),
        sums::came_to(g, g1),
        g2 == codegen::g_block(g1, b, dst),
        g2.bad is None,
        spare(g, dst),
        sums::clean(m),
        !m.jit,
        sums::has_room(m, g2),
        m1 == sums::after(q, m, j),
        running::at(m, m1, g, f, g1.code.len() as int),
        running::has_stats(machine::cur(m), g1, g2, aim),
        running::covers(g2, aim),
        !last ==> machine::cur(m).code[g2.code.len() as int] == (Op::Jump { to: end }),
    ensures
        ({
            let a = meaning::t_block(q, n, f, b, false);
            let m2 = sums::after(q, m, k);
            match a {
                Ends::Done(f1) => running::at(
                    m,
                    m2,
                    keeps(g, dst),
                    f1,
                    if last {
                        g2.code.len() as int
                    } else {
                        end as int
                    },
                ),
                _ => running::arrives(m, m2, keeps(g, dst), a, end as int, aim),
            }
        }),
    decreases n, b, 4int, 0int,
{
    lemma_go_on(m, m1, g, g1, g2, f, aim);
    let l = lemma_follow_block(q, n, f, g1, b, dst, m1, aim);
    let m2 = sums::after(q, m1, l);
    sums::lemma_after(q, m, j, l);
    let a = meaning::t_block(q, n, f, b, false);
    let kg = keeps(g, dst);
    assert(running::at(m, m1, kg, f, g1.code.len() as int));
    running::lemma_arrives_on(
        m,
        m1,
        m2,
        kg,
        keeps(g1, dst),
        f,
        a,
        g1.code.len() as int,
        g2.code.len() as int,
        aim,
    );
    match a {
        Ends::Done(f1) => if last {
            j + l
        } else {
            lemma_jumped(q, m2, end);
            sums::lemma_after(q, m, j + l, 1);
            lemma_at_moved(m, m2, kg, f1, g2.code.len() as int, end as int);
            j + l + 1
        },
        _ => j + l,
    }
}

/// A jump changes nothing else.
proof fn lemma_at_moved(m: Mach, m2: Mach, g: Gen, f: Map<u16, Cell>, pc: int, to: int)
    requires
        running::at(m, m2, g, f, pc),
    ensures
        running::at(m, sums::moved(m2, m2.stack, to), g, f, to),
{
    let m3 = sums::moved(m2, m2.stack, to);
    assert forall|x: u16| #[trigger] f.contains_key(x) && x < g.n_slots implies machine::reg(m3, x)
        == sums::cell_val(f[x]) by {
        assert(machine::reg(m2, x) == sums::cell_val(f[x]));
    }
}

/// The next arm after one that was not taken.
proof fn lemma_armed_on(
    q: Sums,
    n: nat,
    f: Map<u16, Cell>,
    e: Expr,
    i: nat,
    g: Gen,
    g4: Gen,
    dst: Option<u16>,
    h: Gen,
    end: u32,
    m: Mach,
    m1: Mach,
    m2: Mach,
    fell: bool,
    aim: Aim,
)
    requires
        e matches Expr::If(all, _) && i + 1 < all@.len() && meaning::t_cond(
            q,
            n,
            f,
            all@[i as int].0,
        ) == Ends::<Map<u16, Cell>>::Truth(false, f),
        running::grew(g, g4),
        spare(g, dst),
        running::at(m, m1, g, f, g4.code.len() as int),
        armed(q, n, f, e, i + 1, g4, dst, h, end, m1, m2, fell, aim),
    ensures
        armed(q, n, f, e, i, g, dst, h, end, m, m2, fell, aim),
{
    reveal(running::grew);
    let a = meaning::t_if(q, n, f, e, i + 1, false);
    assert(meaning::t_if(q, n, f, e, i, false) == a);
    let kg = keeps(g, dst);
    let kg4 = keeps(g4, dst);
    assert(running::at(m, m1, kg, f, g4.code.len() as int));
    if fell {
        running::lemma_at_on(m, m1, m2, g, g4, f, f, g4.code.len() as int, h.code.len() as int);
    } else {
        match a {
            Ends::Done(f1) => {
                if running::at(m1, m2, kg4, f1, end as int) {
                    running::lemma_at_on(
                        m,
                        m1,
                        m2,
                        kg,
                        kg4,
                        f,
                        f1,
                        g4.code.len() as int,
                        end as int,
                    );
                } else {
                    running::lemma_at_on(
                        m,
                        m1,
                        m2,
                        kg,
                        kg4,
                        f,
                        f1,
                        g4.code.len() as int,
                        h.code.len() as int,
                    );
                }
            },
            _ => {
                running::lemma_arrives_on(
                    m,
                    m1,
                    m2,
                    kg,
                    kg4,
                    f,
                    a,
                    g4.code.len() as int,
                    end as int,
                    aim,
                );
            },
        }
    }
}

/// What is after the arms of an `if`.
spec fn else_code(g1: Gen, els: Option<Block>, dst: Option<u16>) -> Gen {
    match els {
        Some(b) => codegen::g_block(g1, b, dst),
        None => match dst {
            Some(d) => codegen::g_emit(g1, Op::Nil { dst: d }),
            None => g1,
        },
    }
}

/// The pieces of an `if`, in place.
proof fn lemma_if_in_place(p: ProtoView, g: Gen, e: Expr, dst: Option<u16>, aim: Aim)
    requires
        e is If,
        running::plain_unit(e),
        sums::fit(g),
        codegen::g_if(g, e, dst).bad is None,
        running::has_stats(p, g, codegen::g_if(g, e, dst), aim),
        running::covers(codegen::g_if(g, e, dst), aim),
    ensures
        match e {
            Expr::If(arms, els) => {
                let (g1, ends) = codegen::g_arms(g, arms@, els is Some || dst is Some, dst);
                let g2 = else_code(g1, els, dst);
                let h = codegen::g_if(g, e, dst);
                &&& g1.bad is None
                &&& g2.bad is None
                &&& running::grew(g, g1)
                &&& running::grew(g1, g2)
                &&& h.code.len() == g2.code.len()
                &&& h.max_regs == g2.max_regs
                &&& has_arms(p, g, g1, ends, codegen::here(g2), aim)
                &&& running::has_stats(p, g1, g2, aim)
                &&& running::covers(g1, aim)
                &&& running::covers(g2, aim)
                &&& (els is None && dst is Some ==> g2.code == g1.code.push(
                    Op::Nil { dst: dst->Some_0 },
                ) && g2.loops == g1.loops)
            },
            _ => true,
        },
{
    reveal(running::grew);
    reveal(running::has_stats);
    reveal(has_arms);
    running::lemma_of_if(g, e, dst);
    reveal(codegen::g_patch_all);
    reveal(codegen::g_emit);
    reveal(codegen::fail);
    match e {
        Expr::If(arms, els) => {
            let (g1, ends) = codegen::g_arms(g, arms@, els is Some || dst is Some, dst);
            running::lemma_arms_came(g, arms@, els is Some || dst is Some, dst);
            let g2 = else_code(g1, els, dst);
            match els {
                Some(b) => running::lemma_block_came(g1, b, dst),
                None => {},
            }
            let h = codegen::g_if(g, e, dst);
            let end = codegen::here(g2);
            running::lemma_patch_keeps(g2, ends, end);
            assert(running::grew(g1, g2));
            running::lemma_patched(g2, ends, end);
            running::lemma_within(ends, g.code.len(), g1.code.len());
            assert(running::covers(g2, aim));
            running::lemma_covers(g1, g2, aim);
            assert forall|i: int| g.code.len() <= i < g1.code.len() implies #[trigger] p.code[i]
                == bytecode::specialised(
                running::aimed(
                    if ends.contains(i as usize) {
                        codegen::retarget(g1.code[i], end)
                    } else {
                        g1.code[i]
                    },
                    i,
                    aim.breaks,
                    aim.continues,
                    aim.brk,
                    aim.cont,
                ),
            ) by {
                assert(g2.code[i] == g1.code[i]);
                assert(h.code[i] == if ends.contains(i as usize) {
                    codegen::retarget(g2.code[i], end)
                } else {
                    g2.code[i]
                });
            }
            assert forall|i: int| g1.code.len() <= i < g2.code.len() implies #[trigger] p.code[i]
                == bytecode::specialised(
                running::aimed(g2.code[i], i, aim.breaks, aim.continues, aim.brk, aim.cont),
            ) by {
                assert(!ends.contains(i as usize));
                assert(h.code[i] == g2.code[i]);
            }
            assert forall|i: int| 0 <= i < g1.consts.len() implies #[trigger] p.consts[i]
                == g1.consts[i] by {
                assert(g2.consts[i] == g1.consts[i]);
            }
        },
        _ => {},
    }
}

#[verifier::spinoff_prover]
#[verifier::rlimit(60)]
proof fn lemma_follow_if(
    q: Sums,
    n: nat,
    f: Map<u16, Cell>,
    g: Gen,
    e: Expr,
    dst: Option<u16>,
    m: Mach,
    aim: Aim,
) -> (k: nat)
    requires
        e is If,
        running::plain_unit(e),
        spare(g, dst),
        running::before(m, g, codegen::g_if(g, e, dst), f, aim),
    ensures
        running::arrives(
            m,
            sums::after(q, m, k),
            keeps(g, dst),
            meaning::t_if(q, n, f, e, 0, false),
            codegen::g_if(g, e, dst).code.len() as int,
            aim,
        ),
    decreases n, e, 2int, 0int,
{
    let p = machine::cur(m);
    let h = codegen::g_if(g, e, dst);
    lemma_if_in_place(p, g, e, dst, aim);
    match e {
        Expr::If(arms, els) => {
            let (g1, ends) = codegen::g_arms(g, arms@, els is Some || dst is Some, dst);
            let g2 = else_code(g1, els, dst);
            let end = codegen::here(g2);
            let kg = keeps(g, dst);
            running::lemma_grew(g, g1);
            running::lemma_grew(g1, g2);
            assert(arms@.skip(0) =~= arms@);
            let (j, fell) = lemma_follow_arms(
                q,
                n,
                f,
                g,
                e,
                0,
                arms@,
                els,
                dst,
                end,
                m,
                aim,
            );
            let m1 = sums::after(q, m, j);
            let a = meaning::t_if(q, n, f, e, 0, false);
            let at_end = a is Done && running::at(m, m1, kg, a->Done_0, end as int);
            if fell && els is Some {
                let b = els->Some_0;
                lemma_go_on(m, m1, g, g1, g2, f, aim);
                let l = lemma_follow_block(q, n, f, g1, b, dst, m1, aim);
                sums::lemma_after(q, m, j, l);
                assert(running::at(m, m1, kg, f, g1.code.len() as int));
                running::lemma_arrives_on(
                    m,
                    m1,
                    sums::after(q, m1, l),
                    kg,
                    keeps(g1, dst),
                    f,
                    a,
                    g1.code.len() as int,
                    end as int,
                    aim,
                );
                j + l
            } else if a is Done && !at_end && dst is Some {
                // past the last arm, the register is cleared
                let f1 = a->Done_0;
                let d = dst->Some_0;
                assert(running::at(m, m1, kg, f1, g1.code.len() as int));
                running::lemma_plainly(p, g1, g2, aim);
                lemma_cleared(q, m1, g1, f1, d);
                sums::lemma_after(q, m, j, 1);
                running::lemma_at_on(
                    m,
                    m1,
                    sums::after(q, m1, 1),
                    kg,
                    below(g1, d),
                    f1,
                    f1,
                    g1.code.len() as int,
                    end as int,
                );
                j + 1
            } else {
                j
            }
        },
        _ => 0,
    }
}

// ---- loops -------------------------------------------------------------------------------

/// Where the jumps out of a loop's body go.
pub open spec fn inner_aim(gb: Gen, brk: u32, cont: u32) -> Aim {
    Aim {
        breaks: gb.loops.last().breaks,
        continues: gb.loops.last().continues,
        brk,
        cont,
    }
}

/// The body of a loop, in place.
pub open spec fn body_in_place(p: ProtoView, g1: Gen, exits: Seq<usize>, b: Block, gb: Gen, brk: u32, cont: u32) -> bool {
    let ge = codegen::g_enter(g1, exits);
    &&& running::plain_block(b)
    &&& gb == codegen::g_block(ge, b, None)
    &&& gb.bad is None
    &&& sums::fit(g1)
    &&& sums::fit(ge)
    &&& running::grew(ge, gb)
    &&& gb.code.len() < p.code.len()
    &&& running::has_stats(p, ge, gb, inner_aim(gb, brk, cont))
}

/// Once a loop is closed, what is in it is in place.
proof fn lemma_loop_in_place(
    p: ProtoView,
    g: Gen,
    g1: Gen,
    exits: Seq<usize>,
    gb: Gen,
    h: Gen,
    cont: u32,
    aim: Aim,
)
    requires
        sums::fit(g),
        sums::came_to(g, g1),
        running::all_within(exits, g.code.len(), g1.code.len()),
        running::grew(codegen::g_enter(g1, exits), gb),
        running::loop_closed(gb, h, cont),
        running::has_stats(p, g, h, aim),
        running::covers(h, aim),
    ensures
        running::has_cond(p, g, g1, exits, h.code.len() as u32),
        running::has_stats(
            p,
            codegen::g_enter(g1, exits),
            gb,
            inner_aim(gb, h.code.len() as u32, cont),
        ),
        p.code[gb.code.len() as int] == bytecode::specialised(h.code[gb.code.len() as int]),
        gb.code.len() < p.code.len(),
{
    reveal(running::has_cond);
    reveal(running::grew);
    reveal(running::has_stats);
    running::lemma_entered(g, g1, exits, gb, h, cont);
    reveal(codegen::g_enter);
    let ge = codegen::g_enter(g1, exits);
    assert(ge.loops.drop_last() =~= g1.loops);
    running::lemma_plainly(p, g, h, aim);
    let brk = h.code.len() as u32;
    let ctx = gb.loops.last();
    assert forall|i: int| g.code.len() <= i < g1.code.len() implies #[trigger] p.code[i]
        == bytecode::specialised(
        if exits.contains(i as usize) {
            codegen::retarget(g1.code[i], brk)
        } else {
            g1.code[i]
        },
    ) by {
        assert(p.code[i] == bytecode::specialised(h.code[i]));
        assert(gb.code[i] == g1.code[i]);
        lemma_prefix_has(exits, ctx.breaks, g1.code.len(), gb.code.len(), i);
        lemma_prefix_has(Seq::empty(), ctx.continues, g1.code.len(), gb.code.len(), i);
    }
    assert forall|i: int| 0 <= i < g1.consts.len() implies #[trigger] p.consts[i] == g1.consts[i] by {
        assert(gb.consts[i] == ge.consts[i]);
    }
    assert forall|i: int| ge.code.len() <= i < gb.code.len() implies #[trigger] p.code[i]
        == bytecode::specialised(
        running::aimed(gb.code[i], i, ctx.breaks, ctx.continues, brk, cont),
    ) by {
        assert(p.code[i] == bytecode::specialised(h.code[i]));
    }
    assert forall|i: int| 0 <= i < gb.consts.len() implies #[trigger] p.consts[i] == gb.consts[i] by {
        assert(h.consts[i] == gb.consts[i]);
    }
}

/// Early places in a list that has grown are those it began with.
proof fn lemma_prefix_has(s: Seq<usize>, t: Seq<usize>, from: nat, to: nat, i: int)
    requires
        running::more(s, t, from, to),
        0 <= i < from <= u32::MAX,
    ensures
        t.contains(i as usize) == s.contains(i as usize),
{
    if t.contains(i as usize) {
        let j = choose|j: int| 0 <= j < t.len() && t[j] == i as usize;
        assert(j < s.len());
        assert(s[j] == i as usize);
    }
    if s.contains(i as usize) {
        let j = choose|j: int| 0 <= j < s.len() && s[j] == i as usize;
        assert(t[j] == i as usize);
    }
}

/// A back edge that nothing takes over.
proof fn lemma_ticked(q: Sums, m: Mach, to: u32)
    requires
        sums::clean(m),
        !m.jit,
        machine::cur(m).code[m.pc] is JumpBack,
        machine::cur(m).code[m.pc]->JumpBack_to == to,
    ensures
        ({
            let m2 = sums::after(q, m, 1);
            m2 == Mach { ticks: m2.ticks, pc: to as int, ..m }
        }),
{
    reveal(sums::served);
    reveal_with_fuel(sums::after, 2);
    let m2 = sums::after(q, m, 1);
    assert(m2 =~= Mach { ticks: m2.ticks, pc: to as int, ..m });
}

/// A loop that goes round while its condition holds, or until something leaves.
proof fn lemma_follow_while(
    q: Sums,
    n: nat,
    f: Map<u16, Cell>,
    g: Gen,
    g1: Gen,
    exits: Seq<usize>,
    test: Option<Expr>,
    c: Option<Expr>,
    b: Block,
    gb: Gen,
    end: u32,
    m: Mach,
    aim: Aim,
) -> (k: nat)
    requires
        rounds(machine::cur(m), g, g1, exits, test, c, b, gb, end),
        sums::clean(m),
        !m.jit,
        m.pc == g.code.len(),
        sums::in_regs(m, g.n_slots, f),
        sums::has_room(m, gb),
    ensures
        running::arrives(
            m,
            sums::after(q, m, k),
            g,
            meaning::t_while(q, n, f, c, b),
            end as int,
            aim,
        ),
    decreases n, b, 5int, 0int,
{
    if n == 0 {
        0
    } else {
        match test {
            Some(e) => lemma_follow_tested(q, n, f, g, g1, exits, e, b, gb, end, m, aim),
            None => {
                lemma_while_is(q, n, f, c, b);
                running::lemma_at_once(m, g, f);
                lemma_follow_turn(
                    q,
                    (n - 1) as nat,
                    f,
                    g,
                    g1,
                    exits,
                    test,
                    c,
                    b,
                    gb,
                    end,
                    m,
                    m,
                    0,
                    aim,
                )
            },
        }
    }
}

/// A loop, by its first turn.
proof fn lemma_while_is(q: Sums, n: nat, f: Map<u16, Cell>, c: Option<Expr>, b: Block)
    requires
        n > 0,
    ensures
        c is None || c == Some(Expr::Bool(true)) ==> meaning::t_while(q, n, f, c, b) == turn_ends(
            q,
            (n - 1) as nat,
            f,
            c,
            b,
        ),
        c matches Some(e) ==> match meaning::t_cond(q, (n - 1) as nat, f, e) {
            Ends::Truth(x, f1) => meaning::t_while(q, n, f, c, b) == if x {
                turn_ends(q, (n - 1) as nat, f1, c, b)
            } else {
                Ends::Done(f1)
            },
            other => meaning::t_while(q, n, f, c, b) == meaning::passed(other),
        },
{
}

/// A loop that begins with a test.
proof fn lemma_follow_tested(
    q: Sums,
    n: nat,
    f: Map<u16, Cell>,
    g: Gen,
    g1: Gen,
    exits: Seq<usize>,
    e: Expr,
    b: Block,
    gb: Gen,
    end: u32,
    m: Mach,
    aim: Aim,
) -> (k: nat)
    requires
        n > 0,
        rounds(machine::cur(m), g, g1, exits, Some(e), Some(e), b, gb, end),
        sums::clean(m),
        !m.jit,
        m.pc == g.code.len(),
        sums::in_regs(m, g.n_slots, f),
        sums::has_room(m, gb),
    ensures
        running::arrives(
            m,
            sums::after(q, m, k),
            g,
            meaning::t_while(q, n, f, Some(e), b),
            end as int,
            aim,
        ),
    decreases n, b, 4int, 0int,
{
    let less = (n - 1) as nat;
    lemma_while_is(q, n, f, Some(e), b);
    running::lemma_cond_quiet(q, less, f, e, true);
    match meaning::t_cond(q, less, f, e) {
        Ends::Truth(x, _) => {
            lemma_at_test(g, g1, exits, gb, m, f, end);
            let j = running::lemma_run_cond(q, less, f, g, e, true, end, m);
            let m1 = sums::after(q, m, j);
            if x {
                lemma_still_at(m, m1, g, f, g1.code.len() as int);
                lemma_follow_turn(
                    q,
                    less,
                    f,
                    g,
                    g1,
                    exits,
                    Some(e),
                    Some(e),
                    b,
                    gb,
                    end,
                    m,
                    m1,
                    j,
                    aim,
                )
            } else {
                lemma_still_at(m, m1, g, f, end as int);
                j
            }
        },
        _ => 0,
    }
}

/// The machine stands before the test of a loop.
proof fn lemma_at_test(
    g: Gen,
    g1: Gen,
    exits: Seq<usize>,
    gb: Gen,
    m: Mach,
    f: Map<u16, Cell>,
    end: u32,
)
    requires
        sums::fit(g),
        running::grew(codegen::g_enter(g1, exits), gb),
        running::has_cond(machine::cur(m), g, g1, exits, end),
        sums::clean(m),
        m.pc == g.code.len(),
        sums::in_regs(m, g.n_slots, f),
        sums::has_room(m, gb),
    ensures
        running::at_cond(m, g, g1, exits, end, f),
{
    running::lemma_grew(codegen::g_enter(g1, exits), gb);
    lemma_inside(g1, exits);
}

/// Where nothing has changed, the locals are what they were.
pub(super) proof fn lemma_still_at(m: Mach, m2: Mach, g: Gen, f: Map<u16, Cell>, pc: int)
    requires
        sums::fit(g),
        0 <= m.base,
        sums::in_regs(m, g.n_slots, f),
        running::still(m, m2, g.free, pc),
    ensures
        running::at(m, m2, g, f, pc),
{
    assert forall|x: u16| #[trigger] f.contains_key(x) && x < g.n_slots implies machine::reg(m2, x)
        == sums::cell_val(f[x]) by {
        assert(machine::reg(m, x) == sums::cell_val(f[x]));
        assert(m2.stack[m.base + x] == m.stack[m.base + x]);
    }
}

/// What comes of one turn.
spec fn turn_ends(q: Sums, n: nat, f: Map<u16, Cell>, c: Option<Expr>, b: Block) -> Ends<
    Map<u16, Cell>,
> {
    match meaning::t_block(q, n, f, b, false) {
        Ends::Done(f2) => meaning::t_while(q, n, f2, c, b),
        Ends::Out(x, f2) => match x {
            Exit::Break => Ends::Done(f2),
            Exit::Next(_) => meaning::t_while(q, n, f2, c, b),
            Exit::Return(_) => Ends::Out(x, f2),
        },
        other => meaning::passed(other),
    }
}

/// One turn of a loop, and what is after it.
#[verifier::spinoff_prover]
#[verifier::rlimit(60)]
proof fn lemma_follow_turn(
    q: Sums,
    n: nat,
    f: Map<u16, Cell>,
    g: Gen,
    g1: Gen,
    exits: Seq<usize>,
    test: Option<Expr>,
    c: Option<Expr>,
    b: Block,
    gb: Gen,
    end: u32,
    m: Mach,
    m1: Mach,
    j: nat,
    aim: Aim,
) -> (k: nat)
    requires
        rounds(machine::cur(m), g, g1, exits, test, c, b, gb, end),
        sums::clean(m),
        !m.jit,
        sums::has_room(m, gb),
        m1 == sums::after(q, m, j),
        running::at(m, m1, g, f, g1.code.len() as int),
    ensures
        running::arrives(
            m,
            sums::after(q, m, k),
            g,
            turn_ends(q, n, f, c, b),
            end as int,
            aim,
        ),
    decreases n, b, 7int, 0int,
{
    let ge = codegen::g_enter(g1, exits);
    lemma_inside(g1, exits);
    let a1 = inner_aim(gb, end, codegen::here(g));
    running::lemma_grew(ge, gb);
    lemma_go_on(m, m1, g, ge, gb, f, a1);
    let l = lemma_follow_block(q, n, f, ge, b, None, m1, a1);
    let m2 = sums::after(q, m1, l);
    sums::lemma_after(q, m, j, l);
    let t = meaning::t_block(q, n, f, b, false);
    running::lemma_loop_left(m, m1, m2, g, ge, f, t, g1.code.len() as int, gb.code.len() as int, a1);
    match t {
        Ends::Done(f2) => {
            lemma_ticked(q, m2, codegen::here(g));
            let m3 = sums::after(q, m2, 1);
            sums::lemma_after(q, m, j + l, 1);
            lemma_at_ticked(m, m2, m3, g, f2, gb.code.len() as int, g.code.len() as int);
            lemma_again(q, n, f2, g, g1, exits, test, c, b, gb, end, m, m3, j + l + 1, aim)
        },
        Ends::Out(Exit::Next(_), f2) => {
            lemma_again(q, n, f2, g, g1, exits, test, c, b, gb, end, m, m2, j + l, aim)
        },
        _ => j + l,
    }
}

/// The scope inside a loop.
proof fn lemma_inside(g1: Gen, exits: Seq<usize>)
    ensures
        ({
            let ge = codegen::g_enter(g1, exits);
            &&& ge.bad == g1.bad
            &&& ge.code == g1.code
            &&& ge.free == g1.free
            &&& ge.n_slots == g1.n_slots
            &&& ge.max_regs == g1.max_regs
            &&& ge.loops.len() == g1.loops.len() + 1
        }),
{
    reveal(codegen::g_enter);
}

proof fn lemma_at_ticked(
    m: Mach,
    m2: Mach,
    m3: Mach,
    g: Gen,
    f: Map<u16, Cell>,
    pc: int,
    to: int,
)
    requires
        running::at(m, m2, g, f, pc),
        m3 == (Mach { ticks: m3.ticks, pc: to, ..m2 }),
    ensures
        running::at(m, m3, g, f, to),
{
    assert forall|x: u16| #[trigger] f.contains_key(x) && x < g.n_slots implies machine::reg(m3, x)
        == sums::cell_val(f[x]) by {
        assert(machine::reg(m2, x) == sums::cell_val(f[x]));
    }
}

/// A loop that goes round, in place.
spec fn rounds(
    p: ProtoView,
    g: Gen,
    g1: Gen,
    exits: Seq<usize>,
    test: Option<Expr>,
    c: Option<Expr>,
    b: Block,
    gb: Gen,
    end: u32,
) -> bool {
    &&& sums::fit(g)
    &&& sums::came_to(g, g1)
    &&& match test {
        Some(e) => running::is_cond(e, true) && codegen::g_cond(g, e, true) == (g1, exits) && c
            == test && running::has_cond(p, g, g1, exits, end),
        None => g1 == g && (c is None || c == Some(Expr::Bool(true))),
    }
    &&& body_in_place(p, g1, exits, b, gb, end, codegen::here(g))
    &&& p.code[gb.code.len() as int] is JumpBack
    &&& p.code[gb.code.len() as int]->JumpBack_to == codegen::here(g)
}

/// Once more round a loop.
proof fn lemma_again(
    q: Sums,
    n: nat,
    f: Map<u16, Cell>,
    g: Gen,
    g1: Gen,
    exits: Seq<usize>,
    test: Option<Expr>,
    c: Option<Expr>,
    b: Block,
    gb: Gen,
    end: u32,
    m: Mach,
    m3: Mach,
    j: nat,
    aim: Aim,
) -> (k: nat)
    requires
        rounds(machine::cur(m), g, g1, exits, test, c, b, gb, end),
        sums::clean(m),
        !m.jit,
        sums::has_room(m, gb),
        m3 == sums::after(q, m, j),
        running::at(m, m3, g, f, g.code.len() as int),
    ensures
        running::arrives(
            m,
            sums::after(q, m, k),
            g,
            meaning::t_while(q, n, f, c, b),
            end as int,
            aim,
        ),
    decreases n, b, 6int, 0int,
{
    let l = lemma_follow_while(q, n, f, g, g1, exits, test, c, b, gb, end, m3, aim);
    sums::lemma_after(q, m, j, l);
    running::lemma_arrives_on(
        m,
        m3,
        sums::after(q, m3, l),
        g,
        g,
        f,
        meaning::t_while(q, n, f, c, b),
        g.code.len() as int,
        end as int,
        aim,
    );
    j + l
}

proof fn lemma_follow_loop(
    q: Sums,
    n: nat,
    f: Map<u16, Cell>,
    g: Gen,
    st: Stat,
    m: Mach,
    aim: Aim,
) -> (k: nat)
    requires
        st is While || st is Loop,
        running::is_plain(st),
        running::before(m, g, codegen::g_stat(g, st), f, aim),
    ensures
        running::arrives(
            m,
            sums::after(q, m, k),
            g,
            meaning::t_stat(q, n, f, st),
            codegen::g_stat(g, st).code.len() as int,
            aim,
        ),
    decreases n, st, 2int, 0int,
{
    running::lemma_of_stat(g, st);
    let h = codegen::g_stat(g, st);
    let p = machine::cur(m);
    match st {
        Stat::While(id, c, b) => {
            let test = if c == Expr::Bool(true) {
                None
            } else {
                Some(c)
            };
            let (g1, exits) = if c == Expr::Bool(true) {
                (g, Seq::<usize>::empty())
            } else {
                codegen::g_cond(g, c, true)
            };
            if c != Expr::Bool(true) {
                running::lemma_cond_came(g, c, true);
            }
            let gb = codegen::g_block(codegen::g_enter(g1, exits), b, None);
            lemma_loop_parts(p, g, g1, exits, b, gb, h, id, aim);
            lemma_follow_while(
                q,
                n,
                f,
                g,
                g1,
                exits,
                test,
                Some(c),
                b,
                gb,
                h.code.len() as u32,
                m,
                aim,
            )
        },
        Stat::Loop(id, b) => {
            let exits = Seq::<usize>::empty();
            let gb = codegen::g_block(codegen::g_enter(g, exits), b, None);
            lemma_loop_parts(p, g, g, exits, b, gb, h, id, aim);
            lemma_follow_while(
                q,
                n,
                f,
                g,
                g,
                exits,
                None,
                None,
                b,
                gb,
                h.code.len() as u32,
                m,
                aim,
            )
        },
        _ => 0,
    }
}

/// The pieces of a loop, in place.
proof fn lemma_loop_parts(
    p: ProtoView,
    g: Gen,
    g1: Gen,
    exits: Seq<usize>,
    b: Block,
    gb: Gen,
    h: Gen,
    id: u32,
    aim: Aim,
)
    requires
        running::plain_block(b),
        running::cond_came(g, g1, exits) || (g1 == g && exits.len() == 0),
        gb == codegen::g_block(codegen::g_enter(g1, exits), b, None),
        h == codegen::g_close_loop(gb, codegen::here(g), id),
        h.bad is None,
        sums::fit(g),
        running::has_stats(p, g, h, aim),
        running::covers(h, aim),
    ensures
        sums::came_to(g, g1),
        running::has_cond(p, g, g1, exits, h.code.len() as u32),
        body_in_place(p, g1, exits, b, gb, h.code.len() as u32, codegen::here(g)),
        p.code[gb.code.len() as int] is JumpBack,
        p.code[gb.code.len() as int]->JumpBack_to == codegen::here(g),
        gb.max_regs == h.max_regs,
        h.code.len() <= u32::MAX,
{
    reveal(running::grew);
    reveal(running::has_stats);
    let ge = codegen::g_enter(g1, exits);
    running::lemma_block_came(ge, b, None);
    running::lemma_closed(gb, codegen::here(g), id);
    assert(g1.bad is None) by {
        reveal(codegen::g_enter);
    }
    running::lemma_entered_fit(g1, exits);
    lemma_loop_in_place(p, g, g1, exits, gb, h, codegen::here(g), aim);
}

// ---- counted loops -----------------------------------------------------------------------

/// A counter steps, and the loop goes round or ends.
proof fn lemma_stepped(
    q: Sums,
    m: Mach,
    counter: u16,
    limit: u16,
    to: u32,
    le: bool,
    x: u64,
    y: u64,
)
    requires
        sums::clean(m),
        !m.jit,
        match machine::cur(m).code[m.pc] {
            Op::ForLoop { counter: c, limit: l, to: t, id, hint, le: e } => c == counter && l
                == limit && t == to && e == le,
            _ => false,
        },
        machine::reg(m, counter) == Val::Num(x),
        machine::reg(m, limit) == Val::Num(y),
        counter != limit,
        0 <= m.base,
        m.base + counter < m.stack.len(),
        m.base + limit < m.stack.len(),
    ensures
        ({
            let v = (q.bin)(BinOp::Add, x, ONE);
            let m2 = sums::after(q, m, 1);
            m2 == Mach {
                stack: m.stack.update(m.base + counter, Val::Num(v)),
                ticks: m2.ticks,
                pc: if meaning::goes_round(v, y, le) {
                    to as int
                } else {
                    m.pc + 1
                },
                ..m
            }
        }),
{
    reveal(sums::served);
    reveal_with_fuel(sums::after, 2);
    let v = (q.bin)(BinOp::Add, x, ONE);
    let m2 = sums::after(q, m, 1);
    let m1 = machine::put(m, counter, Val::Num(v));
    assert(machine::reg(m1, limit) == Val::Num(y));
    assert(m2 =~= Mach {
        stack: m.stack.update(m.base + counter, Val::Num(v)),
        ticks: m2.ticks,
        pc: if meaning::goes_round(v, y, le) {
            to as int
        } else {
            m.pc + 1
        },
        ..m
    });
}

/// A counted loop, in place from its body on.
pub open spec fn counts(
    p: ProtoView,
    g4: Gen,
    exits: Seq<usize>,
    slot: u16,
    limit: u16,
    inclusive: bool,
    b: Block,
    gb: Gen,
) -> bool {
    &&& slot < g4.n_slots <= limit < g4.free
    &&& body_in_place(p, g4, exits, b, gb, (gb.code.len() + 1) as u32, codegen::here(gb))
    &&& gb.code.len() < u32::MAX
    &&& match p.code[gb.code.len() as int] {
        Op::ForLoop { counter: c, limit: l, to, id, hint, le } => c == slot && l == limit && to
            == codegen::here(g4) && le == inclusive,
        _ => false,
    }
}

/// The turns of a counted loop whose counter stands at a number to go round with.
#[verifier::spinoff_prover]
#[verifier::rlimit(60)]
pub(super) proof fn lemma_follow_count(
    q: Sums,
    n: nat,
    f: Map<u16, Cell>,
    g4: Gen,
    exits: Seq<usize>,
    slot: u16,
    limit: u16,
    end: u64,
    inclusive: bool,
    b: Block,
    gb: Gen,
    m: Mach,
    aim: Aim,
) -> (k: nat)
    requires
        counts(machine::cur(m), g4, exits, slot, limit, inclusive, b, gb),
        sums::clean(m),
        !m.jit,
        m.pc == g4.code.len(),
        sums::in_regs(m, g4.n_slots, f),
        sums::has_room(m, gb),
        machine::reg(m, limit) == Val::Num(end),
        meaning::t_local(f, slot) matches Ends::Num(x, _) && meaning::goes_round(x, end, inclusive),
    ensures
        running::arrives(
            m,
            sums::after(q, m, k),
            below(g4, limit),
            meaning::t_count(q, n, f, slot, end, inclusive, b),
            gb.code.len() as int + 1,
            aim,
        ),
    decreases n, b, 5int, 0int,
{
    if n == 0 {
        0
    } else {
        let less = (n - 1) as nat;
        let ge = codegen::g_enter(g4, exits);
        lemma_inside(g4, exits);
        running::lemma_grew(ge, gb);
        let brk = (gb.code.len() + 1) as u32;
        let a1 = inner_aim(gb, brk, codegen::here(gb));
        let kg = below(g4, limit);
        running::lemma_at_once(m, g4, f);
        lemma_go_on(m, m, g4, ge, gb, f, a1);
        let j = lemma_follow_block(q, less, f, ge, b, None, m, a1);
        let m1 = sums::after(q, m, j);
        let t = meaning::t_block(q, less, f, b, false);
        running::lemma_loop_left(
            m,
            m,
            m1,
            g4,
            ge,
            f,
            t,
            g4.code.len() as int,
            gb.code.len() as int,
            a1,
        );
        match t {
            Ends::Done(f1) => lemma_count_on(
                q,
                n,
                f1,
                g4,
                exits,
                slot,
                limit,
                end,
                inclusive,
                b,
                gb,
                m,
                m1,
                j,
                aim,
            ),
            Ends::Out(Exit::Next(_), f1) => lemma_count_on(
                q,
                n,
                f1,
                g4,
                exits,
                slot,
                limit,
                end,
                inclusive,
                b,
                gb,
                m,
                m1,
                j,
                aim,
            ),
            _ => j,
        }
    }
}

/// The counter steps, and the rest follows.
proof fn lemma_count_on(
    q: Sums,
    n: nat,
    f1: Map<u16, Cell>,
    g4: Gen,
    exits: Seq<usize>,
    slot: u16,
    limit: u16,
    end: u64,
    inclusive: bool,
    b: Block,
    gb: Gen,
    m: Mach,
    m1: Mach,
    j: nat,
    aim: Aim,
) -> (k: nat)
    requires
        n > 0,
        counts(machine::cur(m), g4, exits, slot, limit, inclusive, b, gb),
        sums::clean(m),
        !m.jit,
        sums::has_room(m, gb),
        machine::reg(m, limit) == Val::Num(end),
        m1 == sums::after(q, m, j),
        running::at(m, m1, g4, f1, gb.code.len() as int),
    ensures
        running::arrives(
            m,
            sums::after(q, m, k),
            below(g4, limit),
            meaning::t_stepped(q, n, f1, slot, end, inclusive, b),
            gb.code.len() as int + 1,
            aim,
        ),
    decreases n, b, 4int, 0int,
{
    let less = (n - 1) as nat;
    let kg = below(g4, limit);
    lemma_inside(g4, exits);
    running::lemma_grew(codegen::g_enter(g4, exits), gb);
    match meaning::t_local(f1, slot) {
        Ends::Num(y, _) => {
            assert(f1.contains_key(slot));
            assert(machine::reg(m1, slot) == Val::Num(y));
            assert(m1.stack[m.base + limit] == m.stack[m.base + limit]);
            lemma_stepped(q, m1, slot, limit, codegen::here(g4), inclusive, y, end);
            let m2 = sums::after(q, m1, 1);
            sums::lemma_after(q, m, j, 1);
            let v = (q.bin)(BinOp::Add, y, ONE);
            let f2 = f1.insert(slot, Cell::Num(v));
            lemma_counted_at(m, m1, m2, g4, f1, slot, v, gb.code.len() as int);
            if meaning::goes_round(v, end, inclusive) && less > 0 {
                assert(m2.stack[m.base + limit] == m1.stack[m.base + limit]);
                let l = lemma_follow_count(
                    q,
                    less,
                    f2,
                    g4,
                    exits,
                    slot,
                    limit,
                    end,
                    inclusive,
                    b,
                    gb,
                    m2,
                    aim,
                );
                sums::lemma_after(q, m, j + 1, l);
                running::lemma_arrives_on(
                    m,
                    m2,
                    sums::after(q, m2, l),
                    kg,
                    kg,
                    f2,
                    meaning::t_count(q, less, f2, slot, end, inclusive, b),
                    g4.code.len() as int,
                    gb.code.len() as int + 1,
                    aim,
                );
                j + 1 + l
            } else {
                j + 1
            }
        },
        _ => 0,
    }
}

/// The locals once a counter has stepped.
proof fn lemma_counted_at(
    m: Mach,
    m1: Mach,
    m2: Mach,
    g: Gen,
    f: Map<u16, Cell>,
    slot: u16,
    v: u64,
    pc: int,
)
    requires
        slot < g.n_slots <= g.free,
        0 <= m.base,
        m.base + g.free <= m.stack.len(),
        running::at(m, m1, g, f, pc),
        m2 == (Mach {
            stack: m1.stack.update(m.base + slot, Val::Num(v)),
            ticks: m2.ticks,
            pc: m2.pc,
            ..m1
        }),
    ensures
        running::at(m, m2, g, f.insert(slot, Cell::Num(v)), m2.pc),
{
    let f2 = f.insert(slot, Cell::Num(v));
    assert forall|x: u16| #[trigger] f2.contains_key(x) && x < g.n_slots implies machine::reg(m2, x)
        == sums::cell_val(f2[x]) by {
        if x != slot {
            assert(f.contains_key(x));
            assert(machine::reg(m1, x) == sums::cell_val(f[x]));
        }
    }
}

spec fn for_parts(g: Gen, st: Stat) -> (Gen, u16, Gen, Gen, Gen, Gen) {
    match st {
        Stat::ForRange { id, var, binding: Some(b), start, end, inclusive, body } => {
            let (g2, limit) = codegen::g_alloc(codegen::g_slot(g, b.slot));
            let gs = codegen::g_expr(g2, start, b.slot);
            let g3 = codegen::g_expr(gs, end, limit);
            let g4 = codegen::g_emit(
                g3,
                Op::JumpIfNot { kind: order_kind(inclusive), a: b.slot, b: limit, to: 0 },
            );
            let gb = codegen::g_block(
                codegen::g_enter(g4, seq![g3.code.len() as usize]),
                body,
                None,
            );
            (g2, limit, gs, g3, g4, gb)
        },
        _ => (g, 0, g, g, g, g),
    }
}

spec fn order_kind(inclusive: bool) -> BinKind {
    if inclusive {
        BinKind::Le
    } else {
        BinKind::Lt
    }
}

/// The pieces of a counted loop, in place.
#[verifier::spinoff_prover]
#[verifier::rlimit(60)]
proof fn lemma_for_in_place(p: ProtoView, g: Gen, st: Stat, aim: Aim)
    requires
        running::is_plain(st),
        st is ForRange,
        sums::fit(g),
        codegen::g_stat(g, st).bad is None,
        running::has_stats(p, g, codegen::g_stat(g, st), aim),
        running::covers(codegen::g_stat(g, st), aim),
    ensures
        match st {
            Stat::ForRange { id, var, binding: Some(b), start, end, inclusive, body } => {
                let (g2, limit, gs, g3, g4, gb) = for_parts(g, st);
                let h = codegen::g_stat(g, st);
                &&& b.slot < g.n_slots
                &&& limit == g.free
                &&& g2.code == g.code
                &&& g2.n_slots == g.n_slots
                &&& g2.free == g.free + 1
                &&& g2.loops == g.loops
                &&& sums::fit(g2)
                &&& gs.bad is None && g3.bad is None && gb.bad is None
                &&& sums::came_to(g2, gs)
                &&& sums::came_to(gs, g3)
                &&& sums::has_code(p, g2, gs)
                &&& sums::has_code(p, gs, g3)
                &&& g4.code.len() == g3.code.len() + 1
                &&& g4.free == g2.free
                &&& g4.n_slots == g2.n_slots
                &&& g4.loops == g.loops
                &&& p.code[g3.code.len() as int] == (Op::JumpIfNot {
                    kind: order_kind(inclusive),
                    a: b.slot,
                    b: limit,
                    to: h.code.len() as u32,
                })
                &&& h.code.len() == gb.code.len() + 1
                &&& h.code.len() <= u32::MAX
                &&& h.max_regs == gb.max_regs
                &&& g3.max_regs <= gb.max_regs
                &&& counts(
                    p,
                    g4,
                    seq![g3.code.len() as usize],
                    b.slot,
                    limit,
                    inclusive,
                    body,
                    gb,
                )
            },
            _ => true,
        },
{
    reveal(running::grew);
    reveal(running::has_stats);
    reveal(running::has_cond);
    running::lemma_of_stat(g, st);
    running::lemma_of_for(g, st);
    reveal(codegen::g_emit);
    reveal(codegen::g_alloc);
    reveal(codegen::g_release);
    reveal(codegen::g_slot);
    reveal(codegen::fail);
    match st {
        Stat::ForRange { id, var, binding, start, end, inclusive, body } => {
            let b = binding->Some_0;
            let (g2, limit, gs, g3, g4, gb) = for_parts(g, st);
            let h = codegen::g_stat(g, st);
            let exits = seq![g3.code.len() as usize];
            let ge = codegen::g_enter(g4, exits);
            let top = codegen::here(g4);
            let h0 = running::closed_count(gb, b.slot, limit, top, id, inclusive);
            running::lemma_value_came(g2, start, b.slot);
            running::lemma_value_came(gs, end, limit);
            running::lemma_block_came(ge, body, None);
            running::lemma_count_closed(gb, b.slot, limit, top, id, inclusive);
            lemma_inside(g4, exits);
            assert(sums::fit(g2));
            assert(sums::came_to(g2, g4));
            assert(running::all_within(exits, g2.code.len(), g4.code.len()));
            running::lemma_entered_fit(g4, exits);
            lemma_loop_in_place(p, g2, g4, exits, gb, h0, codegen::here(gb), aim);
            assert(exits[0] == g3.code.len() as usize);
            assert(exits.contains(g3.code.len() as usize));
            assert forall|i: int| g2.code.len() <= i < g3.code.len() implies #[trigger] p.code[i]
                == bytecode::specialised(g3.code[i]) by {
                assert(!exits.contains(i as usize));
                assert(g4.code[i] == g3.code[i]);
            }
            assert forall|i: int| g2.code.len() <= i < gs.code.len() implies #[trigger] p.code[i]
                == bytecode::specialised(gs.code[i]) by {
                assert(g3.code[i] == gs.code[i]);
            }
            assert forall|i: int| 0 <= i < gs.consts.len() implies #[trigger] p.consts[i]
                == gs.consts[i] by {
                assert(g3.consts[i] == gs.consts[i]);
            }
        },
        _ => {},
    }
}

#[verifier::spinoff_prover]
#[verifier::rlimit(60)]
proof fn lemma_follow_for(
    q: Sums,
    n: nat,
    f: Map<u16, Cell>,
    g: Gen,
    st: Stat,
    m: Mach,
    aim: Aim,
) -> (k: nat)
    requires
        st is ForRange,
        running::is_plain(st),
        running::before(m, g, codegen::g_stat(g, st), f, aim),
    ensures
        running::arrives(
            m,
            sums::after(q, m, k),
            g,
            meaning::t_stat(q, n, f, st),
            codegen::g_stat(g, st).code.len() as int,
            aim,
        ),
    decreases n, st, 2int, 0int,
{
    let p = machine::cur(m);
    lemma_for_in_place(p, g, st, aim);
    match st {
        Stat::ForRange { id, var, binding, start, end, inclusive, body } => {
            let b = binding->Some_0;
            let (g2, limit, gs, g3, g4, gb) = for_parts(g, st);
            let h = codegen::g_stat(g, st);
            lemma_value_quiet(q, n, f, start);
            lemma_value_quiet(q, n, f, end);
            match (meaning::t_expr(q, n, f, start), meaning::t_expr(q, n, f, end)) {
                (Ends::Num(x, _), Ends::Num(y, _)) => {
                    let f1 = f.insert(b.slot, Cell::Num(x));
                    running::lemma_avoids(q, n, f, end, b.slot, Cell::Num(x));
                    let j = lemma_for_begun(q, n, f, g, st, x, y, m, aim);
                    let m2 = sums::after(q, m, j);
                    lemma_inside(g4, seq![g3.code.len() as usize]);
                    running::lemma_grew(codegen::g_enter(g4, seq![g3.code.len() as usize]), gb);
                    if meaning::goes_round(x, y, inclusive) && n > 0 {
                        let l = lemma_follow_count(
                            q,
                            n,
                            f1,
                            g4,
                            seq![g3.code.len() as usize],
                            b.slot,
                            limit,
                            y,
                            inclusive,
                            body,
                            gb,
                            m2,
                            aim,
                        );
                        sums::lemma_after(q, m, j, l);
                        running::lemma_arrives_on(
                            m,
                            m2,
                            sums::after(q, m2, l),
                            g,
                            below(g4, limit),
                            f1,
                            meaning::t_count(q, n, f1, b.slot, y, inclusive, body),
                            g4.code.len() as int,
                            h.code.len() as int,
                            aim,
                        );
                        j + l
                    } else {
                        j
                    }
                },
                _ => 0,
            }
        },
        _ => 0,
    }
}

/// The bounds of a counted loop are worked out, and the first test made.
proof fn lemma_for_begun(
    q: Sums,
    n: nat,
    f: Map<u16, Cell>,
    g: Gen,
    st: Stat,
    x: u64,
    y: u64,
    m: Mach,
    aim: Aim,
) -> (k: nat)
    requires
        st is ForRange,
        running::is_plain(st),
        running::before(m, g, codegen::g_stat(g, st), f, aim),
        match st {
            Stat::ForRange { id, var, binding: Some(b), start, end, inclusive, body } => meaning::t_expr(
                q,
                n,
                f,
                start,
            ) == Ends::<Map<u16, Cell>>::Num(x, f) && meaning::t_expr(
                q,
                n,
                f.insert(b.slot, Cell::Num(x)),
                end,
            ) == Ends::<Map<u16, Cell>>::Num(y, f.insert(b.slot, Cell::Num(x))),
            _ => true,
        },
    ensures
        match st {
            Stat::ForRange { id, var, binding: Some(b), start, end, inclusive, body } => {
                let (g2, limit, gs, g3, g4, gb) = for_parts(g, st);
                let m2 = sums::after(q, m, k);
                &&& running::at(
                    m,
                    m2,
                    g,
                    f.insert(b.slot, Cell::Num(x)),
                    if meaning::goes_round(x, y, inclusive) {
                        g4.code.len() as int
                    } else {
                        codegen::g_stat(g, st).code.len() as int
                    },
                )
                &&& machine::reg(m2, limit) == Val::Num(y)
            },
            _ => true,
        },
{
    let p = machine::cur(m);
    lemma_for_in_place(p, g, st, aim);
    match st {
        Stat::ForRange { id, var, binding, start, end, inclusive, body } => {
            let b = binding->Some_0;
            let (g2, limit, gs, g3, g4, gb) = for_parts(g, st);
            let h = codegen::g_stat(g, st);
            let f1 = f.insert(b.slot, Cell::Num(x));
            let j = running::lemma_run_value(q, n, f, g2, start, b.slot, Cell::Num(x), m);
            let m1 = sums::after(q, m, j);
            running::lemma_at_written(m, m1, g2, f, b.slot, Cell::Num(x), gs.code.len() as int);
            let l = running::lemma_run_value(q, n, f1, gs, end, limit, Cell::Num(y), m1);
            let m2 = sums::after(q, m1, l);
            sums::lemma_after(q, m, j, l);
            assert(m2.stack[m.base + b.slot] == m1.stack[m.base + b.slot]);
            lemma_first_test(q, m2, order_kind(inclusive), b.slot, limit, x, y, h.code.len() as u32);
            sums::lemma_after(q, m, j + l, 1);
            let m3 = sums::after(q, m2, 1);
            assert(m3.stack == m2.stack);
            assert forall|i: int| m.base + g.n_slots <= i < m.base + g.free implies
                #[trigger] m3.stack[i] == m.stack[i] by {
                assert(m2.stack[i] == m1.stack[i]);
                assert(m1.stack[i] == m.stack[i]);
            }
            assert forall|s: u16| #[trigger] f1.contains_key(s) && s < g.n_slots implies machine::reg(
                m3,
                s,
            ) == sums::cell_val(f1[s]) by {
                assert(machine::reg(m1, s) == sums::cell_val(f1[s]));
                assert(m2.stack[m.base + s] == m1.stack[m.base + s]);
            }
            j + l + 1
        },
        _ => 0,
    }
}

/// Two numbers in registers are compared, to branch.
proof fn lemma_first_test(
    q: Sums,
    m: Mach,
    kind: BinKind,
    a: u16,
    b: u16,
    x: u64,
    y: u64,
    to: u32,
)
    requires
        sums::clean(m),
        kind == BinKind::Le || kind == BinKind::Lt,
        machine::cur(m).code[m.pc] == (Op::JumpIfNot { kind, a, b, to }),
        machine::reg(m, a) == Val::Num(x),
        machine::reg(m, b) == Val::Num(y),
    ensures
        sums::after(q, m, 1) == sums::moved(
            m,
            m.stack,
            if meaning::goes_round(x, y, kind == BinKind::Le) {
                m.pc + 1
            } else {
                to as int
            },
        ),
{
    let v = Val::Bool(bytecode::compare_nums(kind, x, y));
    assert(machine::step(m) == machine::branch(m, Need::Is(v), to));
    running::lemma_branched(q, m, v, to);
}

} // verus!
