//! Several values at once: they are worked out above all that is in use, and then
//! go where they belong.
use super::flags;
use super::following;
use super::meaning;
use super::meaning::{Cell, Ends, Sums};
use super::running;
use super::running::Aim;
use super::sums;
use super::walk;
use crate::ast::{Binding, Expr, Stat};
use crate::bytecode;
use crate::bytecode::Op;
use crate::codegen;
use crate::codegen::Gen;
use crate::machine;
use crate::machine::Mach;
use vstd::prelude::*;

verus! {

/// A value: a sum, or a condition for its own sake.
pub open spec fn is_value(e: Expr) -> bool {
    sums::is_sum(e) || running::is_cond(e, true)
}

pub open spec fn are_values(es: Seq<Expr>) -> bool {
    forall|i: int| 0 <= i < es.len() ==> is_value(#[trigger] es[i])
}

/// Several names are given as many values.
pub open spec fn is_several(st: Stat) -> bool {
    match st {
        Stat::LetSlots(bs, es) => {
            &&& bs@.len() == es@.len() >= 2
            &&& forall|i: int| 0 <= i < bs@.len() ==> !(#[trigger] bs@[i]).cell
            &&& are_values(es@)
        },
        Stat::Assign(ts, es) => {
            &&& ts@.len() == es@.len() >= 2
            &&& forall|i: int|
                0 <= i < ts@.len() ==> codegen::plain_reg_of(#[trigger] ts@[i]) is Some
            &&& are_values(es@)
        },
        _ => false,
    }
}

/// The slots that are given values.
pub open spec fn given_slots(st: Stat) -> Seq<u16> {
    match st {
        Stat::LetSlots(bs, _) => walk::slots_of(bs@),
        Stat::Assign(ts, _) => Seq::new(
            ts@.len(),
            |i: int| codegen::plain_reg_of(ts@[i])->Some_0,
        ),
        _ => Seq::empty(),
    }
}

pub open spec fn given_values(st: Stat) -> Seq<Expr> {
    match st {
        Stat::LetSlots(_, es) => es@,
        Stat::Assign(_, es) => es@,
        _ => Seq::empty(),
    }
}

/// Registers from `base + i` on, each moved to a slot.
pub open spec fn moves(g: Gen, slots: Seq<u16>, base: u16, i: nat) -> Gen
    decreases slots.len(),
{
    if slots.len() == 0 {
        g
    } else {
        let (g1, r) = codegen::g_plus(g, base, i);
        let g2 = codegen::g_slot(g1, slots[0]);
        let g3 = if slots[0] != r {
            codegen::g_emit(g2, Op::Move { dst: slots[0], src: r })
        } else {
            g2
        };
        moves(g3, slots.drop_first(), base, i + 1)
    }
}

/// How several values are compiled.
pub open spec fn several_code(g: Gen, st: Stat) -> Gen {
    codegen::g_release(
        moves(codegen::g_exprs(g, given_values(st)), given_slots(st), g.free, 0),
        g.free,
    )
}

proof fn lemma_of_bindings(g: Gen, bs: Seq<Binding>, base: u16, i: nat, n: nat)
    requires
        i + bs.len() == n,
        forall|k: int| 0 <= k < bs.len() ==> !(#[trigger] bs[k]).cell,
    ensures
        codegen::g_store_bindings(g, bs, base, i, n) == moves(g, walk::slots_of(bs), base, i),
    decreases bs.len(),
{
    reveal(codegen::g_store_bindings);
    reveal(codegen::g_store_binding);
    if bs.len() > 0 {
        let slots = walk::slots_of(bs);
        assert(slots.drop_first() =~= walk::slots_of(bs.drop_first()));
        assert(!bs[0].cell);
        let (g1, r) = codegen::g_plus(g, base, i);
        lemma_of_bindings(
            codegen::g_store_binding(g1, bs[0], r),
            bs.drop_first(),
            base,
            i + 1,
            n,
        );
    }
}

proof fn lemma_of_stores(g: Gen, ts: Seq<Expr>, base: u16, i: nat, n: nat)
    requires
        i + ts.len() == n,
        forall|k: int| 0 <= k < ts.len() ==> codegen::plain_reg_of(#[trigger] ts[k]) is Some,
    ensures
        codegen::g_stores(g, ts, base, i, n) == moves(
            g,
            Seq::new(ts.len(), |k: int| codegen::plain_reg_of(ts[k])->Some_0),
            base,
            i,
        ),
    decreases ts.len(),
{
    reveal(codegen::g_stores);
    reveal(codegen::g_store);
    let slots = Seq::new(ts.len(), |k: int| codegen::plain_reg_of(ts[k])->Some_0);
    if ts.len() > 0 {
        let rest = ts.drop_first();
        assert(slots.drop_first() =~= Seq::new(
            rest.len(),
            |k: int| codegen::plain_reg_of(rest[k])->Some_0,
        ));
        assert(codegen::plain_reg_of(ts[0]) is Some);
        let (g1, r) = codegen::g_plus(g, base, i);
        lemma_of_stores(codegen::g_store(g1, ts[0], r), rest, base, i + 1, n);
    }
}

pub(super) proof fn lemma_of_several(g: Gen, st: Stat)
    requires
        is_several(st),
    ensures
        codegen::g_stat(g, st) == several_code(g, st),
{
    reveal(codegen::g_stat);
    reveal(codegen::g_bind);
    reveal(codegen::g_assign);
    reveal(codegen::g_exprs);
    reveal(codegen::g_stores);
    match st {
        Stat::LetSlots(bs, es) => {
            assert(codegen::g_stat(g, st) == codegen::g_bind(g, bs@, es@));
            lemma_of_bindings(codegen::g_exprs(g, es@), bs@, g.free, 0, es@.len());
        },
        Stat::Assign(ts, es) => {
            assert(codegen::g_stat(g, st) == codegen::g_assign(g, st));
            lemma_of_stores(codegen::g_exprs(g, es@), ts@, g.free, 0, es@.len());
        },
        _ => {},
    }
}

/// Values take the next registers, one each.
proof fn lemma_exprs_came(g: Gen, es: Seq<Expr>)
    requires
        are_values(es),
    ensures
        ({
            let h = codegen::g_exprs(g, es);
            &&& h.bad is None ==> g.bad is None
            &&& h.bad is None && sums::fit(g) ==> sums::operand_came(g, h) && h.free == g.free
                + es.len() && es.len() > 0 ==> {
                let (g1, r) = codegen::g_alloc(g);
                let g2 = codegen::g_expr(g1, es[0], r);
                &&& g1.bad is None && sums::fit(g1) && r == g.free && g1.free == r + 1
                &&& sums::came_to(g1, g2)
                &&& g2.bad is None
            }
            &&& h.bad is None && sums::fit(g) ==> sums::operand_came(g, h) && h.free == g.free
                + es.len()
        }),
    decreases es.len(),
{
    lemma_of_exprs(g, es);
    if es.len() > 0 {
        reveal(codegen::g_alloc);
        reveal(codegen::g_release);
        reveal(codegen::fail);
        let (g1, r) = codegen::g_alloc(g);
        let g2 = codegen::g_expr(g1, es[0], r);
        assert(is_value(es[0]));
        let rest = es.drop_first();
        assert forall|i: int| 0 <= i < rest.len() implies is_value(#[trigger] rest[i]) by {
            assert(rest[i] == es[i + 1]);
        }
        running::lemma_value_came(g1, es[0], r);
        lemma_exprs_came(g2, rest);
        if codegen::g_exprs(g, es).bad is None && sums::fit(g) {
            assert(codegen::g_release(g2, g1.free) =~= g2);
        }
    }
}

proof fn lemma_of_exprs(g: Gen, es: Seq<Expr>)
    ensures
        codegen::g_exprs(g, es) == if es.len() == 0 {
            g
        } else {
            let (g1, r) = codegen::g_alloc(g);
            codegen::g_exprs(codegen::g_expr(g1, es[0], r), es.drop_first())
        },
{
    reveal(codegen::g_exprs);
    reveal(codegen::g_expr);
}

proof fn lemma_moves_came(g: Gen, slots: Seq<u16>, base: u16, i: nat)
    ensures
        ({
            let h = moves(g, slots, base, i);
            &&& h.bad is None ==> g.bad is None
            &&& h.bad is None && sums::fit(g) ==> sums::came_to(g, h)
        }),
    decreases slots.len(),
{
    if slots.len() > 0 {
        reveal(codegen::g_plus);
        reveal(codegen::g_slot);
        reveal(codegen::g_emit);
        reveal(codegen::fail);
        let (g1, r) = codegen::g_plus(g, base, i);
        let g2 = codegen::g_slot(g1, slots[0]);
        let g3 = if slots[0] != r {
            codegen::g_emit(g2, Op::Move { dst: slots[0], src: r })
        } else {
            g2
        };
        lemma_moves_came(g3, slots.drop_first(), base, i + 1);
    }
}

pub(super) proof fn lemma_several_came(g: Gen, st: Stat)
    requires
        is_several(st),
    ensures
        running::cond_came(g, codegen::g_stat(g, st), Seq::empty()),
{
    lemma_of_several(g, st);
    reveal(codegen::g_release);
    let g1 = codegen::g_exprs(g, given_values(st));
    lemma_exprs_came(g, given_values(st));
    lemma_moves_came(g1, given_slots(st), g.free, 0);
}

/// What a value is worth.
pub open spec fn worth(q: Sums, n: nat, f: Map<u16, Cell>, e: Expr, c: Cell) -> bool {
    match c {
        Cell::Num(x) => meaning::t_expr(q, n, f, e) == Ends::Num(x, f),
        Cell::Flag(x) => meaning::t_cond(q, n, f, e) == Ends::Truth(x, f),
    }
}

pub open spec fn all_worth(q: Sums, n: nat, f: Map<u16, Cell>, es: Seq<Expr>, cs: Seq<Cell>) -> bool {
    cs.len() == es.len() && forall|i: int|
        0 <= i < es.len() ==> worth(q, n, f, #[trigger] es[i], cs[i])
}

proof fn lemma_values_worth(q: Sums, n: nat, f: Map<u16, Cell>, es: Seq<Expr>)
    requires
        are_values(es),
    ensures
        match meaning::t_values(q, n, f, es) {
            Ends::Cells(cs, f1) => f1 == f && all_worth(q, n, f, es, cs),
            Ends::Wrong | Ends::Late => true,
            _ => false,
        },
    decreases es.len(),
{
    if es.len() > 0 {
        let rest = es.drop_first();
        assert(is_value(es[0]));
        assert forall|i: int| 0 <= i < rest.len() implies is_value(#[trigger] rest[i]) by {
            assert(rest[i] == es[i + 1]);
        }
        following::lemma_value_quiet(q, n, f, es[0]);
        lemma_values_worth(q, n, f, rest);
        match meaning::t_values(q, n, f, es) {
            Ends::Cells(cs, _) => {
                let ds = meaning::t_values(q, n, f, rest)->Cells_0;
                assert forall|i: int| 0 <= i < es.len() implies worth(
                    q,
                    n,
                    f,
                    #[trigger] es[i],
                    cs[i],
                ) by {
                    if i > 0 {
                        assert(rest[i - 1] == es[i]);
                        assert(cs[i] == ds[i - 1]);
                    }
                }
            },
            _ => {},
        }
    }
}

proof fn lemma_assigned_worth(q: Sums, n: nat, f: Map<u16, Cell>, ts: Seq<Expr>, es: Seq<Expr>)
    requires
        are_values(es),
        ts.len() == es.len(),
    ensures
        match meaning::t_assigned(q, n, f, ts, es) {
            Ends::Cells(cs, f1) => f1 == f && all_worth(q, n, f, es, cs),
            Ends::Wrong | Ends::Late => true,
            _ => false,
        },
    decreases es.len(),
{
    if es.len() > 0 {
        let rest = es.drop_first();
        assert(is_value(es[0]));
        assert forall|i: int| 0 <= i < rest.len() implies is_value(#[trigger] rest[i]) by {
            assert(rest[i] == es[i + 1]);
        }
        following::lemma_value_quiet(q, n, f, es[0]);
        lemma_assigned_worth(q, n, f, ts.drop_first(), rest);
        match meaning::t_assigned(q, n, f, ts, es) {
            Ends::Cells(cs, _) => {
                let ds = meaning::t_assigned(q, n, f, ts.drop_first(), rest)->Cells_0;
                assert forall|i: int| 0 <= i < es.len() implies worth(
                    q,
                    n,
                    f,
                    #[trigger] es[i],
                    cs[i],
                ) by {
                    if i > 0 {
                        assert(rest[i - 1] == es[i]);
                        assert(cs[i] == ds[i - 1]);
                    }
                }
            },
            _ => {},
        }
    }
}

proof fn lemma_targets(ts: Seq<Expr>)
    requires
        forall|k: int| 0 <= k < ts.len() ==> codegen::plain_reg_of(#[trigger] ts[k]) is Some,
    ensures
        meaning::targets(ts) == Some(
            Seq::new(ts.len(), |k: int| codegen::plain_reg_of(ts[k])->Some_0),
        ),
    decreases ts.len(),
{
    if ts.len() > 0 {
        let rest = ts.drop_first();
        assert forall|k: int| 0 <= k < rest.len() implies codegen::plain_reg_of(
            #[trigger] rest[k],
        ) is Some by {
            assert(rest[k] == ts[k + 1]);
        }
        assert(codegen::plain_reg_of(ts[0]) is Some);
        lemma_targets(rest);
    }
    assert(meaning::targets(ts)->Some_0 =~= Seq::new(
        ts.len(),
        |k: int| codegen::plain_reg_of(ts[k])->Some_0,
    ));
}

/// Some values are in the registers from `free` on, and those below are what
/// they were.
pub open spec fn rowed(m: Mach, m2: Mach, free: int, cs: Seq<Cell>, pc: int) -> bool {
    &&& sums::went(m, m2, pc)
    &&& m2.stack.len() == m.stack.len()
    &&& forall|i: int|
        0 <= i < cs.len() ==> m2.stack[m.base + free + i] == sums::cell_val(#[trigger] cs[i])
    &&& forall|i: int| 0 <= i < m.base + free ==> #[trigger] m2.stack[i] == m.stack[i]
}

#[verifier::spinoff_prover]
proof fn lemma_run_exprs(
    q: Sums,
    n: nat,
    f: Map<u16, Cell>,
    g: Gen,
    es: Seq<Expr>,
    cs: Seq<Cell>,
    m: Mach,
) -> (k: nat)
    requires
        are_values(es),
        all_worth(q, n, f, es, cs),
        sums::ready(m, g, codegen::g_exprs(g, es), f),
    ensures
        rowed(
            m,
            sums::after(q, m, k),
            g.free as int,
            cs,
            codegen::g_exprs(g, es).code.len() as int,
        ),
    decreases es.len(),
{
    let h = codegen::g_exprs(g, es);
    lemma_of_exprs(g, es);
    lemma_exprs_came(g, es);
    if es.len() == 0 {
        assert(sums::went(m, sums::after(q, m, 0), h.code.len() as int));
        0
    } else {
        let (g1, r) = codegen::g_alloc(g);
        let g2 = codegen::g_expr(g1, es[0], r);
        let rest = es.drop_first();
        let ds = cs.drop_first();
        assert(is_value(es[0]));
        assert forall|i: int| 0 <= i < rest.len() implies is_value(#[trigger] rest[i]) by {
            assert(rest[i] == es[i + 1]);
        }
        lemma_exprs_came(g2, rest);
        assert(g1.code == g.code && g1.n_slots == g.n_slots && g1.consts == g.consts && g1.globals
            == g.globals) by {
            reveal(codegen::g_alloc);
            reveal(codegen::fail);
        }
        sums::lemma_code_first(machine::cur(m), g1, g2, h);
        assert(sums::ready(m, g1, g2, f));
        assert(worth(q, n, f, es[0], cs[0]));
        let j = match cs[0] {
            Cell::Num(_) => running::lemma_run_value(q, n, f, g1, es[0], r, cs[0], m),
            Cell::Flag(x) => if running::is_cond(es[0], true) {
                running::lemma_run_flag(q, n, f, g1, es[0], r, x, m)
            } else {
                running::lemma_run_value(q, n, f, g1, es[0], r, cs[0], m)
            },
        };
        let m1 = sums::after(q, m, j);
        sums::lemma_still_ready(m, m1, g1, g2, h, f);
        assert forall|i: int| 0 <= i < rest.len() implies worth(
            q,
            n,
            f,
            #[trigger] rest[i],
            ds[i],
        ) by {
            assert(worth(q, n, f, es[i + 1], cs[i + 1]));
        }
        let l = lemma_run_exprs(q, n, f, g2, rest, ds, m1);
        sums::lemma_after(q, m, j, l);
        let m2 = sums::after(q, m, j + l);
        assert(m2.stack[m.base + g.free] == m1.stack[m.base + g.free]);
        assert forall|i: int| 0 <= i < cs.len() implies m2.stack[m.base + g.free + i]
            == sums::cell_val(#[trigger] cs[i]) by {
            if i > 0 {
                assert(cs[i] == ds[i - 1]);
            }
        }
        j + l
    }
}

/// The registers are moved to their slots, one after the other.
#[verifier::spinoff_prover]
proof fn lemma_run_moves(
    q: Sums,
    f: Map<u16, Cell>,
    g: Gen,
    slots: Seq<u16>,
    base: u16,
    i: nat,
    cs: Seq<Cell>,
    m: Mach,
) -> (k: nat)
    requires
        sums::ready(m, g, moves(g, slots, base, i), f),
        slots.len() == cs.len(),
        g.n_slots <= base,
        base + i + slots.len() <= g.free,
        forall|j: int|
            0 <= j < cs.len() ==> m.stack[m.base + base + i + j] == sums::cell_val(#[trigger] cs[j]),
    ensures
        ({
            let m2 = sums::after(q, m, k);
            &&& sums::went(m, m2, moves(g, slots, base, i).code.len() as int)
            &&& m2.stack.len() == m.stack.len()
            &&& sums::in_regs(m2, g.n_slots, meaning::bound_all(f, slots, cs))
            &&& forall|j: int| m.base + g.n_slots <= j < m.stack.len() ==> #[trigger] m2.stack[j]
                == m.stack[j]
            &&& forall|j: int| 0 <= j < m.base ==> #[trigger] m2.stack[j] == m.stack[j]
        }),
    decreases slots.len(),
{
    if slots.len() == 0 {
        assert(sums::went(m, sums::after(q, m, 0), g.code.len() as int));
        0
    } else {
        let h = moves(g, slots, base, i);
        let p = machine::cur(m);
        let (g1, r) = codegen::g_plus(g, base, i);
        let g2 = codegen::g_slot(g1, slots[0]);
        let g3 = if slots[0] != r {
            codegen::g_emit(g2, Op::Move { dst: slots[0], src: r })
        } else {
            g2
        };
        let rest = slots.drop_first();
        lemma_moves_came(g3, rest, base, i + 1);
        assert(r == base + i && slots[0] < g.n_slots && g3 == (Gen {
            code: g.code.push(Op::Move { dst: slots[0], src: r }),
            lines: g3.lines,
            ..g
        }) && g.code.len() < u32::MAX) by {
            reveal(codegen::g_plus);
            reveal(codegen::g_slot);
            reveal(codegen::g_emit);
            reveal(codegen::fail);
        }
        assert(h.code[m.pc] == g3.code[m.pc]);
        assert(p.code[m.pc] == Op::Move { dst: slots[0], src: r });
        assert(machine::reg(m, r) == sums::cell_val(cs[0])) by {
            assert(m.stack[m.base + base + i + 0] == sums::cell_val(cs[0]));
        }
        running::lemma_put_value(q, m, slots[0], sums::cell_val(cs[0]));
        let m1 = sums::after(q, m, 1);
        let f1 = f.insert(slots[0], cs[0]);
        let ds = cs.drop_first();
        assert(sums::in_regs(m1, g3.n_slots, f1)) by {
            assert forall|slot: u16| #[trigger] f1.contains_key(slot) && slot < g3.n_slots implies
                machine::reg(m1, slot) == sums::cell_val(f1[slot]) by {
                if slot != slots[0] {
                    assert(f.contains_key(slot));
                    assert(machine::reg(m, slot) == sums::cell_val(f[slot]));
                }
            }
        }
        assert(sums::has_code(p, g3, h));
        assert forall|j: int| 0 <= j < ds.len() implies m1.stack[m1.base + base + (i + 1) + j]
            == sums::cell_val(#[trigger] ds[j]) by {
            assert(ds[j] == cs[j + 1]);
            assert(m.stack[m.base + base + i + (j + 1)] == sums::cell_val(cs[j + 1]));
        }
        let l = lemma_run_moves(q, f1, g3, rest, base, i + 1, ds, m1);
        sums::lemma_after(q, m, 1, l);
        1 + l
    }
}

proof fn lemma_all_at(
    m: Mach,
    m1: Mach,
    m2: Mach,
    g: Gen,
    cs: Seq<Cell>,
    f: Map<u16, Cell>,
    mid: int,
    pc: int,
)
    requires
        0 <= m.base,
        g.n_slots <= g.free,
        m.base + g.free <= m.stack.len(),
        rowed(m, m1, g.free as int, cs, mid),
        sums::went(m1, m2, pc),
        m2.stack.len() == m1.stack.len(),
        sums::in_regs(m2, g.n_slots, f),
        forall|i: int| m.base + g.n_slots <= i < m1.stack.len() ==> #[trigger] m2.stack[i]
            == m1.stack[i],
        forall|i: int| 0 <= i < m.base ==> #[trigger] m2.stack[i] == m1.stack[i],
    ensures
        running::at(m, m2, g, f, pc),
{
    assert forall|i: int| m.base + g.n_slots <= i < m.base + g.free implies #[trigger] m2.stack[i]
        == m.stack[i] by {
        assert(m2.stack[i] == m1.stack[i]);
    }
    assert forall|i: int| 0 <= i < m.base implies #[trigger] m2.stack[i] == m.stack[i] by {
        assert(m2.stack[i] == m1.stack[i]);
    }
}

/// The machine gives several names as many values.
#[verifier::spinoff_prover]
pub(super) proof fn lemma_follow_several(
    q: Sums,
    n: nat,
    f: Map<u16, Cell>,
    g: Gen,
    st: Stat,
    m: Mach,
    aim: Aim,
) -> (k: nat)
    requires
        is_several(st),
        running::before(m, g, codegen::g_stat(g, st), f, aim),
    ensures
        running::arrives(
            m,
            sums::after(q, m, k),
            g,
            meaning::t_stat(q, n, f, st),
            codegen::g_stat(g, st).code.len() as int,
            aim,
        ),
{
    let h = codegen::g_stat(g, st);
    let es = given_values(st);
    let slots = given_slots(st);
    let a = meaning::t_stat(q, n, f, st);
    lemma_of_several(g, st);
    lemma_several_came(g, st);
    let g1 = codegen::g_exprs(g, es);
    let h1 = moves(g1, slots, g.free, 0);
    lemma_exprs_came(g, es);
    lemma_moves_came(g1, slots, g.free, 0);
    assert(h == codegen::g_release(h1, g.free));
    assert(h.code == h1.code && h.consts == h1.consts && h.globals == h1.globals && h.max_regs
        == h1.max_regs && h.bad == h1.bad && h.loops == h1.loops) by {
        reveal(codegen::g_release);
    }
    let cs = match st {
        Stat::LetSlots(bs, es) => {
            lemma_values_worth(q, n, f, es@);
            meaning::t_values(q, n, f, es@)->Cells_0
        },
        Stat::Assign(ts, es) => {
            lemma_assigned_worth(q, n, f, ts@, es@);
            lemma_targets(ts@);
            meaning::t_assigned(q, n, f, ts@, es@)->Cells_0
        },
        _ => Seq::empty(),
    };
    if a is Done {
        running::lemma_plainly(machine::cur(m), g, h, aim);
        sums::lemma_code_first(machine::cur(m), g, g1, h1);
        assert(sums::ready(m, g, g1, f));
        let j = lemma_run_exprs(q, n, f, g, es, cs, m);
        let m1 = sums::after(q, m, j);
        sums::lemma_still_ready(m, m1, g, g1, h1, f);
        assert forall|i: int| 0 <= i < cs.len() implies m1.stack[m1.base + g.free + 0 + i]
            == sums::cell_val(#[trigger] cs[i]) by {
            assert(m1.stack[m.base + g.free + i] == sums::cell_val(cs[i]));
        }
        let l = lemma_run_moves(q, f, g1, slots, g.free, 0, cs, m1);
        sums::lemma_after(q, m, j, l);
        let m2 = sums::after(q, m, j + l);
        assert(a->Done_0 == meaning::bound_all(f, slots, cs));
        lemma_all_at(m, m1, m2, g, cs, a->Done_0, g1.code.len() as int, h.code.len() as int);
        j + l
    } else {
        0
    }
}

} // verus!
