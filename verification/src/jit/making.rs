//! What the compiled code of a value that is made of others comes to: the last of
//! `and`, the first of `or`, a range from one number to another, and a field or a
//! captured variable that is updated in place.
use super::matching;
use super::meaning;
use super::meaning::{Cell, Ends, Sums};
use super::sums;
use crate::ast::{BinOp, Expr, Stat};
use crate::bytecode;
use crate::bytecode::{BinKind, Op};
use crate::codegen;
use crate::codegen::Gen;
use crate::machine;
use crate::machine::{IterView, Mach, Out, Pending, Req};
use crate::table;
use crate::value;
use crate::value::{KeyVal, Val};
use vstd::prelude::*;

verus! {

/// Code that follows some other code, with the locals as they were.
proof fn lemma_next_ready(
    m: Mach,
    m1: Mach,
    free: u16,
    dst: u16,
    v: Val,
    g: Gen,
    h: Gen,
    f: Map<u16, Cell>,
)
    requires
        matching::holds(m, m1, free, dst, v, g.code.len() as int),
        sums::clean(m),
        sums::in_regs(m, g.n_slots, f),
        g.n_slots <= dst,
        g.n_slots <= free,
        0 <= m.base,
        sums::has_code(machine::cur(m), g, h),
        sums::has_room(m, h),
        sums::fit(g),
        h.bad is None,
    ensures
        sums::ready(m1, g, h, f),
{
    assert forall|slot: u16| #[trigger] f.contains_key(slot) && slot < g.n_slots implies machine::reg(
        m1,
        slot,
    ) == sums::cell_val(f[slot]) by {
        assert(machine::reg(m, slot) == sums::cell_val(f[slot]));
        assert(m1.stack[m.base + slot] == m.stack[m.base + slot]);
    }
}

// ---- and, or -------------------------------------------------------------------------------

proof fn lemma_of_either(g: Gen, e: Expr, dst: u16)
    requires
        e matches Expr::Bin(op, _, _) && (op == BinOp::And || op == BinOp::Or),
    ensures
        ({
            let g1 = codegen::g_expr(g, *e->Bin_1, dst);
            let op = if e->Bin_0 == BinOp::And {
                Op::JumpIfFalse { cond: dst, to: 0 }
            } else {
                Op::JumpIfTrue { cond: dst, to: 0 }
            };
            let g2 = codegen::g_expr(codegen::g_emit(g1, op), *e->Bin_2, dst);
            codegen::g_expr(g, e, dst) == codegen::g_patch_to(
                g2,
                g1.code.len() as usize,
                codegen::here(g2),
            )
        }),
{
    reveal(codegen::g_expr);
    reveal(codegen::g_binary);
}

/// `a and b` comes to `a` where that fails, and to `b` where it does not; `a or b` the
/// other way round; and `b` is not looked at where it is not what it comes to.
#[verifier::spinoff_prover]
pub proof fn lemma_either_comes_to_one(
    q: Sums,
    n: nat,
    f: Map<u16, Cell>,
    g: Gen,
    e: Expr,
    dst: u16,
    x: Val,
    y: Val,
    m: Mach,
) -> (k: nat)
    requires
        e matches Expr::Bin(op, a, b) && (op == BinOp::And || op == BinOp::Or)
            && matching::is_simple(*a) && matching::is_simple(*b) && matching::val_of(q, n, f, *a)
            == Some(x) && (value::is_true(x) == (op == BinOp::And) ==> matching::val_of(q, n, f, *b)
            == Some(y)),
        sums::ready(m, g, codegen::g_expr(g, e, dst), f),
        g.n_slots <= dst < g.free,
    ensures
        matching::holds(
            m,
            sums::after(q, m, k),
            g.free,
            dst,
            if e->Bin_0 == BinOp::And {
                if x == Val::Nil || x == Val::Bool(false) {
                    x
                } else {
                    y
                }
            } else {
                if x == Val::Nil || x == Val::Bool(false) {
                    y
                } else {
                    x
                }
            },
            codegen::g_expr(g, e, dst).code.len() as int,
        ),
{
    let op = e->Bin_0;
    let a = *e->Bin_1;
    let b = *e->Bin_2;
    let p = machine::cur(m);
    let h = codegen::g_expr(g, e, dst);
    let g1 = codegen::g_expr(g, a, dst);
    let jump = if op == BinOp::And {
        Op::JumpIfFalse { cond: dst, to: 0 }
    } else {
        Op::JumpIfTrue { cond: dst, to: 0 }
    };
    let ge = codegen::g_emit(g1, jump);
    let g2 = codegen::g_expr(ge, b, dst);
    let end = codegen::here(g2);
    lemma_of_either(g, e, dst);
    matching::lemma_simple_came(g, a, dst);
    matching::lemma_simple_came(ge, b, dst);
    reveal(codegen::g_emit);
    reveal(codegen::g_patch_to);
    reveal(codegen::here);
    reveal(codegen::fail);
    let at = g1.code.len() as int;
    assert(g2.bad is None);
    assert(ge.bad is None);
    assert(sums::came_to(g, g1));
    assert(sums::fit(ge));
    assert(sums::came_to(ge, g2));
    assert(ge.code[at] == jump);
    assert(g2.code[at] == jump);
    assert(h.code[at] == codegen::retarget(jump, end));
    assert(p.code[at] == bytecode::specialised(h.code[at]));
    assert(sums::has_code(p, g, g1)) by {
        assert forall|i: int| g.code.len() <= i < g1.code.len() implies #[trigger] p.code[i]
            == bytecode::specialised(g1.code[i]) by {
            assert(ge.code[i] == g1.code[i]);
            assert(g2.code[i] == ge.code[i]);
            assert(h.code[i] == g2.code[i]);
        }
        assert forall|i: int| 0 <= i < g1.consts.len() implies #[trigger] p.consts[i]
            == g1.consts[i] by {
            assert(g2.consts[i] == ge.consts[i]);
            assert(h.consts[i] == g2.consts[i]);
        }
    }
    assert(sums::ready(m, g, g1, f));
    let k = matching::lemma_run_simple(q, n, f, g, a, dst, x, m);
    let m1 = sums::after(q, m, k);
    assert(machine::reg(m1, dst) == x);
    let (m2, out) = machine::step(m1);
    assert(sums::after(q, m1, 1) == m2) by {
        sums::lemma_after_one(q, m1);
        reveal(sums::served);
    }
    sums::lemma_after(q, m, k, 1);
    assert(m2 =~= sums::moved(m1, m1.stack, m2.pc));
    if value::is_true(x) == (op == BinOp::And) {
        assert(m2.pc == at + 1);
        assert(m2.stack == m1.stack);
        assert(matching::holds(m, m2, g.free, dst, x, ge.code.len() as int));
        assert(sums::has_code(p, ge, g2)) by {
            assert forall|i: int| ge.code.len() <= i < g2.code.len() implies #[trigger] p.code[i]
                == bytecode::specialised(g2.code[i]) by {
                assert(h.code[i] == g2.code[i]);
            }
        }
        lemma_next_ready(m, m2, g.free, dst, x, ge, g2, f);
        let l = matching::lemma_run_simple(q, n, f, ge, b, dst, y, m2);
        sums::lemma_after(q, m, k + 1, l);
        let m3 = sums::after(q, m2, l);
        assert forall|i: int| 0 <= i < m.base + g.free && i != m.base + dst implies #[trigger] m3.stack[i]
            == m.stack[i] by {
            assert(m2.stack[i] == m.stack[i]);
        }
        k + 1 + l
    } else {
        assert(m2.pc == end as int);
        assert(m2.stack == m1.stack);
        k + 1
    }
}

// ---- ranges --------------------------------------------------------------------------------

proof fn lemma_of_range(g: Gen, e: Expr, dst: u16)
    requires
        e is Range,
    ensures
        ({
            let (g1, ra) = codegen::g_alloc(g);
            let ga = codegen::g_expr(g1, *e->Range_0, ra);
            let (g2, rb) = codegen::g_alloc(ga);
            let g3 = codegen::g_expr(g2, *e->Range_1, rb);
            codegen::g_expr(g, e, dst) == codegen::g_release(
                codegen::g_emit(g3, Op::Range { dst, a: ra, b: rb, inclusive: e->Range_2 }),
                g.free,
            )
        }),
{
    reveal(codegen::g_expr);
    reveal(codegen::g_range);
}

/// `a..b` comes to something that goes from the one number to the other, with the last
/// one where it is written so.
#[verifier::spinoff_prover]
pub proof fn lemma_range_goes_between(
    q: Sums,
    n: nat,
    f: Map<u16, Cell>,
    g: Gen,
    e: Expr,
    dst: u16,
    x: u64,
    y: u64,
    m: Mach,
) -> (k: nat)
    requires
        e matches Expr::Range(a, b, _) && matching::is_simple(*a) && matching::is_simple(*b)
            && matching::val_of(q, n, f, *a) == Some(Val::Num(x)) && matching::val_of(q, n, f, *b)
            == Some(Val::Num(y)),
        sums::ready(m, g, codegen::g_expr(g, e, dst), f),
        dst < g.free,
        m.iters.len() < usize::MAX,
    ensures
        ({
            let m1 = sums::after(q, m, k);
            &&& m1.stack[m.base + dst] == Val::Iter(m.iters.len() as usize)
            &&& m1.iters == m.iters.push(
                IterView::Range { at: x, fresh: true, end: y, inclusive: e->Range_2 },
            )
            &&& m1.pc == codegen::g_expr(g, e, dst).code.len()
            &&& forall|i: int|
                0 <= i < m.base + g.free && i != m.base + dst ==> #[trigger] m1.stack[i]
                    == m.stack[i]
        }),
{
    let a = *e->Range_0;
    let b = *e->Range_1;
    let p = machine::cur(m);
    let h = codegen::g_expr(g, e, dst);
    let (g1, ra) = codegen::g_alloc(g);
    let ga = codegen::g_expr(g1, a, ra);
    let (g2, rb) = codegen::g_alloc(ga);
    let g3 = codegen::g_expr(g2, b, rb);
    let op = Op::Range { dst, a: ra, b: rb, inclusive: e->Range_2 };
    let g4 = codegen::g_emit(g3, op);
    lemma_of_range(g, e, dst);
    matching::lemma_simple_came(g1, a, ra);
    matching::lemma_simple_came(g2, b, rb);
    reveal(codegen::g_alloc);
    reveal(codegen::g_emit);
    reveal(codegen::g_release);
    reveal(codegen::fail);
    assert(g3.bad is None);
    assert(g2.bad is None);
    assert(ga.bad is None);
    assert(g1.bad is None);
    assert(sums::came_to(g1, ga));
    assert(sums::came_to(g2, g3));
    assert(sums::has_code(p, g1, ga)) by {
        assert forall|i: int| g1.code.len() <= i < ga.code.len() implies #[trigger] p.code[i]
            == bytecode::specialised(ga.code[i]) by {
            assert(g3.code[i] == g2.code[i]);
            assert(h.code[i] == g3.code[i]);
        }
        assert forall|i: int| 0 <= i < ga.consts.len() implies #[trigger] p.consts[i]
            == ga.consts[i] by {
            assert(g3.consts[i] == g2.consts[i]);
            assert(h.consts[i] == g3.consts[i]);
        }
    }
    assert(sums::ready(m, g1, ga, f));
    let k = matching::lemma_run_simple(q, n, f, g1, a, ra, Val::Num(x), m);
    let m1 = sums::after(q, m, k);
    assert(sums::has_code(p, g2, g3)) by {
        assert forall|i: int| g2.code.len() <= i < g3.code.len() implies #[trigger] p.code[i]
            == bytecode::specialised(g3.code[i]) by {
            assert(h.code[i] == g3.code[i]);
        }
    }
    lemma_next_ready(m, m1, g1.free, ra, Val::Num(x), g2, g3, f);
    let l = matching::lemma_run_simple(q, n, f, g2, b, rb, Val::Num(y), m1);
    let m2 = sums::after(q, m1, l);
    sums::lemma_after(q, m, k, l);
    let at = g3.code.len() as int;
    assert(h.code[at] == op);
    assert(p.code[at] == bytecode::specialised(op));
    assert(m1.stack[m.base + ra] == Val::Num(x));
    assert(m2.stack[m.base + ra] == m1.stack[m.base + ra]);
    assert(machine::reg(m2, ra) == Val::Num(x));
    assert(machine::reg(m2, rb) == Val::Num(y));
    let (m3, out) = machine::step(m2);
    assert(sums::after(q, m2, 1) == m3) by {
        sums::lemma_after_one(q, m2);
        reveal(sums::served);
    }
    sums::lemma_after(q, m, k + l, 1);
    assert forall|i: int| 0 <= i < m.base + g.free && i != m.base + dst implies #[trigger] m3.stack[i]
        == m.stack[i] by {
        assert(m2.stack[i] == m1.stack[i]);
        assert(m1.stack[i] == m.stack[i]);
    }
    k + l + 1
}

// ---- single steps --------------------------------------------------------------------------

/// A step that asks for nothing.
proof fn lemma_plain_step(q: Sums, m: Mach, m1: Mach)
    requires
        machine::step(m) == (m1, Out::Run),
        m1.frames.len() == m.frames.len(),
    ensures
        sums::after(q, m, 1) == m1,
{
    sums::lemma_after_one(q, m);
    reveal(sums::served);
}

/// A sum of two registers.
proof fn lemma_sum_step(q: Sums, m: Mach, op: BinOp, dst: u16, a: u16, b: u16, x: u64, y: u64)
    requires
        sums::clean(m),
        op == BinOp::Add || op == BinOp::Sub || op == BinOp::Mul || op == BinOp::Div || op
            == BinOp::Rem,
        machine::cur(m).code[m.pc] == bytecode::specialised(
            Op::Bin { kind: codegen::kind_of(op)->Some_0, dst, a, b },
        ),
        machine::reg(m, a) == Val::Num(x),
        machine::reg(m, b) == Val::Num(y),
    ensures
        sums::after(q, m, 1) == sums::moved(
            m,
            m.stack.update(m.base + dst, Val::Num((q.bin)(op, x, y))),
            m.pc + 1,
        ),
{
    let kind = codegen::kind_of(op)->Some_0;
    assert(machine::step(m) == (
        machine::waits(m, Pending::Sum { dst }),
        Out::Ask(Req::Compute { kind, x, y }),
    ));
    sums::lemma_after_one(q, m);
    reveal(sums::served);
    assert(sums::after(q, m, 1) =~= sums::moved(
        m,
        m.stack.update(m.base + dst, Val::Num((q.bin)(op, x, y))),
        m.pc + 1,
    ));
}

/// A field is read.
proof fn lemma_field_step(q: Sums, m: Mach, dst: u16, obj: u16, k: u16, ic: u16, t: usize, name: Seq<char>)
    requires
        sums::clean(m),
        machine::cur(m).code[m.pc] == (Op::GetIndexK { dst, obj, k, ic }),
        machine::reg(m, obj) == Val::Table(t),
        t < m.tables.len(),
        machine::cur(m).consts[k as int] == Val::Str(name),
    ensures
        sums::after(q, m, 1) == sums::moved(
            m,
            m.stack.update(
                m.base + dst,
                table::t_get(m.tables[t as int], KeyVal::Str(name)),
            ),
            m.pc + 1,
        ),
{
    let v = table::t_get(m.tables[t as int], KeyVal::Str(name));
    assert(machine::step(m) == (machine::next(machine::put(m, dst, v)), Out::Run));
    lemma_plain_step(q, m, machine::next(machine::put(m, dst, v)));
    assert(sums::after(q, m, 1) =~= sums::moved(m, m.stack.update(m.base + dst, v), m.pc + 1));
}

/// A field is set.
proof fn lemma_set_field_step(q: Sums, m: Mach, obj: u16, k: u16, val: u16, t: usize, name: Seq<char>)
    requires
        machine::cur(m).code[m.pc] == (Op::SetIndexK { obj, k, val }),
        machine::reg(m, obj) == Val::Table(t),
        t < m.tables.len(),
        table::t_room(m.tables[t as int]),
        machine::cur(m).consts[k as int] == Val::Str(name),
    ensures
        sums::after(q, m, 1).tables == m.tables.update(
            t as int,
            table::t_set(m.tables[t as int], KeyVal::Str(name), machine::reg(m, val)),
        ),
        sums::after(q, m, 1).stack == m.stack,
        sums::after(q, m, 1).pc == m.pc + 1,
{
    let m1 = machine::next(
        Mach {
            tables: m.tables.update(
                t as int,
                table::t_set(m.tables[t as int], KeyVal::Str(name), machine::reg(m, val)),
            ),
            ..m
        },
    );
    assert(machine::step(m) == (m1, Out::Run));
    lemma_plain_step(q, m, m1);
}

// ---- updates in place ----------------------------------------------------------------------

/// What an update of a field is compiled to, step by step.
pub open spec fn field_parts(g: Gen, slot: u16, name: Seq<char>, e: Expr, kind: BinKind) -> (
    Gen,
    u16,
    u16,
    Gen,
    Gen,
    u16,
    Gen,
) {
    let g1 = codegen::g_slot(g, slot);
    let (g2, cur) = codegen::g_alloc(g1);
    let (g3, k) = codegen::g_const(g2, Val::Str(name));
    let (g4, ic) = codegen::g_cache(g3);
    let g5 = codegen::g_emit(g4, Op::GetIndexK { dst: cur, obj: slot, k, ic });
    let (g6, rhs) = codegen::g_operand(g5, e);
    let g7 = codegen::g_emit(g6, Op::Bin { kind, dst: cur, a: cur, b: rhs });
    (g3, cur, k, g5, g6, rhs, codegen::g_emit(g7, Op::SetIndexK { obj: slot, k, val: cur }))
}

proof fn lemma_of_field(g: Gen, s: Stat, slot: u16, name: Seq<char>, e: Expr, op: BinOp)
    requires
        s matches Stat::OpAssign(target, o, r) && o == op && r == e && (target matches Expr::Index(
            obj,
            key,
        ) && codegen::plain_reg_of(*obj) == Some(slot) && (*key matches Expr::Str(t) && t@
            == name)),
        codegen::kind_of(op) is Some,
    ensures
        codegen::g_stat(g, s) == codegen::g_release(
            field_parts(g, slot, name, e, codegen::kind_of(op)->Some_0).6,
            g.free,
        ),
{
    reveal(codegen::g_stat);
    reveal(codegen::g_op_assign);
    reveal(codegen::g_kind);
    reveal(codegen::g_operand);
    reveal(codegen::g_maybe_const);
}

proof fn lemma_field_came(g: Gen, slot: u16, name: Seq<char>, e: Expr, kind: BinKind)
    requires
        sums::is_sum(e),
        sums::fit(g),
        field_parts(g, slot, name, e, kind).6.bad is None,
    ensures
        ({
            let (g3, cur, k, g5, g6, rhs, h) = field_parts(g, slot, name, e, kind);
            &&& g.bad is None
            &&& slot < g.n_slots
            &&& cur == g.free
            &&& g5.bad is None
            &&& g6.bad is None
            &&& sums::fit(g5)
            &&& g5.n_slots == g.n_slots
            &&& g5.free == g.free + 1
            &&& sums::operand_came(g5, g6)
            &&& g5.code.len() == g.code.len() + 1
            &&& h.code.len() == g6.code.len() + 2
            &&& g5.code[g.code.len() as int] is GetIndexK
            &&& g5.code[g.code.len() as int]->GetIndexK_dst == cur
            &&& g5.code[g.code.len() as int]->GetIndexK_obj == slot
            &&& g5.code[g.code.len() as int]->GetIndexK_k == k
            &&& h.code[g.code.len() as int] == g5.code[g.code.len() as int]
            &&& forall|i: int| 0 <= i < g6.code.len() ==> #[trigger] h.code[i] == g6.code[i]
            &&& h.code[g6.code.len() as int] == (Op::Bin { kind, dst: cur, a: cur, b: rhs })
            &&& h.code[g6.code.len() as int + 1] == (Op::SetIndexK { obj: slot, k, val: cur })
            &&& h.consts == g6.consts
            &&& h.globals == g6.globals
            &&& h.max_regs == g6.max_regs
            &&& k < g5.consts.len()
            &&& g5.consts[k as int] == Val::Str(name)
            &&& g6.consts[k as int] == Val::Str(name)
            &&& g.max_regs <= g5.max_regs <= g6.max_regs
            &&& cur < g5.max_regs
        }),
{
    let g1 = codegen::g_slot(g, slot);
    let (g2, cur) = codegen::g_alloc(g1);
    let (g3, k) = codegen::g_const(g2, Val::Str(name));
    let (g4, ic) = codegen::g_cache(g3);
    let g5 = codegen::g_emit(g4, Op::GetIndexK { dst: cur, obj: slot, k, ic });
    let (g6, rhs) = codegen::g_operand(g5, e);
    let g7 = codegen::g_emit(g6, Op::Bin { kind, dst: cur, a: cur, b: rhs });
    reveal(codegen::g_slot);
    reveal(codegen::g_alloc);
    reveal(codegen::g_cache);
    reveal(codegen::g_emit);
    reveal(codegen::fail);
    assert(g7.bad is None);
    assert(g6.bad is None);
    if g5.bad is Some {
        sums::lemma_sticky_operand(g5, e);
    }
    assert(g4.bad is None);
    assert(g3.bad is None);
    if g2.bad is Some {
        reveal(codegen::g_const);
    }
    assert(sums::fit(g2));
    sums::lemma_text_const(g2, name);
    assert(sums::fit(g5));
    sums::lemma_added_operand(g5, e);
    assert(g6.consts[k as int] == g5.consts[k as int]);
    assert(g6.code[g.code.len() as int] == g5.code[g.code.len() as int]);
}

/// `t.name += e`, and the like: the field becomes what it was, with what is written on
/// the right added to it; no other field and no other table is touched.
#[verifier::spinoff_prover]
#[verifier::rlimit(60)]
pub proof fn lemma_a_field_is_updated(
    q: Sums,
    n: nat,
    f: Map<u16, Cell>,
    g: Gen,
    s: Stat,
    slot: u16,
    name: Seq<char>,
    e: Expr,
    op: BinOp,
    t: usize,
    x: u64,
    y: u64,
    m: Mach,
) -> (k: nat)
    requires
        s matches Stat::OpAssign(target, o, r) && o == op && r == e && (target matches Expr::Index(
            obj,
            key,
        ) && codegen::plain_reg_of(*obj) == Some(slot) && (*key matches Expr::Str(w) && w@
            == name)),
        op == BinOp::Add || op == BinOp::Sub || op == BinOp::Mul || op == BinOp::Div || op
            == BinOp::Rem,
        sums::is_sum(e),
        meaning::t_expr(q, n, f, e) == Ends::<Map<u16, Cell>>::Num(y, f),
        sums::ready(m, g, codegen::g_stat(g, s), f),
        machine::reg(m, slot) == Val::Table(t),
        t < m.tables.len(),
        table::t_wf(m.tables[t as int]),
        table::t_room(m.tables[t as int]),
        table::t_get(m.tables[t as int], KeyVal::Str(name)) == Val::Num(x),
    ensures
        ({
            let m1 = sums::after(q, m, k);
            let now = Val::Num((q.bin)(op, x, y));
            &&& m1.pc == codegen::g_stat(g, s).code.len()
            &&& m1.tables.len() == m.tables.len()
            &&& table::t_get(m1.tables[t as int], KeyVal::Str(name)) == now
            &&& forall|other: KeyVal|
                !table::same_place(KeyVal::Str(name), other) ==> #[trigger] table::t_get(
                    m1.tables[t as int],
                    other,
                ) == table::t_get(m.tables[t as int], other)
            &&& forall|i: int| 0 <= i < m.tables.len() && i != t ==> #[trigger] m1.tables[i]
                == m.tables[i]
            &&& forall|i: int| 0 <= i < m.base + g.free ==> #[trigger] m1.stack[i] == m.stack[i]
        }),
{
    let kind = codegen::kind_of(op)->Some_0;
    let (g3, cur, kc, g5, g6, rhs, h) = field_parts(g, slot, name, e, kind);
    let p = machine::cur(m);
    let end = codegen::g_stat(g, s);
    lemma_of_field(g, s, slot, name, e, op);
    reveal(codegen::g_release);
    lemma_field_came(g, slot, name, e, kind);
    let at = g.code.len() as int;
    assert(end.code[at] == h.code[at]);
    assert(p.code[at] == bytecode::specialised(h.code[at]));
    assert(p.consts[kc as int] == Val::Str(name)) by {
        assert(end.consts[kc as int] == g6.consts[kc as int]);
    }
    let was = Val::Num(x);
    let m1 = sums::after(q, m, 1);
    lemma_field_step(q, m, cur, slot, kc, h.code[at]->GetIndexK_ic, t, name);
    assert(matching::holds(m, m1, g.free, cur, was, g5.code.len() as int));
    assert(sums::has_code(p, g5, g6)) by {
        assert forall|i: int| g5.code.len() <= i < g6.code.len() implies #[trigger] p.code[i]
            == bytecode::specialised(g6.code[i]) by {
            assert(end.code[i] == h.code[i]);
            assert(h.code[i] == g6.code[i]);
        }
    }
    lemma_next_ready(m, m1, g.free, cur, was, g5, g6, f);
    let l = sums::lemma_runs_operand(q, n, f, g5, e, m1);
    let m2 = sums::after(q, m1, l);
    sums::lemma_after(q, m, 1, l);
    assert(m2.stack[m.base + cur] == m1.stack[m.base + cur]);
    assert(machine::reg(m2, cur) == was);
    assert(machine::reg(m2, rhs) == Val::Num(y));
    let at2 = g6.code.len() as int;
    assert(p.code[at2] == bytecode::specialised(h.code[at2])) by {
        assert(end.code[at2] == h.code[at2]);
    }
    let now = Val::Num((q.bin)(op, x, y));
    let m3 = sums::after(q, m2, 1);
    lemma_sum_step(q, m2, op, cur, cur, rhs, x, y);
    sums::lemma_after(q, m, 1 + l, 1);
    assert(machine::reg(m3, cur) == now);
    assert(machine::reg(m3, slot) == Val::Table(t)) by {
        assert(m2.stack[m.base + slot] == m1.stack[m.base + slot]);
    }
    assert(p.code[at2 + 1] == bytecode::specialised(h.code[at2 + 1])) by {
        assert(end.code[at2 + 1] == h.code[at2 + 1]);
    }
    lemma_set_field_step(q, m3, slot, kc, cur, t, name);
    let m4 = sums::after(q, m3, 1);
    sums::lemma_after(q, m, 1 + l + 1, 1);
    assert forall|other: KeyVal|
        !table::same_place(KeyVal::Str(name), other) implies #[trigger] table::t_get(
        m4.tables[t as int],
        other,
    ) == table::t_get(m.tables[t as int], other) by {
        table::lemma_set(m.tables[t as int], KeyVal::Str(name), now, other);
    }
    table::lemma_set(m.tables[t as int], KeyVal::Str(name), now, KeyVal::Str(name));
    assert forall|i: int| 0 <= i < m.base + g.free implies #[trigger] m4.stack[i]
        == m.stack[i] by {
        assert(m2.stack[i] == m1.stack[i]);
    }
    1 + l + 1 + 1
}

/// A variable that is captured, by the function that captured it or by the one it
/// belongs to: how it is read and how it is set.
pub open spec fn reads(target: Expr, dst: u16) -> Option<Op> {
    match target {
        Expr::Upval(i, _) => Some(Op::GetUpval { dst, idx: i }),
        Expr::Local(b, _) => if b.cell {
            Some(Op::GetCell { dst, slot: b.slot })
        } else {
            None
        },
        _ => None,
    }
}

pub open spec fn sets(target: Expr, src: u16) -> Op {
    match target {
        Expr::Upval(i, _) => Op::SetUpval { idx: i, src },
        Expr::Local(b, _) => Op::SetCell { slot: b.slot, src },
        _ => Op::Jump { to: 0 },
    }
}

/// The cell of such a variable.
pub open spec fn cell_of(m: Mach, target: Expr) -> Option<int> {
    match target {
        Expr::Upval(i, _) => Some(machine::upval_cell(m, i)),
        Expr::Local(b, _) => match machine::reg(m, b.slot) {
            Val::Cell(c) => Some(c as int),
            _ => None,
        },
        _ => None,
    }
}

/// The state in which the place of such a variable has been looked at.
pub open spec fn placed_in(g: Gen, target: Expr) -> Gen {
    match target {
        Expr::Upval(i, _) => codegen::g_upval(g, i),
        Expr::Local(b, _) => codegen::g_slot(g, b.slot),
        _ => g,
    }
}

pub open spec fn captured_parts(g: Gen, target: Expr, e: Expr, kind: BinKind) -> (
    u16,
    Gen,
    Gen,
    u16,
    Gen,
) {
    let (g1, cur) = codegen::g_alloc(g);
    let g2 = codegen::g_emit(placed_in(g1, target), reads(target, cur)->Some_0);
    let (g3, rhs) = codegen::g_operand(g2, e);
    let g4 = codegen::g_emit(g3, Op::Bin { kind, dst: cur, a: cur, b: rhs });
    (cur, g2, g3, rhs, codegen::g_emit(placed_in(g4, target), sets(target, cur)))
}

proof fn lemma_of_captured(g: Gen, s: Stat, target: Expr, e: Expr, op: BinOp)
    requires
        s == Stat::OpAssign(target, op, e),
        reads(target, 0) is Some,
        codegen::kind_of(op) is Some,
    ensures
        codegen::g_stat(g, s) == codegen::g_release(
            captured_parts(g, target, e, codegen::kind_of(op)->Some_0).4,
            g.free,
        ),
{
    reveal(codegen::g_stat);
    reveal(codegen::g_op_assign);
    reveal(codegen::g_kind);
    reveal(codegen::g_operand);
    reveal(codegen::g_expr);
    reveal(codegen::g_store);
}

proof fn lemma_captured_came(g: Gen, target: Expr, e: Expr, kind: BinKind)
    requires
        sums::is_sum(e),
        sums::fit(g),
        reads(target, 0) is Some,
        captured_parts(g, target, e, kind).4.bad is None,
    ensures
        ({
            let (cur, g2, g3, rhs, h) = captured_parts(g, target, e, kind);
            &&& cur == g.free
            &&& g2.bad is None
            &&& g3.bad is None
            &&& sums::fit(g2)
            &&& g2.n_slots == g.n_slots
            &&& g2.free == g.free + 1
            &&& sums::operand_came(g2, g3)
            &&& g2.code.len() == g.code.len() + 1
            &&& h.code.len() == g3.code.len() + 2
            &&& h.code[g.code.len() as int] == reads(target, cur)->Some_0
            &&& forall|i: int| 0 <= i < g3.code.len() ==> #[trigger] h.code[i] == g3.code[i]
            &&& h.code[g3.code.len() as int] == (Op::Bin { kind, dst: cur, a: cur, b: rhs })
            &&& h.code[g3.code.len() as int + 1] == sets(target, cur)
            &&& h.consts == g3.consts
            &&& h.globals == g3.globals
            &&& h.max_regs == g3.max_regs
            &&& g.max_regs <= g2.max_regs <= g3.max_regs
            &&& cur < g2.max_regs
            &&& target matches Expr::Local(b, _) ==> b.slot < g.n_slots
        }),
{
    let (g1, cur) = codegen::g_alloc(g);
    let g2 = codegen::g_emit(placed_in(g1, target), reads(target, cur)->Some_0);
    let (g3, rhs) = codegen::g_operand(g2, e);
    let g4 = codegen::g_emit(g3, Op::Bin { kind, dst: cur, a: cur, b: rhs });
    reveal(codegen::g_slot);
    reveal(codegen::g_upval);
    reveal(codegen::g_alloc);
    reveal(codegen::g_emit);
    reveal(codegen::fail);
    assert(g4.bad is None);
    assert(g3.bad is None);
    if g2.bad is Some {
        sums::lemma_sticky_operand(g2, e);
    }
    assert(g1.bad is None);
    assert(sums::fit(g2));
    sums::lemma_added_operand(g2, e);
    assert(g3.code[g.code.len() as int] == g2.code[g.code.len() as int]);
}

/// A captured variable is read.
proof fn lemma_read_step(q: Sums, m: Mach, target: Expr, dst: u16, c: int)
    requires
        sums::clean(m),
        reads(target, dst) is Some,
        machine::cur(m).code[m.pc] == reads(target, dst)->Some_0,
        cell_of(m, target) == Some(c),
        0 <= c < m.cells.len(),
    ensures
        sums::after(q, m, 1) == sums::moved(
            m,
            m.stack.update(m.base + dst, m.cells[c]),
            m.pc + 1,
        ),
{
    let v = m.cells[c];
    assert(machine::step(m) == (machine::next(machine::put(m, dst, v)), Out::Run));
    lemma_plain_step(q, m, machine::next(machine::put(m, dst, v)));
    assert(sums::after(q, m, 1) =~= sums::moved(m, m.stack.update(m.base + dst, v), m.pc + 1));
}

/// A captured variable is set.
proof fn lemma_set_step(q: Sums, m: Mach, target: Expr, src: u16, c: int)
    requires
        reads(target, 0) is Some,
        machine::cur(m).code[m.pc] == sets(target, src),
        cell_of(m, target) == Some(c),
        0 <= c < m.cells.len(),
    ensures
        sums::after(q, m, 1).cells == m.cells.update(c, machine::reg(m, src)),
        sums::after(q, m, 1).stack == m.stack,
        sums::after(q, m, 1).pc == m.pc + 1,
{
    let m1 = machine::next(Mach { cells: m.cells.update(c, machine::reg(m, src)), ..m });
    assert(machine::step(m) == (m1, Out::Run));
    lemma_plain_step(q, m, m1);
}

/// `x -= e`, and the like, of a variable that is captured: it becomes what it was, less
/// what is written on the right, for everyone who shares it, and no other variable
/// changes.
#[verifier::spinoff_prover]
#[verifier::rlimit(60)]
pub proof fn lemma_a_captured_variable_is_updated(
    q: Sums,
    n: nat,
    f: Map<u16, Cell>,
    g: Gen,
    s: Stat,
    target: Expr,
    e: Expr,
    op: BinOp,
    c: int,
    x: u64,
    y: u64,
    m: Mach,
) -> (k: nat)
    requires
        s == Stat::OpAssign(target, op, e),
        reads(target, 0) is Some,
        op == BinOp::Add || op == BinOp::Sub || op == BinOp::Mul || op == BinOp::Div || op
            == BinOp::Rem,
        sums::is_sum(e),
        meaning::t_expr(q, n, f, e) == Ends::<Map<u16, Cell>>::Num(y, f),
        sums::ready(m, g, codegen::g_stat(g, s), f),
        cell_of(m, target) == Some(c),
        0 <= c < m.cells.len(),
        m.cells[c] == Val::Num(x),
    ensures
        ({
            let m1 = sums::after(q, m, k);
            &&& m1.pc == codegen::g_stat(g, s).code.len()
            &&& m1.cells == m.cells.update(c, Val::Num((q.bin)(op, x, y)))
            &&& forall|i: int| 0 <= i < m.base + g.free ==> #[trigger] m1.stack[i] == m.stack[i]
        }),
{
    let kind = codegen::kind_of(op)->Some_0;
    let (cur, g2, g3, rhs, h) = captured_parts(g, target, e, kind);
    let p = machine::cur(m);
    let end = codegen::g_stat(g, s);
    lemma_of_captured(g, s, target, e, op);
    reveal(codegen::g_release);
    lemma_captured_came(g, target, e, kind);
    let at = g.code.len() as int;
    assert(end.code[at] == h.code[at]);
    assert(p.code[at] == bytecode::specialised(h.code[at]));
    let was = Val::Num(x);
    let m1 = sums::after(q, m, 1);
    lemma_read_step(q, m, target, cur, c);
    assert(matching::holds(m, m1, g.free, cur, was, g2.code.len() as int));
    assert(sums::has_code(p, g2, g3)) by {
        assert forall|i: int| g2.code.len() <= i < g3.code.len() implies #[trigger] p.code[i]
            == bytecode::specialised(g3.code[i]) by {
            assert(end.code[i] == h.code[i]);
            assert(h.code[i] == g3.code[i]);
        }
    }
    lemma_next_ready(m, m1, g.free, cur, was, g2, g3, f);
    let l = sums::lemma_runs_operand(q, n, f, g2, e, m1);
    let m2 = sums::after(q, m1, l);
    sums::lemma_after(q, m, 1, l);
    assert(m2.stack[m.base + cur] == m1.stack[m.base + cur]);
    assert(machine::reg(m2, cur) == was);
    assert(machine::reg(m2, rhs) == Val::Num(y));
    let at2 = g3.code.len() as int;
    assert(p.code[at2] == bytecode::specialised(h.code[at2])) by {
        assert(end.code[at2] == h.code[at2]);
    }
    let now = Val::Num((q.bin)(op, x, y));
    let m3 = sums::after(q, m2, 1);
    lemma_sum_step(q, m2, op, cur, cur, rhs, x, y);
    sums::lemma_after(q, m, 1 + l, 1);
    assert(machine::reg(m3, cur) == now);
    assert(cell_of(m3, target) == Some(c)) by {
        match target {
            Expr::Local(b, _) => {
                assert(m2.stack[m.base + b.slot] == m1.stack[m.base + b.slot]);
                assert(machine::reg(m3, b.slot) == machine::reg(m, b.slot));
            },
            _ => {},
        }
    }
    assert(p.code[at2 + 1] == bytecode::specialised(h.code[at2 + 1])) by {
        assert(end.code[at2 + 1] == h.code[at2 + 1]);
    }
    lemma_set_step(q, m3, target, cur, c);
    let m4 = sums::after(q, m3, 1);
    sums::lemma_after(q, m, 1 + l + 1, 1);
    assert(m4.cells =~= m.cells.update(c, now));
    assert forall|i: int| 0 <= i < m.base + g.free implies #[trigger] m4.stack[i]
        == m.stack[i] by {
        assert(m2.stack[i] == m1.stack[i]);
    }
    1 + l + 1 + 1
}

} // verus!
