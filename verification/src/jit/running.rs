//! The machine runs code on numbers as it was read.
use super::faithful;
use super::flags;
use super::lowering;
use super::meaning;
use super::meaning::{Cell, Ends, Exit, Sums};
use super::several;
use super::sums;
use crate::ast::{BinOp, Block, Expr, Stat, UnOp};
use crate::bytecode;
use crate::bytecode::{BinKind, Op, ProtoView, MULTI};
use crate::codegen;
use crate::codegen::Gen;
use crate::machine;
use crate::machine::{Mach, Out};
use crate::value::Val;
use vstd::prelude::*;

verus! {

// ---- which code this is about ------------------------------------------------------------

/// A value that is a boolean: a literal, or a comparison of sums.
pub open spec fn is_test(e: Expr) -> bool {
    match e {
        Expr::Bool(_) => true,
        Expr::Bin(op, a, b) => flags::compares(op) && sums::is_sum(*a) && sums::is_sum(*b),
        _ => false,
    }
}

/// A condition that branches when it fails, or when it holds.
pub open spec fn is_cond(e: Expr, when_false: bool) -> bool
    decreases e,
{
    match e {
        Expr::Bool(_) => true,
        Expr::Local(b, _) => !b.cell,
        Expr::Un(op, a) => op == UnOp::Not && is_cond(*a, !when_false),
        Expr::Bin(op, a, b) => if op == BinOp::And || op == BinOp::Or {
            is_cond(*a, op == BinOp::And) && is_cond(*b, when_false)
        } else {
            is_test(e)
        },
        _ => false,
    }
}

/// Does a sum leave a local alone?
pub open spec fn avoids(e: Expr, slot: u16) -> bool
    decreases e,
{
    match e {
        Expr::Local(b, _) => b.slot != slot,
        Expr::Un(_, a) => avoids(*a, slot),
        Expr::Bin(_, a, b) => avoids(*a, slot) && avoids(*b, slot),
        Expr::Call(..) | Expr::Method(..) => false,
        _ => true,
    }
}

/// A statement of code on numbers.
pub open spec fn is_plain(st: Stat) -> bool
    decreases st,
{
    match st {
        Stat::LetSlots(bs, es) => several::is_several(st) || bs@.len() == 1 && es@.len() == 1
            && !bs@[0].cell && (
        if flags::bool_like(es@[0]) {
            is_cond(es@[0], true) && (avoids(es@[0], bs@[0].slot) || codegen::in_place(es@[0]))
        } else {
            sums::is_sum(es@[0])
        }),
        Stat::Assign(ts, es) => several::is_several(st) || ts@.len() == 1 && es@.len() == 1
            && codegen::plain_reg_of(
            ts@[0],
        ) is Some && (sums::is_sum(es@[0]) || is_cond(es@[0], true)),
        Stat::OpAssign(t, op, e) => codegen::plain_reg_of(t) is Some && lowering::arithmetic(op)
            && sums::is_sum(e),
        Stat::Return(es) => es@.len() == 0 || (es@.len() == 1 && sums::is_sum(es@[0])),
        Stat::While(_, c, b) => is_cond(c, true) && plain_block(b),
        Stat::Loop(_, b) => plain_block(b),
        Stat::ForRange { id, var, binding, start, end, inclusive, body } => match binding {
            Some(b) => !b.cell && sums::is_sum(start) && sums::is_flat(start) && sums::is_sum(end)
                && avoids(end, b.slot) && plain_block(body),
            None => false,
        },
        Stat::Expr(e) => plain_unit(e) || is_done(e),
        Stat::Break | Stat::Continue | Stat::TypeAlias(..) => true,
        _ => false,
    }
}

/// A call for its own sake.
pub open spec fn is_done(e: Expr) -> bool {
    sums::is_sum(e) && crate::ast::is_call_spec(e)
}

pub open spec fn plain_stats(stats: Seq<Stat>) -> bool
    decreases stats,
{
    stats.len() == 0 || (is_plain(stats[0]) && plain_stats(stats.drop_first()))
}

pub open spec fn plain_block(b: Block) -> bool
    decreases b,
{
    plain_stats(b.stats@) && match b.tail {
        Some(e) => plain_unit(*e),
        None => true,
    }
}

/// An expression whose value nobody wants.
pub open spec fn plain_unit(e: Expr) -> bool
    decreases e,
{
    match e {
        Expr::Do(b) => plain_block(b),
        Expr::If(arms, els) => arms@.len() > 0 && plain_arms(arms@) && match els {
            Some(b) => plain_block(b),
            None => true,
        },
        _ => sums::is_sum(e) && sums::is_flat(e),
    }
}

pub open spec fn plain_arms(arms: Seq<(Expr, Block)>) -> bool
    decreases arms,
{
    arms.len() == 0 || (is_cond(arms[0].0, true) && plain_block(arms[0].1) && plain_arms(
        arms.drop_first(),
    ))
}

// ---- jumps that wait for their target ----------------------------------------------------

/// Pointing jumps somewhere changes the code alone.
pub(super) proof fn lemma_patch_keeps(g: Gen, ats: Seq<usize>, t: u32)
    ensures
        ({
            let h = codegen::g_patch_all_to(g, ats, t);
            h == Gen { code: h.code, ..g } && h.code.len() == g.code.len()
        }),
    decreases ats.len(),
{
    reveal(codegen::g_patch_all_to);
    reveal(codegen::g_patch_to);
    if ats.len() > 0 {
        lemma_patch_keeps(codegen::g_patch_to(g, ats[0], t), ats.drop_first(), t);
    }
}

/// A run of jumps is pointed at one place, and nothing else changes.
pub(super) proof fn lemma_patched(g: Gen, ats: Seq<usize>, t: u32)
    requires
        g.code.len() <= u32::MAX,
    ensures
        ({
            let h = codegen::g_patch_all_to(g, ats, t);
            &&& h == Gen { code: h.code, ..g }
            &&& h.code.len() == g.code.len()
            &&& forall|i: int|
                0 <= i < g.code.len() ==> #[trigger] h.code[i] == if ats.contains(i as usize) {
                    codegen::retarget(g.code[i], t)
                } else {
                    g.code[i]
                }
        }),
    decreases ats.len(),
{
    reveal(codegen::g_patch_all_to);
    reveal(codegen::g_patch_to);
    if ats.len() > 0 {
        let g1 = codegen::g_patch_to(g, ats[0], t);
        let rest = ats.drop_first();
        lemma_patched(g1, rest, t);
        let h = codegen::g_patch_all_to(g, ats, t);
        assert(h == codegen::g_patch_all_to(g1, rest, t));
        assert forall|i: int| 0 <= i < g.code.len() implies
            #[trigger] h.code[i] == if ats.contains(i as usize) {
            codegen::retarget(g.code[i], t)
        } else {
            g.code[i]
        } by {
            let x = i as usize;
            if rest.contains(x) {
                let j = choose|j: int| 0 <= j < rest.len() && rest[j] == x;
                assert(ats[j + 1] == x);
            }
            if ats.contains(x) && !rest.contains(x) {
                let j = choose|j: int| 0 <= j < ats.len() && ats[j] == x;
                if j > 0 {
                    assert(rest[j - 1] == x);
                }
                assert(ats[0] == x);
            }
            if ats[0] == x {
                assert(ats.contains(x));
            }
        }
    }
}

/// Some places, each in a run of code.
pub open spec fn all_within(s: Seq<usize>, from: nat, to: nat) -> bool {
    forall|i: int| 0 <= i < s.len() ==> from <= #[trigger] s[i] < to
}

/// What is outside the run is not one of the places.
pub(super) proof fn lemma_within(s: Seq<usize>, from: nat, to: nat)
    requires
        all_within(s, from, to),
    ensures
        forall|x: usize| #[trigger] s.contains(x) ==> from <= x < to,
{
}

// ---- what is added for a condition -------------------------------------------------------

/// What a condition adds, when it goes well: nothing leaves a loop, and every
/// jump that waits is in what was added.
pub open spec fn cond_came(g: Gen, h: Gen, s: Seq<usize>) -> bool {
    &&& h.bad is None ==> g.bad is None
    &&& h.bad is None && sums::fit(g) ==> sums::came_to(g, h) && all_within(
        s,
        g.code.len(),
        h.code.len(),
    )
}

/// One comparison, or one value tested for truth.
pub(super) proof fn lemma_of_leaf(g: Gen, e: Expr, w: bool)
    requires
        is_cond(e, w),
        e is Bool || e is Local || is_test(e),
    ensures
        ({
            let (h, at) = codegen::g_cond_leaf(g, e, w);
            match e {
                Expr::Bin(op, a, b) => {
                    let (g1, ra, g2, k, g3, rb) = sums::binary_parts(g, *a, *b);
                    let kind = leaf_kind(op, w);
                    &&& codegen::kind_of(op) is Some
                    &&& match k {
                        Some(k) => {
                            &&& h == codegen::g_release(
                                codegen::g_emit(g2, Op::JumpIfNotK { kind, a: ra, k, to: 0 }),
                                g.free,
                            )
                            &&& at == g2.code.len() as usize
                        },
                        None => {
                            &&& h == codegen::g_release(
                                codegen::g_emit(g3, Op::JumpIfNot { kind, a: ra, b: rb, to: 0 }),
                                g.free,
                            )
                            &&& at == g3.code.len() as usize
                        },
                    }
                },
                _ => {
                    let (g1, c) = codegen::g_alloc(g);
                    let g2 = codegen::g_release(codegen::g_expr(g1, e, c), g.free);
                    &&& h == codegen::g_emit(
                        g2,
                        if w {
                            Op::JumpIfFalse { cond: c, to: 0 }
                        } else {
                            Op::JumpIfTrue { cond: c, to: 0 }
                        },
                    )
                    &&& at == g2.code.len() as usize
                },
            }
        }),
{
    reveal(codegen::g_cond_leaf);
    reveal(codegen::g_operand);
    reveal(codegen::g_expr);
    reveal(codegen::fused);
}

/// The comparison a branch tests.
pub open spec fn leaf_kind(op: BinOp, w: bool) -> BinKind {
    let k = codegen::kind_of(op)->Some_0;
    if w {
        k
    } else {
        bytecode::inverted(k)
    }
}

/// A literal boolean, and a local, each in a register.
pub(super) proof fn lemma_of_atom(g: Gen, e: Expr, dst: u16)
    requires
        e is Bool || (e matches Expr::Local(b, _) && !b.cell),
    ensures
        codegen::g_expr(g, e, dst) == match e {
            Expr::Bool(b) => {
                let (g1, k) = codegen::g_const(g, Val::Bool(b));
                codegen::g_emit(g1, Op::Const { dst, k })
            },
            Expr::Local(b, _) => if b.slot != dst {
                codegen::g_emit(codegen::g_slot(g, b.slot), Op::Move { dst, src: b.slot })
            } else {
                codegen::g_slot(g, b.slot)
            },
            _ => g,
        },
{
    reveal(codegen::g_expr);
}

/// A boolean among the constants.
pub(super) proof fn lemma_bool_const(g: Gen, b: bool)
    requires
        sums::fit(g),
        codegen::g_const(g, Val::Bool(b)).0.bad is None,
    ensures
        ({
            let (h, k) = codegen::g_const(g, Val::Bool(b));
            &&& sums::came_to(g, h)
            &&& h.code == g.code
            &&& k < h.consts.len()
            &&& h.consts[k as int] == Val::Bool(b)
        }),
{
    reveal(codegen::g_const);
    reveal(codegen::fail);
    lemma_bool_found(g.consts, b, 0);
}

pub(super) proof fn lemma_bool_found(consts: Seq<Val>, b: bool, i: nat)
    ensures
        ({
            let at = codegen::find_const(consts, Val::Bool(b), i);
            at < consts.len() ==> consts[at as int] == Val::Bool(b)
        }),
    decreases consts.len() - i,
{
    reveal(codegen::find_const);
    if i < consts.len() && consts[i as int] != Val::Bool(b) {
        lemma_bool_found(consts, b, i + 1);
    }
}

/// The steps of comparing two sums, each of which went well.
pub(super) proof fn lemma_compared(g: Gen, a: Expr, b: Expr)
    requires
        sums::is_sum(a),
        sums::is_sum(b),
    ensures
        ({
            let (g1, ra, g2, k, g3, rb) = sums::binary_parts(g, a, b);
            match k {
                Some(k) => {
                    &&& b is Num
                    &&& g2.bad is None ==> g.bad is None && g1.bad is None
                    &&& g2.bad is None && sums::fit(g) ==> {
                        &&& sums::operand_came(g, g1)
                        &&& sums::came_to(g1, g2)
                        &&& g2.code == g1.code
                        &&& k < g2.consts.len()
                        &&& g2.consts[k as int] == Val::Num(b->Num_0)
                    }
                },
                None => {
                    &&& g2 == g1
                    &&& g3.bad is None ==> g.bad is None && g1.bad is None
                    &&& g3.bad is None && sums::fit(g) ==> {
                        &&& sums::operand_came(g, g1)
                        &&& sums::operand_came(g1, g3)
                    }
                },
            }
        }),
{
    reveal(grew);
    reveal(codegen::g_maybe_const);
    let (g1, ra, g2, k, g3, rb) = sums::binary_parts(g, a, b);
    if g.bad is Some {
        sums::lemma_sticky_operand(g, a);
    }
    match k {
        Some(_) => {
            assert(sums::is_sum(b));
            if g1.bad is Some {
                reveal(codegen::g_const);
                reveal(codegen::fail);
            }
            if g2.bad is None && sums::fit(g) {
                sums::lemma_added_operand(g, a);
                sums::lemma_const(g1, b->Num_0);
            }
        },
        None => {
            if g1.bad is Some {
                sums::lemma_sticky_operand(g2, b);
            }
            if g3.bad is None && sums::fit(g) {
                sums::lemma_added_operand(g, a);
                sums::lemma_added_operand(g2, b);
            }
        },
    }
}

pub(super) proof fn lemma_leaf_came(g: Gen, e: Expr, w: bool)
    requires
        is_cond(e, w),
        e is Bool || e is Local || is_test(e),
    ensures
        ({
            let (h, at) = codegen::g_cond_leaf(g, e, w);
            cond_came(g, h, seq![at])
        }),
{
    reveal(grew);
    let (h, at) = codegen::g_cond_leaf(g, e, w);
    lemma_of_leaf(g, e, w);
    reveal(codegen::g_emit);
    reveal(codegen::g_release);
    reveal(codegen::g_alloc);
    reveal(codegen::g_slot);
    reveal(codegen::fail);
    match e {
        Expr::Bin(op, a, b) => {
            lemma_compared(g, *a, *b);
        },
        _ => {
            let (g1, c) = codegen::g_alloc(g);
            lemma_of_atom(g1, e, c);
            match e {
                Expr::Bool(b) => {
                    if g1.bad is Some || codegen::g_const(g1, Val::Bool(b)).0.bad is Some {
                        reveal(codegen::g_const);
                    }
                    if h.bad is None && sums::fit(g) {
                        lemma_bool_const(g1, b);
                    }
                },
                _ => {},
            }
        },
    }
}

/// How a condition is compiled.
pub(super) proof fn lemma_of_cond(g: Gen, e: Expr, w: bool)
    requires
        is_cond(e, w),
    ensures
        codegen::g_cond(g, e, w) == match e {
            Expr::Bin(op, a, b) => if op == BinOp::And || op == BinOp::Or {
                let (g1, s1) = codegen::g_cond(g, *a, op == BinOp::And);
                let (g2, s2) = codegen::g_cond(g1, *b, w);
                if w == (op == BinOp::And) {
                    (g2, s1 + s2)
                } else {
                    (codegen::g_patch_all(g2, s1), s2)
                }
            } else {
                let (g1, at) = codegen::g_cond_leaf(g, e, w);
                (g1, seq![at])
            },
            Expr::Un(_, a) => codegen::g_cond(g, *a, !w),
            _ => {
                let (g1, at) = codegen::g_cond_leaf(g, e, w);
                (g1, seq![at])
            },
        },
{
    reveal(codegen::g_cond);
    reveal(codegen::g_cond_leaf);
}

pub(super) proof fn lemma_cond_came(g: Gen, e: Expr, w: bool)
    requires
        is_cond(e, w),
    ensures
        ({
            let (h, s) = codegen::g_cond(g, e, w);
            cond_came(g, h, s)
        }),
    decreases e,
{
    reveal(grew);
    lemma_of_cond(g, e, w);
    match e {
        Expr::Bin(op, a, b) => if op == BinOp::And || op == BinOp::Or {
            let (g1, s1) = codegen::g_cond(g, *a, op == BinOp::And);
            let (g2, s2) = codegen::g_cond(g1, *b, w);
            lemma_cond_came(g, *a, op == BinOp::And);
            lemma_cond_came(g1, *b, w);
            reveal(codegen::g_patch_all);
            lemma_patch_keeps(g2, s1, codegen::here(g2));
            if g2.bad is None && sums::fit(g) {
                lemma_patched(g2, s1, codegen::here(g2));
                lemma_within(s1, g.code.len(), g1.code.len());
                assert(all_within(s1 + s2, g.code.len(), g2.code.len()));
            }
        } else {
            lemma_leaf_came(g, e, w);
        },
        Expr::Un(_, a) => {
            lemma_cond_came(g, *a, !w);
        },
        _ => {
            lemma_leaf_came(g, e, w);
        },
    }
}

// ---- running a condition -----------------------------------------------------------------

/// A finished function has the code of a condition, with its jumps pointed.
#[verifier::opaque]
pub open spec fn has_cond(p: ProtoView, g: Gen, h: Gen, s: Seq<usize>, t: u32) -> bool {
    &&& h.code.len() <= p.code.len()
    &&& forall|i: int|
        g.code.len() <= i < h.code.len() ==> #[trigger] p.code[i] == bytecode::specialised(
            if s.contains(i as usize) {
                codegen::retarget(h.code[i], t)
            } else {
                h.code[i]
            },
        )
    &&& has_consts(p, h)
}

pub open spec fn has_consts(p: ProtoView, h: Gen) -> bool {
    &&& h.consts.len() <= p.consts.len()
    &&& forall|i: int| 0 <= i < h.consts.len() ==> #[trigger] p.consts[i] == h.consts[i]
    &&& sums::begins(h.globals, p.globals)
}

/// The registers below `free` are what they were.
pub open spec fn still(m: Mach, m2: Mach, free: u16, pc: int) -> bool {
    &&& sums::went(m, m2, pc)
    &&& m2.stack.len() == m.stack.len()
    &&& forall|i: int| 0 <= i < m.base + free ==> #[trigger] m2.stack[i] == m.stack[i]
}

/// The machine stands before a condition.
pub open spec fn at_cond(m: Mach, g: Gen, h: Gen, s: Seq<usize>, t: u32, f: Map<u16, Cell>) -> bool {
    &&& sums::clean(m)
    &&& m.pc == g.code.len()
    &&& has_cond(machine::cur(m), g, h, s, t)
    &&& sums::has_room(m, h)
    &&& sums::fit(g)
    &&& h.bad is None
    &&& sums::in_regs(m, g.n_slots, f)
}

/// A condition changes nothing.
pub(super) proof fn lemma_cond_quiet(q: Sums, n: nat, f: Map<u16, Cell>, e: Expr, w: bool)
    requires
        is_cond(e, w),
    ensures
        match meaning::t_cond(q, n, f, e) {
            Ends::Truth(_, g) => g == f,
            Ends::Wrong | Ends::Late => true,
            _ => false,
        },
    decreases e,
{
    match e {
        Expr::Bin(op, a, b) => if op == BinOp::And || op == BinOp::Or {
            lemma_cond_quiet(q, n, f, *a, op == BinOp::And);
            lemma_cond_quiet(q, n, f, *b, w);
        } else {
            sums::lemma_sum_is_quiet(*a);
            sums::lemma_sum_is_quiet(*b);
            faithful::lemma_quiet(q, n, f, *a);
            faithful::lemma_quiet(q, n, f, *b);
        },
        Expr::Un(_, a) => lemma_cond_quiet(q, n, f, *a, !w),
        _ => {},
    }
}

/// An instruction that branches.
pub(super) proof fn lemma_branched(q: Sums, m: Mach, x: Val, to: u32)
    requires
        sums::clean(m),
        machine::step(m) == machine::branch(m, machine::Need::Is(x), to),
    ensures
        sums::after(q, m, 1) == sums::moved(
            m,
            m.stack,
            if crate::value::is_true(x) {
                m.pc + 1
            } else {
                to as int
            },
        ),
{
    reveal(sums::served);
    reveal_with_fuel(sums::after, 2);
    assert(sums::after(q, m, 1) =~= sums::moved(
        m,
        m.stack,
        if crate::value::is_true(x) {
            m.pc + 1
        } else {
            to as int
        },
    ));
}

/// An instruction that puts a value in a register.
pub(super) proof fn lemma_put_value(q: Sums, m: Mach, dst: u16, v: Val)
    requires
        sums::clean(m),
        machine::step(m) == (machine::next(machine::put(m, dst, v)), Out::Run),
    ensures
        sums::after(q, m, 1) == sums::moved(m, m.stack.update(m.base + dst, v), m.pc + 1),
{
    reveal(sums::served);
    reveal_with_fuel(sums::after, 2);
    assert(sums::after(q, m, 1) =~= sums::moved(m, m.stack.update(m.base + dst, v), m.pc + 1));
}

/// Two sums are worked out, to be compared.
pub(super) proof fn lemma_run_compared(
    q: Sums,
    n: nat,
    f: Map<u16, Cell>,
    g: Gen,
    a: Expr,
    b: Expr,
    m: Mach,
) -> (k: nat)
    requires
        sums::is_sum(a),
        sums::is_sum(b),
        sums::clean(m),
        m.pc == g.code.len(),
        sums::fit(g),
        sums::in_regs(m, g.n_slots, f),
        meaning::t_expr(q, n, f, a) is Num,
        meaning::t_expr(q, n, f, b) is Num,
        ({
            let (g1, ra, g2, c, g3, rb) = sums::binary_parts(g, a, b);
            let h = if c is Some {
                g2
            } else {
                g3
            };
            &&& h.bad is None
            &&& sums::has_room(m, h)
            &&& sums::has_code(machine::cur(m), g, h)
        }),
    ensures
        ({
            let (g1, ra, g2, c, g3, rb) = sums::binary_parts(g, a, b);
            let h = if c is Some {
                g2
            } else {
                g3
            };
            let m2 = sums::after(q, m, k);
            &&& still(m, m2, g.free, h.code.len() as int)
            &&& machine::reg(m2, ra) == Val::Num(meaning::t_expr(q, n, f, a)->Num_0)
            &&& c matches Some(c) ==> c < h.consts.len() && h.consts[c as int] == Val::Num(
                meaning::t_expr(q, n, f, b)->Num_0,
            )
            &&& c is None ==> machine::reg(m2, rb) == Val::Num(meaning::t_expr(q, n, f, b)->Num_0)
        }),
{
    let (g1, ra, g2, c, g3, rb) = sums::binary_parts(g, a, b);
    let h = if c is Some {
        g2
    } else {
        g3
    };
    let p = machine::cur(m);
    lemma_compared(g, a, b);
    assert(sums::has_code(p, g, g1)) by {
        assert forall|i: int| g.code.len() <= i < g1.code.len() implies #[trigger] p.code[i]
            == bytecode::specialised(g1.code[i]) by {
            assert(h.code[i] == g1.code[i]);
        }
        assert forall|i: int| 0 <= i < g1.consts.len() implies #[trigger] p.consts[i]
            == g1.consts[i] by {
            assert(h.consts[i] == g1.consts[i]);
        }
    }
    let j = sums::lemma_runs_operand(q, n, f, g, a, m);
    let m1 = sums::after(q, m, j);
    match c {
        Some(_) => j,
        None => {
            assert(sums::in_regs(m1, g2.n_slots, f));
            let l = sums::lemma_runs_operand(q, n, f, g2, b, m1);
            let m2 = sums::after(q, m1, l);
            sums::lemma_after(q, m, j, l);
            assert(m2.stack[m.base + ra] == m1.stack[m.base + ra]);
            j + l
        },
    }
}

/// The branch a comparison takes is the one that was read.
pub(super) proof fn lemma_same_comparison(op: BinOp, x: u64, y: u64)
    requires
        flags::compares(op),
    ensures
        codegen::kind_of(op) is Some,
        bytecode::compares(codegen::kind_of(op)->Some_0),
        bytecode::compare_nums(codegen::kind_of(op)->Some_0, x, y) == meaning::compared(op, x, y),
        bytecode::compares(leaf_kind(op, false)),
        bytecode::compare_nums(leaf_kind(op, false), x, y) == !meaning::compared(op, x, y),
{
}

#[verifier::spinoff_prover]
#[verifier::rlimit(60)]
pub(super) proof fn lemma_run_leaf(
    q: Sums,
    n: nat,
    f: Map<u16, Cell>,
    g: Gen,
    e: Expr,
    w: bool,
    t: u32,
    m: Mach,
) -> (k: nat)
    requires
        is_cond(e, w),
        e is Bool || e is Local || is_test(e),
        at_cond(
            m,
            g,
            codegen::g_cond_leaf(g, e, w).0,
            seq![codegen::g_cond_leaf(g, e, w).1],
            t,
            f,
        ),
        meaning::t_cond(q, n, f, e) is Truth,
    ensures
        still(
            m,
            sums::after(q, m, k),
            g.free,
            if meaning::t_cond(q, n, f, e)->Truth_0 == w {
                codegen::g_cond_leaf(g, e, w).0.code.len() as int
            } else {
                t as int
            },
        ),
{
    reveal(has_cond);
    reveal(grew);
    let (h, at) = codegen::g_cond_leaf(g, e, w);
    let p = machine::cur(m);
    let truth = meaning::t_cond(q, n, f, e)->Truth_0;
    lemma_of_leaf(g, e, w);
    lemma_leaf_came(g, e, w);
    reveal(codegen::g_emit);
    reveal(codegen::g_release);
    reveal(codegen::g_alloc);
    reveal(codegen::g_slot);
    reveal(codegen::fail);
    assert(seq![at].contains(at)) by {
        assert(seq![at][0] == at);
    }
    match e {
        Expr::Bin(op, a, b) => {
            let (g1, ra, g2, c, g3, rb) = sums::binary_parts(g, *a, *b);
            let u = if c is Some {
                g2
            } else {
                g3
            };
            lemma_compared(g, *a, *b);
            sums::lemma_sum_is_quiet(*a);
            sums::lemma_sum_is_quiet(*b);
            faithful::lemma_quiet(q, n, f, *a);
            faithful::lemma_quiet(q, n, f, *b);
            assert(sums::has_code(p, g, u)) by {
                assert forall|i: int| g.code.len() <= i < u.code.len() implies #[trigger] p.code[i]
                    == bytecode::specialised(u.code[i]) by {
                    assert(h.code[i] == u.code[i]);
                    assert(!seq![at].contains(i as usize));
                }
            }
            let k = lemma_run_compared(q, n, f, g, *a, *b, m);
            let m1 = sums::after(q, m, k);
            let x = meaning::t_expr(q, n, f, *a)->Num_0;
            let y = meaning::t_expr(q, n, f, *b)->Num_0;
            let kind = leaf_kind(op, w);
            lemma_same_comparison(op, x, y);
            assert(p.code[m1.pc] == match c {
                Some(c) => Op::JumpIfNotK { kind, a: ra, k: c, to: t },
                None => Op::JumpIfNot { kind, a: ra, b: rb, to: t },
            });
            let v = Val::Bool(bytecode::compare_nums(kind, x, y));
            assert(machine::step(m1) == machine::branch(m1, machine::Need::Is(v), t)) by {
                match c {
                    Some(c) => {
                        assert(p.consts[c as int] == Val::Num(y));
                    },
                    None => {},
                }
            }
            lemma_branched(q, m1, v, t);
            sums::lemma_after(q, m, k, 1);
            k + 1
        },
        _ => lemma_run_atom(q, n, f, g, e, w, t, m),
    }
}

/// A literal or a local, tested for truth.
#[verifier::spinoff_prover]
#[verifier::rlimit(60)]
pub(super) proof fn lemma_run_atom(
    q: Sums,
    n: nat,
    f: Map<u16, Cell>,
    g: Gen,
    e: Expr,
    w: bool,
    t: u32,
    m: Mach,
) -> (k: nat)
    requires
        is_cond(e, w),
        e is Bool || e is Local,
        at_cond(
            m,
            g,
            codegen::g_cond_leaf(g, e, w).0,
            seq![codegen::g_cond_leaf(g, e, w).1],
            t,
            f,
        ),
        meaning::t_cond(q, n, f, e) is Truth,
    ensures
        still(
            m,
            sums::after(q, m, k),
            g.free,
            if meaning::t_cond(q, n, f, e)->Truth_0 == w {
                codegen::g_cond_leaf(g, e, w).0.code.len() as int
            } else {
                t as int
            },
        ),
{
    let h = codegen::g_cond_leaf(g, e, w).0;
    let truth = meaning::t_cond(q, n, f, e)->Truth_0;
    let c = g.free;
    lemma_atom_in_place(machine::cur(m), g, e, w, t);
    lemma_atom_added(g, e, w);
    match e {
        Expr::Local(b, _) => {
            assert(f.contains_key(b.slot));
            assert(machine::reg(m, b.slot) == Val::Bool(truth));
        },
        _ => {},
    }
    lemma_atom_loaded(q, m, c, truth);
    let m1 = sums::after(q, m, 1);
    assert(machine::cur(m1) == machine::cur(m));
    lemma_atom_tested(q, m1, c, truth, w, t);
    sums::lemma_after(q, m, 1, 1);
    2
}

/// A boolean is put in a register.
pub(super) proof fn lemma_atom_loaded(q: Sums, m: Mach, c: u16, truth: bool)
    requires
        sums::clean(m),
        match machine::cur(m).code[m.pc] {
            Op::Const { dst, k } => dst == c && machine::cur(m).consts[k as int] == Val::Bool(truth),
            Op::Move { dst, src } => dst == c && machine::reg(m, src) == Val::Bool(truth),
            _ => false,
        },
    ensures
        sums::after(q, m, 1) == sums::moved(
            m,
            m.stack.update(m.base + c, Val::Bool(truth)),
            m.pc + 1,
        ),
{
    assert(machine::step(m) == (
        machine::next(machine::put(m, c, Val::Bool(truth))),
        Out::Run,
    ));
    lemma_put_value(q, m, c, Val::Bool(truth));
}

/// A boolean in a register is branched on.
pub(super) proof fn lemma_atom_tested(q: Sums, m: Mach, c: u16, truth: bool, w: bool, t: u32)
    requires
        sums::clean(m),
        machine::reg(m, c) == Val::Bool(truth),
        machine::cur(m).code[m.pc] == if w {
            Op::JumpIfFalse { cond: c, to: t }
        } else {
            Op::JumpIfTrue { cond: c, to: t }
        },
    ensures
        sums::after(q, m, 1) == sums::moved(
            m,
            m.stack,
            if truth == w {
                m.pc + 1
            } else {
                t as int
            },
        ),
{
    let x = if w {
        Val::Bool(truth)
    } else {
        Val::Bool(!truth)
    };
    assert(machine::step(m) == machine::branch(m, machine::Need::Is(x), t));
    lemma_branched(q, m, x, t);
}

/// The two instructions of a literal or a local that is tested.
pub(super) proof fn lemma_atom_in_place(p: ProtoView, g: Gen, e: Expr, w: bool, t: u32)
    requires
        is_cond(e, w),
        e is Bool || e is Local,
        sums::fit(g),
        codegen::g_cond_leaf(g, e, w).0.bad is None,
        has_cond(
            p,
            g,
            codegen::g_cond_leaf(g, e, w).0,
            seq![codegen::g_cond_leaf(g, e, w).1],
            t,
        ),
    ensures
        match e {
            Expr::Bool(b) => match p.code[g.code.len() as int] {
                Op::Const { dst, k } => dst == g.free && p.consts[k as int] == Val::Bool(b),
                _ => false,
            },
            Expr::Local(b, _) => p.code[g.code.len() as int] == (Op::Move {
                dst: g.free,
                src: b.slot,
            }),
            _ => true,
        },
        p.code[g.code.len() as int + 1] == if w {
            Op::JumpIfFalse { cond: g.free, to: t }
        } else {
            Op::JumpIfTrue { cond: g.free, to: t }
        },
{
    reveal(has_cond);
    let (h, at) = codegen::g_cond_leaf(g, e, w);
    let i = g.code.len() as int;
    lemma_atom_added(g, e, w);
    let s = seq![at];
    assert(s[0] == at);
    assert(s.contains(at));
    assert(!s.contains(i as usize));
    assert(p.code[i] == bytecode::specialised(h.code[i]));
    assert(p.code[i + 1] == bytecode::specialised(codegen::retarget(h.code[i + 1], t)));
}

/// A literal or a local takes an instruction, and testing it another.
pub(super) proof fn lemma_atom_added(g: Gen, e: Expr, w: bool)
    requires
        is_cond(e, w),
        e is Bool || e is Local,
        sums::fit(g),
        codegen::g_cond_leaf(g, e, w).0.bad is None,
    ensures
        ({
            let (h, at) = codegen::g_cond_leaf(g, e, w);
            let (g1, c) = codegen::g_alloc(g);
            &&& c == g.free < h.max_regs
            &&& h.code.len() == g.code.len() + 2
            &&& h.code.len() <= u32::MAX
            &&& at == g.code.len() + 1
            &&& h.code[g.code.len() as int] == match e {
                Expr::Bool(b) => Op::Const { dst: c, k: codegen::g_const(g1, Val::Bool(b)).1 },
                Expr::Local(b, _) => Op::Move { dst: c, src: b.slot },
                _ => Op::Nil { dst: c },
            }
            &&& h.code[g.code.len() as int + 1] == if w {
                Op::JumpIfFalse { cond: c, to: 0 }
            } else {
                Op::JumpIfTrue { cond: c, to: 0 }
            }
            &&& match e {
                Expr::Bool(b) => {
                    let k = codegen::g_const(g1, Val::Bool(b)).1;
                    k < h.consts.len() && h.consts[k as int] == Val::Bool(b)
                },
                Expr::Local(b, _) => b.slot < g.n_slots,
                _ => true,
            }
        }),
{
    lemma_of_leaf(g, e, w);
    reveal(codegen::g_emit);
    reveal(codegen::g_release);
    reveal(codegen::g_alloc);
    reveal(codegen::g_slot);
    reveal(codegen::fail);
    let (g1, c) = codegen::g_alloc(g);
    lemma_of_atom(g1, e, c);
    match e {
        Expr::Bool(b) => {
            if g1.bad is Some || codegen::g_const(g1, Val::Bool(b)).0.bad is Some {
                reveal(codegen::g_const);
            }
            lemma_bool_const(g1, b);
        },
        _ => {},
    }
}

/// The machine branches on a condition as it was read.
#[verifier::spinoff_prover]
#[verifier::rlimit(60)]
pub(super) proof fn lemma_run_cond(
    q: Sums,
    n: nat,
    f: Map<u16, Cell>,
    g: Gen,
    e: Expr,
    w: bool,
    t: u32,
    m: Mach,
) -> (k: nat)
    requires
        is_cond(e, w),
        at_cond(m, g, codegen::g_cond(g, e, w).0, codegen::g_cond(g, e, w).1, t, f),
        meaning::t_cond(q, n, f, e) is Truth,
    ensures
        still(
            m,
            sums::after(q, m, k),
            g.free,
            if meaning::t_cond(q, n, f, e)->Truth_0 == w {
                codegen::g_cond(g, e, w).0.code.len() as int
            } else {
                t as int
            },
        ),
    decreases e,
{
    reveal(has_cond);
    reveal(grew);
    let (h, s) = codegen::g_cond(g, e, w);
    let p = machine::cur(m);
    lemma_of_cond(g, e, w);
    lemma_cond_came(g, e, w);
    match e {
        Expr::Bin(op, a, b) => if op == BinOp::And || op == BinOp::Or {
            let (g1, s1) = codegen::g_cond(g, *a, op == BinOp::And);
            let (g2, s2) = codegen::g_cond(g1, *b, w);
            lemma_cond_came(g, *a, op == BinOp::And);
            lemma_cond_came(g1, *b, w);
            lemma_cond_quiet(q, n, f, *a, op == BinOp::And);
            reveal(codegen::g_patch_all);
            lemma_patch_keeps(g2, s1, codegen::here(g2));
            lemma_patched(g2, s1, codegen::here(g2));
            lemma_within(s1, g.code.len(), g1.code.len());
            lemma_within(s2, g1.code.len(), g2.code.len());
            // where the first half jumps to
            let u = if w == (op == BinOp::And) {
                t
            } else {
                codegen::here(g2)
            };
            assert(has_cond(p, g, g1, s1, u)) by {
                assert forall|i: int| g.code.len() <= i < g1.code.len() implies #[trigger] p.code[i]
                    == bytecode::specialised(
                    if s1.contains(i as usize) {
                        codegen::retarget(g1.code[i], u)
                    } else {
                        g1.code[i]
                    },
                ) by {
                    assert(g2.code[i] == g1.code[i]);
                    lemma_either_list(s1, s2, i as usize);
                    assert(!s2.contains(i as usize));
                }
                assert forall|i: int| 0 <= i < g1.consts.len() implies #[trigger] p.consts[i]
                    == g1.consts[i] by {
                    assert(g2.consts[i] == g1.consts[i]);
                }
            }
            assert(has_cond(p, g1, g2, s2, t)) by {
                assert forall|i: int| g1.code.len() <= i < g2.code.len() implies #[trigger] p.code[i]
                    == bytecode::specialised(
                    if s2.contains(i as usize) {
                        codegen::retarget(g2.code[i], t)
                    } else {
                        g2.code[i]
                    },
                ) by {
                    lemma_either_list(s1, s2, i as usize);
                    assert(!s1.contains(i as usize));
                }
            }
            let j = lemma_run_cond(q, n, f, g, *a, op == BinOp::And, u, m);
            let m1 = sums::after(q, m, j);
            if meaning::t_cond(q, n, f, *a)->Truth_0 == (op == BinOp::And) {
                assert(sums::in_regs(m1, g1.n_slots, f));
                let l = lemma_run_cond(q, n, f, g1, *b, w, t, m1);
                sums::lemma_after(q, m, j, l);
                j + l
            } else {
                j
            }
        } else {
            lemma_run_leaf(q, n, f, g, e, w, t, m)
        },
        Expr::Un(_, a) => lemma_run_cond(q, n, f, g, *a, !w, t, m),
        _ => lemma_run_leaf(q, n, f, g, e, w, t, m),
    }
}

pub(super) proof fn lemma_either_list(a: Seq<usize>, b: Seq<usize>, x: usize)
    ensures
        (a + b).contains(x) == (a.contains(x) || b.contains(x)),
{
    if a.contains(x) {
        let j = choose|j: int| 0 <= j < a.len() && a[j] == x;
        assert((a + b)[j] == x);
    }
    if b.contains(x) {
        let j = choose|j: int| 0 <= j < b.len() && b[j] == x;
        assert((a + b)[a.len() + j] == x);
    }
}

// ---- what is added for statements --------------------------------------------------------

/// A list that has grown by places in a run of code.
pub open spec fn more(a: Seq<usize>, b: Seq<usize>, from: nat, to: nat) -> bool {
    &&& a.len() <= b.len()
    &&& forall|i: int| 0 <= i < a.len() ==> #[trigger] b[i] == a[i]
    &&& forall|i: int| a.len() <= i < b.len() ==> from <= #[trigger] b[i] < to
}

/// What statements add: code, constants, and jumps out of the loop they are in.
#[verifier::opaque]
pub open spec fn grew(g: Gen, h: Gen) -> bool {
    &&& g.bad is None
    &&& g.free == h.free
    &&& g.n_slots == h.n_slots
    &&& g.max_regs <= h.max_regs
    &&& g.code.len() <= h.code.len()
    &&& forall|i: int| 0 <= i < g.code.len() ==> g.code[i] == #[trigger] h.code[i]
    &&& g.consts.len() <= h.consts.len()
    &&& forall|i: int| 0 <= i < g.consts.len() ==> g.consts[i] == #[trigger] h.consts[i]
    &&& sums::begins(g.globals, h.globals)
    &&& sums::fit(h)
    &&& g.loops.len() == h.loops.len()
    &&& g.loops.len() > 0 ==> {
        &&& h.loops.drop_last() == g.loops.drop_last()
        &&& more(g.loops.last().breaks, h.loops.last().breaks, g.code.len(), h.code.len())
        &&& more(g.loops.last().continues, h.loops.last().continues, g.code.len(), h.code.len())
    }
}

/// What is plain of it.
pub(super) proof fn lemma_grew(g: Gen, h: Gen)
    requires
        grew(g, h),
    ensures
        g.bad is None,
        g.free == h.free,
        g.n_slots == h.n_slots,
        g.max_regs <= h.max_regs,
        g.code.len() <= h.code.len(),
        sums::fit(h),
        g.loops.len() == h.loops.len(),
{
    reveal(grew);
}

/// The same, when it goes well.
pub open spec fn stat_came(g: Gen, h: Gen) -> bool {
    &&& h.bad is None ==> g.bad is None
    &&& h.bad is None && sums::fit(g) ==> grew(g, h)
}

pub(super) proof fn lemma_calm(g: Gen, h: Gen)
    requires
        sums::came_to(g, h),
    ensures
        grew(g, h),
{
    reveal(grew);
}

pub(super) proof fn lemma_grew_on(g: Gen, g1: Gen, h: Gen)
    requires
        grew(g, g1),
        grew(g1, h),
    ensures
        grew(g, h),
{
    reveal(grew);
    assert forall|i: int| 0 <= i < g.code.len() implies g.code[i] == #[trigger] h.code[i] by {
        assert(g1.code[i] == g.code[i]);
    }
    assert forall|i: int| 0 <= i < g.consts.len() implies g.consts[i] == #[trigger] h.consts[i] by {
        assert(g1.consts[i] == g.consts[i]);
    }
    if g.loops.len() > 0 {
        lemma_more_on(
            g.loops.last().breaks,
            g1.loops.last().breaks,
            h.loops.last().breaks,
            g.code.len(),
            g1.code.len(),
            h.code.len(),
        );
        lemma_more_on(
            g.loops.last().continues,
            g1.loops.last().continues,
            h.loops.last().continues,
            g.code.len(),
            g1.code.len(),
            h.code.len(),
        );
    }
}

pub(super) proof fn lemma_more_on(a: Seq<usize>, b: Seq<usize>, c: Seq<usize>, i: nat, j: nat, k: nat)
    requires
        i <= j <= k,
        more(a, b, i, j),
        more(b, c, j, k),
    ensures
        more(a, c, i, k),
{
    assert forall|x: int| 0 <= x < a.len() implies #[trigger] c[x] == a[x] by {
        assert(b[x] == a[x]);
    }
    assert forall|x: int| a.len() <= x < c.len() implies i <= #[trigger] c[x] < k by {
        if x < b.len() {
            assert(c[x] == b[x]);
        }
    }
}

/// A value that is a sum or a test adds no jump.
pub(super) proof fn lemma_value_came(g: Gen, e: Expr, dst: u16)
    requires
        sums::is_sum(e) || is_cond(e, true),
    ensures
        ({
            let h = codegen::g_expr(g, e, dst);
            &&& cond_came(g, codegen::g_release(h, g.free), Seq::empty())
            &&& h.bad is None && sums::fit(g) && (sums::is_flat(e) || g.n_slots <= dst < g.free)
                ==> h.free == g.free
            &&& h.bad is None && sums::fit(g) ==> sums::fit(h)
        }),
    decreases e, 1int,
{
    reveal(codegen::g_release);
    match e {
        Expr::Bin(op, a, b) => if op == BinOp::And || op == BinOp::Or {
            lemma_of_logic(g, e, dst);
            lemma_logic_came(g, e, dst);
        } else {
            lemma_plain_came(g, e, dst);
        },
        Expr::Un(op, a) => if op == UnOp::Not {
            lemma_of_not(g, e, dst);
            lemma_flag_is(*a);
            lemma_value_came(g, *a, dst);
            reveal(codegen::g_emit);
            reveal(codegen::fail);
        } else {
            lemma_plain_came(g, e, dst);
        },
        _ => lemma_plain_came(g, e, dst),
    }
}

/// `a && b` and `a || b`, for their value.
pub open spec fn logic_parts(g: Gen, e: Expr, dst: u16) -> (Gen, Gen, Gen) {
    match e {
        Expr::Bin(op, a, b) => {
            let g1 = codegen::g_expr(g, *a, dst);
            let g2 = codegen::g_emit(
                g1,
                if op == BinOp::And {
                    Op::JumpIfFalse { cond: dst, to: 0 }
                } else {
                    Op::JumpIfTrue { cond: dst, to: 0 }
                },
            );
            (g1, g2, codegen::g_expr(g2, *b, dst))
        },
        _ => (g, g, g),
    }
}

pub(super) proof fn lemma_of_logic(g: Gen, e: Expr, dst: u16)
    requires
        e matches Expr::Bin(op, _, _) && (op == BinOp::And || op == BinOp::Or),
    ensures
        ({
            let (g1, g2, g3) = logic_parts(g, e, dst);
            codegen::g_expr(g, e, dst) == codegen::g_patch_to(
                g3,
                g1.code.len() as usize,
                codegen::here(g3),
            )
        }),
{
    reveal(codegen::g_expr);
    reveal(codegen::g_binary);
    assert(codegen::g_expr(g, e, dst) == codegen::g_binary(g, e, dst));
}

pub(super) proof fn lemma_of_not(g: Gen, e: Expr, dst: u16)
    requires
        e matches Expr::Un(op, _) && op == UnOp::Not,
    ensures
        codegen::g_expr(g, e, dst) == codegen::g_emit(
            codegen::g_expr(g, *e->Un_1, dst),
            Op::Not { dst, a: dst },
        ),
{
    reveal(codegen::g_expr);
    reveal(codegen::g_unary);
    assert(codegen::g_expr(g, e, dst) == codegen::g_unary(g, e, dst));
}

/// The steps of `a && b`, each of which went well.
proof fn lemma_logic_came(g: Gen, e: Expr, dst: u16)
    requires
        is_cond(e, true),
        e matches Expr::Bin(op, _, _) && (op == BinOp::And || op == BinOp::Or),
    ensures
        ({
            let (g1, g2, g3) = logic_parts(g, e, dst);
            let h = codegen::g_expr(g, e, dst);
            &&& h.bad == g3.bad
            &&& g3.bad is None ==> g.bad is None && g1.bad is None && g2.bad is None
            &&& g3.bad is None && sums::fit(g) ==> {
                &&& sums::came_to(g, g1)
                &&& sums::came_to(g2, g3)
                &&& sums::came_to(g, h)
                &&& sums::fit(g2)
                &&& g2.code == g1.code.push(
                    if e->Bin_0 == BinOp::And {
                        Op::JumpIfFalse { cond: dst, to: 0 }
                    } else {
                        Op::JumpIfTrue { cond: dst, to: 0 }
                    },
                )
                &&& g2 == Gen { code: g2.code, lines: g2.lines, ..g1 }
                &&& h == Gen { code: h.code, ..g3 }
                &&& h.code == g3.code.update(
                    g1.code.len() as int,
                    codegen::retarget(g3.code[g1.code.len() as int], codegen::here(g3)),
                )
            }
        }),
    decreases e, 0int,
{
    let (g1, g2, g3) = logic_parts(g, e, dst);
    lemma_of_logic(g, e, dst);
    reveal(codegen::g_emit);
    reveal(codegen::g_patch_to);
    reveal(codegen::g_release);
    reveal(codegen::fail);
    lemma_flag_is(*e->Bin_1);
    lemma_flag_is(*e->Bin_2);
    lemma_value_came(g, *e->Bin_1, dst);
    lemma_value_came(g2, *e->Bin_2, dst);
    if g3.bad is None && sums::fit(g) {
        assert(codegen::g_release(g1, g.free) =~= g1);
        assert(codegen::g_release(g3, g2.free) =~= g3);
    }
}

/// A condition is one whichever way it branches, and takes no register.
proof fn lemma_flag_is(e: Expr)
    requires
        is_cond(e, true) || is_cond(e, false),
    ensures
        is_cond(e, true),
        is_cond(e, false),
        sums::is_flat(e),
    decreases e,
{
    match e {
        Expr::Bin(op, a, b) => if op == BinOp::And || op == BinOp::Or {
            lemma_flag_is(*b);
        },
        Expr::Un(_, a) => lemma_flag_is(*a),
        _ => {},
    }
}

pub(super) proof fn lemma_plain_came(g: Gen, e: Expr, dst: u16)
    requires
        sums::is_sum(e) || is_test(e),
    ensures
        ({
            let h = codegen::g_expr(g, e, dst);
            &&& cond_came(g, codegen::g_release(h, g.free), Seq::empty())
            &&& h.bad is None && sums::fit(g) && (sums::is_flat(e) || g.n_slots <= dst < g.free)
                ==> h.free == g.free
            &&& h.bad is None && sums::fit(g) ==> sums::fit(h)
        }),
{
    reveal(codegen::g_release);
    reveal(grew);
    let h = codegen::g_expr(g, e, dst);
    if sums::is_sum(e) {
        if g.bad is Some {
            sums::lemma_sticky(g, e, dst);
        }
        if h.bad is None && sums::fit(g) {
            sums::lemma_added(g, e, dst);
        }
    } else {
        match e {
            Expr::Bool(b) => {
                lemma_of_atom(g, e, dst);
                reveal(codegen::g_emit);
                reveal(codegen::fail);
                if g.bad is Some || codegen::g_const(g, Val::Bool(b)).0.bad is Some {
                    reveal(codegen::g_const);
                }
                if h.bad is None && sums::fit(g) {
                    lemma_bool_const(g, b);
                }
            },
            _ => {
                lemma_of_test(g, e, dst);
                if g.bad is Some {
                    sums::lemma_sticky_binary(g, e, dst);
                }
                if h.bad is None && sums::fit(g) {
                    sums::lemma_added_binary(g, e, dst);
                }
            },
        }
    }
}

pub(super) proof fn lemma_of_test(g: Gen, e: Expr, dst: u16)
    requires
        is_test(e),
        e is Bin,
    ensures
        codegen::g_expr(g, e, dst) == codegen::g_binary(g, e, dst),
        sums::is_pair(e),
{
    reveal(codegen::g_expr);
    reveal(codegen::g_binary);
}

// ---- how statements are compiled ---------------------------------------------------------

/// A sum given back: all a call gives, or one value.
pub open spec fn returned(g: Gen, e: Expr) -> Gen {
    let (g1, r) = codegen::g_alloc(g);
    if crate::ast::is_call_spec(e) {
        codegen::g_release(
            codegen::g_emit(codegen::g_call(g1, e, r, MULTI), Op::Ret { base: r, n: MULTI }),
            g.free,
        )
    } else {
        match codegen::plain_reg_of(e) {
            Some(slot) => codegen::g_emit(codegen::g_slot(g, slot), Op::Ret { base: slot, n: 1 }),
            None => codegen::g_release(
                codegen::g_emit(codegen::g_expr(g1, e, r), Op::Ret { base: r, n: 1 }),
                g.free,
            ),
        }
    }
}

pub(super) proof fn lemma_returned_came(g: Gen, e: Expr)
    requires
        sums::is_sum(e),
    ensures
        cond_came(g, returned(g, e), Seq::empty()),
{
    reveal(codegen::g_emit);
    reveal(codegen::g_alloc);
    reveal(codegen::g_release);
    reveal(codegen::g_slot);
    reveal(codegen::fail);
    let (g1, r) = codegen::g_alloc(g);
    if crate::ast::is_call_spec(e) {
        if g1.bad is Some {
            sums::lemma_sticky_call(g1, e, r, MULTI);
        }
        if returned(g, e).bad is None && sums::fit(g) {
            sums::lemma_added_call(g1, e, r, MULTI);
        }
    } else {
        lemma_value_came(g1, e, r);
    }
}

/// A value given to a local: in its register, or by way of another.
pub open spec fn assigned(g: Gen, slot: u16, e: Expr) -> Gen {
    if codegen::in_place(e) {
        codegen::g_release(codegen::g_expr(codegen::g_slot(g, slot), e, slot), g.free)
    } else {
        let (g1, tmp) = codegen::g_alloc(codegen::g_slot(g, slot));
        codegen::g_release(
            codegen::g_emit(codegen::g_expr(g1, e, tmp), Op::Move { dst: slot, src: tmp }),
            g.free,
        )
    }
}

/// One statement, by its form.
pub(super) proof fn lemma_of_stat(g: Gen, st: Stat)
    requires
        is_plain(st),
        !several::is_several(st),
    ensures
        codegen::g_stat(g, st) == match st {
            Stat::LetSlots(bs, es) => codegen::g_release(
                codegen::g_expr(codegen::g_slot(g, bs@[0].slot), es@[0], bs@[0].slot),
                g.free,
            ),
            Stat::Assign(ts, es) => assigned(g, codegen::plain_reg_of(ts@[0])->Some_0, es@[0]),
            Stat::OpAssign(t, op, e) => {
                let slot = codegen::plain_reg_of(t)->Some_0;
                let kind = codegen::kind_of(op)->Some_0;
                let (g1, k) = codegen::g_maybe_const(
                    codegen::g_slot(g, slot),
                    codegen::num_literal(e),
                );
                match k {
                    Some(k) => codegen::g_release(
                        codegen::g_emit(g1, Op::BinK { kind, dst: slot, a: slot, k }),
                        g.free,
                    ),
                    None => {
                        let (g2, rhs) = codegen::g_operand(g1, e);
                        codegen::g_release(
                            codegen::g_emit(g2, Op::Bin { kind, dst: slot, a: slot, b: rhs }),
                            g.free,
                        )
                    },
                }
            },
            Stat::Return(es) => if es@.len() == 0 {
                let (g1, r) = codegen::g_alloc(g);
                codegen::g_release(codegen::g_emit(g1, Op::Ret { base: r, n: 0 }), g.free)
            } else {
                returned(g, es@[0])
            },
            Stat::While(id, c, b) => {
                let (g1, exits) = if c == Expr::Bool(true) {
                    (g, Seq::<usize>::empty())
                } else {
                    codegen::g_cond(g, c, true)
                };
                codegen::g_close_loop(
                    codegen::g_block(codegen::g_enter(g1, exits), b, None),
                    codegen::here(g),
                    id,
                )
            },
            Stat::Loop(id, b) => codegen::g_close_loop(
                codegen::g_block(codegen::g_enter(g, Seq::empty()), b, None),
                codegen::here(g),
                id,
            ),
            Stat::ForRange { .. } => codegen::g_for_range(g, st),
            Stat::Expr(e) => {
                let (g1, tmp) = codegen::g_alloc(g);
                codegen::g_release(codegen::g_discard(g1, e, tmp), g.free)
            },
            Stat::Break => codegen::g_break(g),
            Stat::Continue => codegen::g_continue(g),
            _ => g,
        },
{
    match st {
        Stat::LetSlots(bs, es) => lemma_of_let(g, st),
        Stat::Assign(..) => lemma_of_assign(g, st),
        Stat::OpAssign(..) => lemma_of_op_assign(g, st),
        Stat::Return(..) => lemma_of_return(g, st),
        _ => lemma_of_other(g, st),
    }
}

pub(super) proof fn lemma_of_let(g: Gen, st: Stat)
    requires
        is_plain(st),
        !several::is_several(st),
        st is LetSlots,
    ensures
        match st {
            Stat::LetSlots(bs, es) => codegen::g_stat(g, st) == codegen::g_release(
                codegen::g_expr(codegen::g_slot(g, bs@[0].slot), es@[0], bs@[0].slot),
                g.free,
            ),
            _ => true,
        },
{
    reveal(codegen::g_stat);
    reveal(codegen::g_bind);
    reveal(codegen::g_expr);
    match st {
        Stat::LetSlots(bs, es) => {
            assert(codegen::g_stat(g, st) == codegen::g_bind(g, bs@, es@));
        },
        _ => {},
    }
}

pub(super) proof fn lemma_of_assign(g: Gen, st: Stat)
    requires
        is_plain(st),
        !several::is_several(st),
        st is Assign,
    ensures
        match st {
            Stat::Assign(ts, es) => codegen::g_stat(g, st) == assigned(
                g,
                codegen::plain_reg_of(ts@[0])->Some_0,
                es@[0],
            ),
            _ => true,
        },
{
    reveal(codegen::g_stat);
    reveal(codegen::g_assign);
    reveal(codegen::g_expr);
    assert(codegen::g_stat(g, st) == codegen::g_assign(g, st));
}

pub(super) proof fn lemma_of_op_assign(g: Gen, st: Stat)
    requires
        is_plain(st),
        st is OpAssign,
    ensures
        match st {
            Stat::OpAssign(t, op, e) => {
                let slot = codegen::plain_reg_of(t)->Some_0;
                let kind = codegen::kind_of(op)->Some_0;
                let (g1, k) = codegen::g_maybe_const(
                    codegen::g_slot(g, slot),
                    codegen::num_literal(e),
                );
                codegen::g_stat(g, st) == match k {
                    Some(k) => codegen::g_release(
                        codegen::g_emit(g1, Op::BinK { kind, dst: slot, a: slot, k }),
                        g.free,
                    ),
                    None => {
                        let (g2, rhs) = codegen::g_operand(g1, e);
                        codegen::g_release(
                            codegen::g_emit(g2, Op::Bin { kind, dst: slot, a: slot, b: rhs }),
                            g.free,
                        )
                    },
                }
            },
            _ => true,
        },
{
    reveal(codegen::g_stat);
    reveal(codegen::g_op_assign);
    reveal(codegen::g_operand);
    reveal(codegen::g_kind);
    assert(codegen::g_stat(g, st) == codegen::g_op_assign(g, st));
}

pub(super) proof fn lemma_of_return(g: Gen, st: Stat)
    requires
        is_plain(st),
        st is Return,
    ensures
        match st {
            Stat::Return(es) => codegen::g_stat(g, st) == if es@.len() == 0 {
                let (g1, r) = codegen::g_alloc(g);
                codegen::g_release(codegen::g_emit(g1, Op::Ret { base: r, n: 0 }), g.free)
            } else {
                returned(g, es@[0])
            },
            _ => true,
        },
{
    match st {
        Stat::Return(es) => {
            assert(es@.len() <= 1);
            lemma_return_code(g, st);
        },
        _ => {},
    }
}

proof fn lemma_return_code(g: Gen, st: Stat)
    requires
        st matches Stat::Return(es) && es@.len() <= 1,
    ensures
        match st {
            Stat::Return(es) => codegen::g_stat(g, st) == if es@.len() == 0 {
                let (g1, r) = codegen::g_alloc(g);
                codegen::g_release(codegen::g_emit(g1, Op::Ret { base: r, n: 0 }), g.free)
            } else {
                returned(g, es@[0])
            },
            _ => true,
        },
{
    reveal(codegen::g_stat);
    reveal(codegen::g_return);
    reveal(codegen::g_expr);
    reveal(codegen::g_call);
    assert(codegen::g_stat(g, st) == codegen::g_return(g, st));
}

pub(super) proof fn lemma_of_other(g: Gen, st: Stat)
    requires
        is_plain(st),
    ensures
        match st {
            Stat::While(id, c, b) => {
                let (g1, exits) = if c == Expr::Bool(true) {
                    (g, Seq::<usize>::empty())
                } else {
                    codegen::g_cond(g, c, true)
                };
                codegen::g_stat(g, st) == codegen::g_close_loop(
                    codegen::g_block(codegen::g_enter(g1, exits), b, None),
                    codegen::here(g),
                    id,
                )
            },
            Stat::Loop(id, b) => codegen::g_stat(g, st) == codegen::g_close_loop(
                codegen::g_block(codegen::g_enter(g, Seq::empty()), b, None),
                codegen::here(g),
                id,
            ),
            Stat::ForRange { .. } => codegen::g_stat(g, st) == codegen::g_for_range(g, st),
            Stat::Expr(e) => {
                let (g1, tmp) = codegen::g_alloc(g);
                codegen::g_stat(g, st) == codegen::g_release(codegen::g_discard(g1, e, tmp), g.free)
            },
            Stat::Break => codegen::g_stat(g, st) == codegen::g_break(g),
            Stat::Continue => codegen::g_stat(g, st) == codegen::g_continue(g),
            Stat::TypeAlias(..) => codegen::g_stat(g, st) == g,
            _ => true,
        },
{
    reveal(codegen::g_stat);
    reveal(codegen::g_while);
    reveal(codegen::g_loop);
    reveal(codegen::g_for_range);
    reveal(codegen::g_expr_stat);
    reveal(codegen::g_cond);
    reveal(codegen::g_block);
    reveal(codegen::g_discard);
    match st {
        Stat::While(..) => {
            assert(codegen::g_stat(g, st) == codegen::g_while(g, st));
        },
        Stat::Loop(..) => {
            assert(codegen::g_stat(g, st) == codegen::g_loop(g, st));
        },
        Stat::Expr(..) => {
            assert(codegen::g_stat(g, st) == codegen::g_expr_stat(g, st));
        },
        _ => {},
    }
}

/// A counted loop.
pub(super) proof fn lemma_of_for(g: Gen, st: Stat)
    requires
        is_plain(st),
        st is ForRange,
    ensures
        match st {
            Stat::ForRange { id, var, binding: Some(b), start, end, inclusive, body } => {
                let (g2, limit) = codegen::g_alloc(codegen::g_slot(g, b.slot));
                let g3 = codegen::g_expr(codegen::g_expr(g2, start, b.slot), end, limit);
                let g4 = codegen::g_emit(
                    g3,
                    Op::JumpIfNot {
                        kind: if inclusive {
                            BinKind::Le
                        } else {
                            BinKind::Lt
                        },
                        a: b.slot,
                        b: limit,
                        to: 0,
                    },
                );
                let g6 = codegen::g_block(
                    codegen::g_enter(g4, seq![g3.code.len() as usize]),
                    body,
                    None,
                );
                codegen::g_for_range(g, st) == codegen::g_release(
                    closed_count(g6, b.slot, limit, codegen::here(g4), id, inclusive),
                    g.free,
                )
            },
            _ => true,
        },
{
    reveal(codegen::g_for_range);
    reveal(codegen::g_expr);
    reveal(codegen::g_block);
}

/// The end of a counted loop: its continues, its back edge and its breaks.
pub open spec fn closed_count(
    g: Gen,
    counter: u16,
    limit: u16,
    top: u32,
    id: u32,
    le: bool,
) -> Gen {
    let (g7, ctx) = codegen::g_leave(g);
    let (g8, hint) = codegen::g_hint(codegen::g_patch_all(g7, ctx.continues));
    let g9 = codegen::g_emit(g8, Op::ForLoop { counter, limit, to: top, id, hint, le });
    codegen::g_patch_all(g9, ctx.breaks)
}

pub(super) proof fn lemma_of_stats(g: Gen, stats: Seq<Stat>, lines: Seq<u32>)
    ensures
        codegen::g_stats(g, stats, lines) == if stats.len() == 0 {
            g
        } else {
            codegen::g_stats(
                codegen::g_stat(Gen { line: codegen::line_at(lines, g.line), ..g }, stats[0]),
                stats.drop_first(),
                codegen::lines_from(lines, 1),
            )
        },
{
    reveal(codegen::g_stats);
    reveal(codegen::g_stat);
}

pub(super) proof fn lemma_of_block(g: Gen, b: Block, dst: Option<u16>)
    ensures
        ({
            let g1 = codegen::g_stats(g, b.stats@, b.lines@);
            codegen::g_block(g, b, dst) == match b.tail {
                Some(e) => {
                    let g2 = codegen::g_tail_line(g1, b.tail_line);
                    match dst {
                        Some(d) => codegen::g_expr(g2, *e, d),
                        None => {
                            let (g3, tmp) = codegen::g_alloc(g2);
                            codegen::g_release(codegen::g_expr(g3, *e, tmp), g2.free)
                        },
                    }
                },
                None => match dst {
                    Some(d) => codegen::g_emit(g1, Op::Nil { dst: d }),
                    None => g1,
                },
            }
        }),
{
    reveal(codegen::g_block);
    reveal(codegen::g_stats);
    reveal(codegen::g_expr);
}

/// An expression that is wanted for nothing but may take a register.
pub(super) proof fn lemma_of_unit(g: Gen, e: Expr, d: u16)
    ensures
        e matches Expr::Do(b) ==> codegen::g_expr(g, e, d) == codegen::g_block(g, b, Some(d))
            && codegen::g_discard(g, e, d) == codegen::g_block(g, b, None),
        e is If ==> codegen::g_expr(g, e, d) == codegen::g_if(g, e, Some(d)) && codegen::g_discard(
            g,
            e,
            d,
        ) == codegen::g_if(g, e, None),
        sums::is_own(e) ==> codegen::g_discard(g, e, d) == codegen::g_expr(g, e, d),
{
    reveal(codegen::g_expr);
    reveal(codegen::g_discard);
    reveal(codegen::g_block);
    reveal(codegen::g_if);
}

pub(super) proof fn lemma_of_if(g: Gen, e: Expr, dst: Option<u16>)
    ensures
        match e {
            Expr::If(arms, els) => {
                let (g1, ends) = codegen::g_arms(g, arms@, els is Some || dst is Some, dst);
                let g2 = match els {
                    Some(b) => codegen::g_block(g1, b, dst),
                    None => match dst {
                        Some(d) => codegen::g_emit(g1, Op::Nil { dst: d }),
                        None => g1,
                    },
                };
                codegen::g_if(g, e, dst) == codegen::g_patch_all(g2, ends)
            },
            _ => true,
        },
{
    reveal(codegen::g_if);
    reveal(codegen::g_arms);
    reveal(codegen::g_block);
}

/// How the first arm of an `if` is compiled.
pub open spec fn arm_parts(g: Gen, c: Expr, b: Block, last: bool, dst: Option<u16>) -> (
    Gen,
    Seq<usize>,
    Gen,
    Gen,
    Gen,
) {
    let (g1, next) = codegen::g_cond(g, c, true);
    let g2 = codegen::g_block(g1, b, dst);
    let g3 = if last {
        g2
    } else {
        codegen::g_emit(g2, Op::Jump { to: 0 })
    };
    (g1, next, g2, g3, codegen::g_patch_all(g3, next))
}

pub(super) proof fn lemma_of_arms(g: Gen, arms: Seq<(Expr, Block)>, els: bool, dst: Option<u16>)
    ensures
        codegen::g_arms(g, arms, els, dst) == if arms.len() == 0 {
            (g, Seq::empty())
        } else {
            let last = arms.len() == 1 && !els;
            let (g1, next, g2, g3, g4) = arm_parts(g, arms[0].0, arms[0].1, last, dst);
            let (g5, ends) = codegen::g_arms(g4, arms.drop_first(), els, dst);
            (
                g5,
                if last {
                    ends
                } else {
                    seq![g2.code.len() as usize] + ends
                },
            )
        },
{
    reveal(codegen::g_arms);
    reveal(codegen::g_cond);
    reveal(codegen::g_block);
}

// ---- closing a loop ----------------------------------------------------------------------

/// A jump out of a loop, pointed past it or at its next turn.
pub open spec fn aimed(op: Op, i: int, breaks: Seq<usize>, continues: Seq<usize>, brk: u32, cont: u32) -> Op {
    if breaks.contains(i as usize) {
        codegen::retarget(op, brk)
    } else if continues.contains(i as usize) {
        codegen::retarget(op, cont)
    } else {
        op
    }
}

/// The code of a loop that has been closed.
pub open spec fn loop_closed(g: Gen, h: Gen, cont: u32) -> bool {
    let ctx = g.loops.last();
    &&& g.bad is None
    &&& h.bad is None
    &&& h.free == g.free
    &&& h.n_slots == g.n_slots
    &&& h.max_regs == g.max_regs
    &&& h.consts == g.consts
    &&& h.globals == g.globals
    &&& h.loops == g.loops.drop_last()
    &&& h.code.len() == g.code.len() + 1
    &&& h.code.len() <= u32::MAX
    &&& forall|i: int|
        0 <= i < g.code.len() ==> #[trigger] h.code[i] == aimed(
            g.code[i],
            i,
            ctx.breaks,
            ctx.continues,
            h.code.len() as u32,
            cont,
        )
}

pub(super) proof fn lemma_closed(g: Gen, top: u32, id: u32)
    ensures
        ({
            let h = codegen::g_close_loop(g, top, id);
            &&& h.bad is None ==> g.bad is None
            &&& h.bad is None && sums::fit(g) && g.loops.len() > 0 ==> loop_closed(g, h, top) && h.code[g.code.len() as int]
                is JumpBack && h.code[g.code.len() as int]->JumpBack_to == top
        }),
{
    reveal(codegen::g_close_loop);
    reveal(codegen::g_leave);
    reveal(codegen::g_hint);
    reveal(codegen::g_emit);
    reveal(codegen::g_patch_all);
    reveal(codegen::g_patch_hint);
    reveal(codegen::fail);
    let h = codegen::g_close_loop(g, top, id);
    let (g1, ctx) = codegen::g_leave(g);
    let ga = codegen::g_patch_all_to(g1, ctx.continues, top);
    let (g2, hint) = codegen::g_hint(ga);
    let g3 = codegen::g_emit(g2, Op::JumpBack { to: top, id, hint, exit: 0 });
    let gb = codegen::g_patch_all_to(g3, ctx.breaks, codegen::here(g3));
    lemma_patch_keeps(g1, ctx.continues, top);
    lemma_patch_keeps(g3, ctx.breaks, codegen::here(g3));
    if h.bad is None && sums::fit(g) && g.loops.len() > 0 {
        lemma_patched(g1, ctx.continues, top);
        lemma_patched(g3, ctx.breaks, codegen::here(g3));
        assert(!ctx.breaks.contains(g.code.len() as usize)) by {
            if ctx.breaks.contains(g.code.len() as usize) {
                let j = choose|j: int| 0 <= j < ctx.breaks.len() && ctx.breaks[j] == g.code.len() as usize;
                assert(ctx.breaks[j] < g.code.len());
            }
        }
        assert(gb.code[g.code.len() as int] == Op::JumpBack { to: top, id, hint, exit: 0 });
    }
}

pub(super) proof fn lemma_count_closed(g: Gen, counter: u16, limit: u16, top: u32, id: u32, le: bool)
    ensures
        ({
            let h = closed_count(g, counter, limit, top, id, le);
            &&& h.bad is None ==> g.bad is None
            &&& h.bad is None && sums::fit(g) && g.loops.len() > 0 ==> loop_closed(
                g,
                h,
                codegen::here(g),
            )
                && match h.code[g.code.len() as int] {
                Op::ForLoop { counter: c, limit: l, to, id: i, hint, le: e } => c == counter && l
                    == limit && to == top && e == le,
                _ => false,
            }
        }),
{
    reveal(codegen::g_leave);
    reveal(codegen::g_hint);
    reveal(codegen::g_emit);
    reveal(codegen::g_patch_all);
    reveal(codegen::fail);
    let h = closed_count(g, counter, limit, top, id, le);
    let (g1, ctx) = codegen::g_leave(g);
    let ga = codegen::g_patch_all_to(g1, ctx.continues, codegen::here(g1));
    let (g2, hint) = codegen::g_hint(ga);
    let g3 = codegen::g_emit(g2, Op::ForLoop { counter, limit, to: top, id, hint, le });
    lemma_patch_keeps(g1, ctx.continues, codegen::here(g1));
    lemma_patch_keeps(g3, ctx.breaks, codegen::here(g3));
    if h.bad is None && sums::fit(g) && g.loops.len() > 0 {
        lemma_patched(g1, ctx.continues, codegen::here(g1));
        lemma_patched(g3, ctx.breaks, codegen::here(g3));
        assert(!ctx.breaks.contains(g.code.len() as usize)) by {
            if ctx.breaks.contains(g.code.len() as usize) {
                let j = choose|j: int| 0 <= j < ctx.breaks.len() && ctx.breaks[j] == g.code.len() as usize;
                assert(ctx.breaks[j] < g.code.len());
            }
        }
    }
}

/// Entering a loop keeps everything fit, and what the body adds leaves the
/// enclosing loops alone.
pub(super) proof fn lemma_entered(g: Gen, g1: Gen, exits: Seq<usize>, gb: Gen, h: Gen, cont: u32)
    requires
        sums::fit(g),
        sums::came_to(g, g1),
        all_within(exits, g.code.len(), g1.code.len()),
        grew(codegen::g_enter(g1, exits), gb),
        loop_closed(gb, h, cont),
    ensures
        grew(g, h),
{
    reveal(grew);
    reveal(codegen::g_enter);
    let ge = codegen::g_enter(g1, exits);
    let ctx = gb.loops.last();
    assert(ge.loops.drop_last() =~= g1.loops);
    assert(h.loops == g.loops);
    assert forall|i: int| 0 <= i < g.code.len() implies g.code[i] == #[trigger] h.code[i] by {
        assert(gb.code[i] == ge.code[i]);
        assert(g1.code[i] == g.code[i]);
        lemma_not_before(exits, ctx.breaks, g.code.len(), g1.code.len(), gb.code.len(), i);
        lemma_not_before(
            Seq::empty(),
            ctx.continues,
            g.code.len(),
            g1.code.len(),
            gb.code.len(),
            i,
        );
    }
    assert forall|i: int| 0 <= i < g.consts.len() implies g.consts[i] == #[trigger] h.consts[i] by {
        assert(g1.consts[i] == g.consts[i]);
        assert(gb.consts[i] == ge.consts[i]);
    }
}

/// Nothing waits before the loop.
pub(super) proof fn lemma_not_before(a: Seq<usize>, b: Seq<usize>, from: nat, mid: nat, to: nat, i: int)
    requires
        from <= mid,
        to <= u32::MAX,
        all_within(a, from, mid),
        more(a, b, mid, to),
        0 <= i < from,
    ensures
        !b.contains(i as usize),
{
    if b.contains(i as usize) {
        let j = choose|j: int| 0 <= j < b.len() && b[j] == i as usize;
        if j < a.len() {
            assert(b[j] == a[j]);
        }
    }
}

pub(super) proof fn lemma_entered_fit(g1: Gen, exits: Seq<usize>)
    requires
        sums::fit(g1),
        all_within(exits, 0, g1.code.len()),
    ensures
        sums::fit(codegen::g_enter(g1, exits)),
        codegen::g_enter(g1, exits).bad == g1.bad,
        codegen::g_enter(g1, exits).loops.len() == g1.loops.len() + 1,
{
    reveal(grew);
    reveal(codegen::g_enter);
}

// ---- each statement adds what it should --------------------------------------------------

pub(super) proof fn lemma_stats_came(g: Gen, stats: Seq<Stat>, lines: Seq<u32>)
    requires
        plain_stats(stats),
    ensures
        stat_came(g, codegen::g_stats(g, stats, lines)),
    decreases stats, 0int,
{
    reveal(grew);
    lemma_of_stats(g, stats, lines);
    if stats.len() > 0 {
        let g0 = Gen { line: codegen::line_at(lines, g.line), ..g };
        let g1 = codegen::g_stat(g0, stats[0]);
        let rest = codegen::lines_from(lines, 1);
        lemma_stat_came(g0, stats[0]);
        lemma_stats_came(g1, stats.drop_first(), rest);
        let h = codegen::g_stats(g1, stats.drop_first(), rest);
        if h.bad is None && sums::fit(g) {
            assert(sums::fit(g0));
            lemma_grew_on(g0, g1, h);
        }
    }
}

pub(super) proof fn lemma_block_came(g: Gen, b: Block, dst: Option<u16>)
    requires
        plain_block(b),
    ensures
        stat_came(g, codegen::g_block(g, b, dst)),
    decreases b, 0int,
{
    reveal(grew);
    lemma_of_block(g, b, dst);
    lemma_stats_came(g, b.stats@, b.lines@);
    reveal(codegen::g_emit);
    reveal(codegen::g_alloc);
    reveal(codegen::g_release);
    reveal(codegen::g_tail_line);
    reveal(codegen::fail);
    let g1 = codegen::g_stats(g, b.stats@, b.lines@);
    let h = codegen::g_block(g, b, dst);
    match b.tail {
        Some(e) => {
            let g2 = codegen::g_tail_line(g1, b.tail_line);
            match dst {
                Some(d) => {
                    lemma_unit_came(g2, *e, d);
                    if h.bad is None && sums::fit(g) {
                        assert(sums::fit(g2));
                        lemma_grew_on(g, g1, h);
                    }
                },
                None => {
                    let (g3, tmp) = codegen::g_alloc(g2);
                    lemma_unit_came(g3, *e, tmp);
                    if h.bad is None && sums::fit(g) {
                        assert(sums::fit(g3));
                        assert(grew(g1, h));
                        lemma_grew_on(g, g1, h);
                    }
                },
            }
        },
        None => match dst {
            Some(d) => {
                if h.bad is None && sums::fit(g) {
                    assert(grew(g1, h));
                    lemma_grew_on(g, g1, h);
                }
            },
            None => {},
        },
    }
}

/// An expression that is wanted for nothing but takes a register.
pub(super) proof fn lemma_unit_came(g: Gen, e: Expr, d: u16)
    requires
        plain_unit(e),
    ensures
        stat_came(g, codegen::g_expr(g, e, d)),
        stat_came(g, codegen::g_discard(g, e, d)),
    decreases e, 1int,
{
    reveal(grew);
    lemma_of_unit(g, e, d);
    match e {
        Expr::Do(b) => {
            lemma_block_came(g, b, Some(d));
            lemma_block_came(g, b, None);
        },
        Expr::If(..) => {
            lemma_if_came(g, e, Some(d));
            lemma_if_came(g, e, None);
        },
        _ => {
            reveal(codegen::g_release);
            lemma_value_came(g, e, d);
            let h = codegen::g_expr(g, e, d);
            if h.bad is None && sums::fit(g) {
                assert(codegen::g_release(h, g.free) =~= h);
            }
        },
    }
}

pub(super) proof fn lemma_if_came(g: Gen, e: Expr, dst: Option<u16>)
    requires
        e is If,
        plain_unit(e),
    ensures
        stat_came(g, codegen::g_if(g, e, dst)),
    decreases e, 0int,
{
    reveal(grew);
    lemma_of_if(g, e, dst);
    reveal(codegen::g_patch_all);
    reveal(codegen::g_emit);
    reveal(codegen::fail);
    match e {
        Expr::If(arms, els) => {
            let (g1, ends) = codegen::g_arms(g, arms@, els is Some || dst is Some, dst);
            lemma_arms_came(g, arms@, els is Some || dst is Some, dst);
            let g2 = match els {
                Some(b) => codegen::g_block(g1, b, dst),
                None => match dst {
                    Some(d) => codegen::g_emit(g1, Op::Nil { dst: d }),
                    None => g1,
                },
            };
            match els {
                Some(b) => lemma_block_came(g1, b, dst),
                None => {},
            }
            let h = codegen::g_if(g, e, dst);
            lemma_patch_keeps(g2, ends, codegen::here(g2));
            if h.bad is None && sums::fit(g) {
                assert(grew(g1, g2));
                lemma_grew_on(g, g1, g2);
                lemma_patched(g2, ends, codegen::here(g2));
                lemma_within(ends, g.code.len(), g1.code.len());
            }
        },
        _ => {},
    }
}

pub(super) proof fn lemma_arms_came(g: Gen, arms: Seq<(Expr, Block)>, els: bool, dst: Option<u16>)
    requires
        plain_arms(arms),
    ensures
        ({
            let (h, ends) = codegen::g_arms(g, arms, els, dst);
            &&& stat_came(g, h)
            &&& h.bad is None && sums::fit(g) ==> all_within(ends, g.code.len(), h.code.len())
        }),
    decreases arms, 0int,
{
    reveal(grew);
    lemma_of_arms(g, arms, els, dst);
    if arms.len() > 0 {
        let last = arms.len() == 1 && !els;
        let (g1, next, g2, g3, g4) = arm_parts(g, arms[0].0, arms[0].1, last, dst);
        let (g5, ends) = codegen::g_arms(g4, arms.drop_first(), els, dst);
        lemma_cond_came(g, arms[0].0, true);
        lemma_block_came(g1, arms[0].1, dst);
        lemma_arms_came(g4, arms.drop_first(), els, dst);
        reveal(codegen::g_patch_all);
        reveal(codegen::g_emit);
        reveal(codegen::fail);
        lemma_patch_keeps(g3, next, codegen::here(g3));
        if g5.bad is None && sums::fit(g) {
            lemma_calm(g, g1);
            lemma_grew_on(g, g1, g2);
            assert(grew(g2, g3));
            lemma_grew_on(g, g2, g3);
            lemma_patched(g3, next, codegen::here(g3));
            lemma_within(next, g.code.len(), g1.code.len());
            assert(grew(g, g4));
            lemma_grew_on(g, g4, g5);
        }
    }
}

pub(super) proof fn lemma_stat_came(g: Gen, st: Stat)
    requires
        is_plain(st),
    ensures
        stat_came(g, codegen::g_stat(g, st)),
    decreases st, 1int,
{
    reveal(grew);
    if several::is_several(st) {
        several::lemma_several_came(g, st);
    } else {
        lemma_of_stat(g, st);
    }
    match st {
        Stat::LetSlots(..) | Stat::Assign(..) | Stat::OpAssign(..) | Stat::Return(..) => if !several::is_several(
            st,
        ) {
            lemma_simple_came(g, st);
        },
        Stat::While(id, c, b) => {
            let (g1, exits) = if c == Expr::Bool(true) {
                (g, Seq::<usize>::empty())
            } else {
                codegen::g_cond(g, c, true)
            };
            if c != Expr::Bool(true) {
                lemma_cond_came(g, c, true);
            }
            let ge = codegen::g_enter(g1, exits);
            let gb = codegen::g_block(ge, b, None);
            lemma_block_came(ge, b, None);
            lemma_loop_came(g, g1, exits, gb, codegen::here(g), id);
        },
        Stat::Loop(id, b) => {
            let ge = codegen::g_enter(g, Seq::empty());
            let gb = codegen::g_block(ge, b, None);
            lemma_block_came(ge, b, None);
            lemma_loop_came(g, g, Seq::empty(), gb, codegen::here(g), id);
        },
        Stat::ForRange { id, var, binding, start, end, inclusive, body } => {
            lemma_for_came(g, st);
        },
        Stat::Expr(e) => {
            reveal(codegen::g_alloc);
            reveal(codegen::g_release);
            reveal(codegen::fail);
            let (g1, tmp) = codegen::g_alloc(g);
            if is_done(e) {
                lemma_done_came(g, e);
            } else {
                lemma_unit_came(g1, e, tmp);
            }
        },
        Stat::Break | Stat::Continue => {
            lemma_jump_came(g, st);
        },
        _ => {},
    }
}

/// What a call for its own sake adds.
pub(super) proof fn lemma_done_came(g: Gen, e: Expr)
    requires
        is_done(e),
    ensures
        ({
            let (g1, tmp) = codegen::g_alloc(g);
            let h = codegen::g_discard(g1, e, tmp);
            &&& h == codegen::g_call(g1, e, tmp, 0)
            &&& stat_came(g, codegen::g_release(h, g.free))
            &&& cond_came(g, codegen::g_release(h, g.free), Seq::empty())
        }),
{
    reveal(grew);
    reveal(codegen::g_alloc);
    reveal(codegen::g_release);
    reveal(codegen::fail);
    reveal(codegen::g_discard);
    reveal(codegen::g_call);
    let (g1, tmp) = codegen::g_alloc(g);
    let h = codegen::g_discard(g1, e, tmp);
    if g1.bad is Some {
        sums::lemma_sticky_call(g1, e, tmp, 0);
    }
    if h.bad is None && sums::fit(g) {
        sums::lemma_added_call(g1, e, tmp, 0);
    }
}

pub(super) proof fn lemma_simple_came(g: Gen, st: Stat)
    requires
        is_plain(st),
        !several::is_several(st),
        st is LetSlots || st is Assign || st is OpAssign || st is Return,
    ensures
        stat_came(g, codegen::g_stat(g, st)),
{
    reveal(grew);
    lemma_of_stat(g, st);
    reveal(codegen::g_emit);
    reveal(codegen::g_alloc);
    reveal(codegen::g_release);
    reveal(codegen::g_slot);
    reveal(codegen::fail);
    match st {
        Stat::LetSlots(bs, es) => {
            lemma_value_came(codegen::g_slot(g, bs@[0].slot), es@[0], bs@[0].slot);
        },
        Stat::Assign(ts, es) => {
            let slot = codegen::plain_reg_of(ts@[0])->Some_0;
            let g0 = codegen::g_slot(g, slot);
            if codegen::in_place(es@[0]) {
                lemma_value_came(g0, es@[0], slot);
            } else {
                let (g1, tmp) = codegen::g_alloc(g0);
                lemma_value_came(g1, es@[0], tmp);
            }
        },
        Stat::OpAssign(t, _, e) => {
            let g0 = codegen::g_slot(g, codegen::plain_reg_of(t)->Some_0);
            lemma_literal_or_operand(g0, e);
        },
        Stat::Return(es) => {
            if es@.len() == 1 {
                lemma_returned_came(g, es@[0]);
            }
        },
        _ => {},
    }
}

/// The right of an operator: a constant, or a register.
pub(super) proof fn lemma_literal_or_operand(g: Gen, e: Expr)
    requires
        sums::is_sum(e),
    ensures
        ({
            let (g1, k) = codegen::g_maybe_const(g, codegen::num_literal(e));
            match k {
                Some(k) => {
                    &&& e is Num
                    &&& g1.bad is None ==> g.bad is None
                    &&& g1.bad is None && sums::fit(g) ==> sums::came_to(g, g1) && g1.code == g.code
                        && k < g1.consts.len() && g1.consts[k as int] == Val::Num(e->Num_0)
                },
                None => {
                    let (g2, r) = codegen::g_operand(g1, e);
                    &&& g1 == g
                    &&& g2.bad is None ==> g.bad is None
                    &&& g2.bad is None && sums::fit(g) ==> sums::operand_came(g, g2)
                },
            }
        }),
{
    reveal(grew);
    reveal(codegen::g_maybe_const);
    let (g1, k) = codegen::g_maybe_const(g, codegen::num_literal(e));
    match k {
        Some(_) => {
            if g.bad is Some {
                reveal(codegen::g_const);
                reveal(codegen::fail);
            }
            if g1.bad is None && sums::fit(g) {
                sums::lemma_const(g, e->Num_0);
            }
        },
        None => {
            if g.bad is Some {
                sums::lemma_sticky_operand(g, e);
            }
            if codegen::g_operand(g, e).0.bad is None && sums::fit(g) {
                sums::lemma_added_operand(g, e);
            }
        },
    }
}

/// A loop that is closed has added what it should.
pub(super) proof fn lemma_loop_came(g: Gen, g1: Gen, exits: Seq<usize>, gb: Gen, top: u32, id: u32)
    requires
        cond_came(g, g1, exits) || (g1 == g && exits.len() == 0),
        stat_came(codegen::g_enter(g1, exits), gb),
    ensures
        stat_came(g, codegen::g_close_loop(gb, top, id)),
{
    reveal(grew);
    let h = codegen::g_close_loop(gb, top, id);
    lemma_closed(gb, top, id);
    if h.bad is None {
        reveal(codegen::g_enter);
        assert(g1.bad is None);
        if sums::fit(g) {
            assert(sums::came_to(g, g1));
            lemma_entered_fit(g1, exits);
            lemma_entered(g, g1, exits, gb, h, top);
        }
    }
}

pub(super) proof fn lemma_jump_came(g: Gen, st: Stat)
    requires
        st is Break || st is Continue,
    ensures
        stat_came(g, codegen::g_break(g)),
        stat_came(g, codegen::g_continue(g)),
{
    reveal(grew);
    reveal(codegen::g_break);
    reveal(codegen::g_continue);
    reveal(codegen::g_emit);
    reveal(codegen::fail);
    if g.loops.len() > 0 && sums::fit(g) {
        let b = codegen::g_break(g);
        let c = codegen::g_continue(g);
        assert(b.loops.drop_last() =~= g.loops.drop_last());
        assert(c.loops.drop_last() =~= g.loops.drop_last());
    }
}

pub(super) proof fn lemma_for_came(g: Gen, st: Stat)
    requires
        is_plain(st),
        st is ForRange,
    ensures
        stat_came(g, codegen::g_for_range(g, st)),
    decreases st, 0int,
{
    reveal(grew);
    lemma_of_for(g, st);
    match st {
        Stat::ForRange { id, var, binding, start, end, inclusive, body } => {
            let b = binding->Some_0;
            let (g2, limit) = codegen::g_alloc(codegen::g_slot(g, b.slot));
            let gs = codegen::g_expr(g2, start, b.slot);
            let g3 = codegen::g_expr(gs, end, limit);
            let kind = if inclusive {
                BinKind::Le
            } else {
                BinKind::Lt
            };
            let g4 = codegen::g_emit(g3, Op::JumpIfNot { kind, a: b.slot, b: limit, to: 0 });
            let exits = seq![g3.code.len() as usize];
            let ge = codegen::g_enter(g4, exits);
            let g6 = codegen::g_block(ge, body, None);
            let top = codegen::here(g4);
            let h = closed_count(g6, b.slot, limit, top, id, inclusive);
            lemma_value_came(g2, start, b.slot);
            lemma_value_came(gs, end, limit);
            lemma_block_came(ge, body, None);
            lemma_count_closed(g6, b.slot, limit, top, id, inclusive);
            reveal(codegen::g_emit);
            reveal(codegen::g_alloc);
            reveal(codegen::g_release);
            reveal(codegen::g_slot);
            reveal(codegen::fail);
            assert(h.bad is None ==> g4.bad is None) by {
                reveal(codegen::g_enter);
            }
            if h.bad is None && sums::fit(g) {
                assert(sums::fit(g2));
                assert(sums::came_to(g2, g4));
                assert(all_within(exits, g2.code.len(), g4.code.len()));
                lemma_entered_fit(g4, exits);
                lemma_entered(g2, g4, exits, g6, h, codegen::here(g6));
            }
        },
        _ => {},
    }
}

// ---- code in place -----------------------------------------------------------------------

/// A finished function has the code of statements, with the jumps out of the
/// loop they are in pointed.
#[verifier::opaque]
pub open spec fn has_stats(p: ProtoView, g: Gen, h: Gen, a: Aim) -> bool {
    &&& h.code.len() <= p.code.len()
    &&& forall|i: int|
        g.code.len() <= i < h.code.len() ==> #[trigger] p.code[i] == bytecode::specialised(
            aimed(h.code[i], i, a.breaks, a.continues, a.brk, a.cont),
        )
    &&& has_consts(p, h)
}

/// Where the jumps out of a loop go, and which they are.
pub ghost struct Aim {
    pub breaks: Seq<usize>,
    pub continues: Seq<usize>,
    pub brk: u32,
    pub cont: u32,
}

/// A list that has grown by places from here on.
pub open spec fn later(s: Seq<usize>, all: Seq<usize>, from: nat) -> bool {
    &&& s.len() <= all.len()
    &&& forall|i: int| 0 <= i < s.len() ==> #[trigger] all[i] == s[i]
    &&& forall|i: int| s.len() <= i < all.len() ==> from <= #[trigger] all[i]
}

/// The jumps out of a loop are those there are and some that come later.
pub open spec fn covers(h: Gen, a: Aim) -> bool {
    if h.loops.len() > 0 {
        later(h.loops.last().breaks, a.breaks, h.code.len()) && later(
            h.loops.last().continues,
            a.continues,
            h.code.len(),
        )
    } else {
        a.breaks.len() == 0 && a.continues.len() == 0
    }
}

pub(super) proof fn lemma_later(s: Seq<usize>, t: Seq<usize>, all: Seq<usize>, i: nat, j: nat)
    requires
        i <= j,
        more(s, t, i, j),
        later(t, all, j),
    ensures
        later(s, all, i),
{
    assert forall|x: int| 0 <= x < s.len() implies #[trigger] all[x] == s[x] by {
        assert(t[x] == s[x]);
    }
    assert forall|x: int| s.len() <= x < all.len() implies i <= #[trigger] all[x] by {
        if x < t.len() {
            assert(all[x] == t[x]);
        }
    }
}

pub(super) proof fn lemma_covers(g: Gen, h: Gen, a: Aim)
    requires
        grew(g, h),
        covers(h, a),
    ensures
        covers(g, a),
{
    reveal(grew);
    if g.loops.len() > 0 {
        lemma_later(
            g.loops.last().breaks,
            h.loops.last().breaks,
            a.breaks,
            g.code.len(),
            h.code.len(),
        );
        lemma_later(
            g.loops.last().continues,
            h.loops.last().continues,
            a.continues,
            g.code.len(),
            h.code.len(),
        );
    }
}

/// Code in place is in place piece by piece.
pub(super) proof fn lemma_pieces(p: ProtoView, g: Gen, g1: Gen, h: Gen, a: Aim)
    requires
        grew(g, g1),
        grew(g1, h),
        has_stats(p, g, h, a),
        covers(h, a),
    ensures
        has_stats(p, g, g1, a),
        has_stats(p, g1, h, a),
        covers(g1, a),
{
    reveal(grew);
    reveal(has_stats);
    lemma_covers(g1, h, a);
    assert forall|i: int| g.code.len() <= i < g1.code.len() implies #[trigger] p.code[i]
        == bytecode::specialised(aimed(g1.code[i], i, a.breaks, a.continues, a.brk, a.cont)) by {
        assert(h.code[i] == g1.code[i]);
    }
    assert forall|i: int| 0 <= i < g1.consts.len() implies #[trigger] p.consts[i] == g1.consts[i] by {
        assert(h.consts[i] == g1.consts[i]);
    }
}

/// Code that leaves no loop is in place as it is.
pub(super) proof fn lemma_plainly(p: ProtoView, g: Gen, h: Gen, a: Aim)
    requires
        sums::fit(g),
        sums::fit(h),
        g.loops == h.loops,
        has_stats(p, g, h, a),
        covers(h, a),
    ensures
        sums::has_code(p, g, h),
        forall|i: int|
            g.code.len() <= i < h.code.len() ==> !(#[trigger] a.breaks.contains(i as usize))
                && !a.continues.contains(i as usize),
{
    reveal(has_stats);
    assert forall|i: int| g.code.len() <= i < h.code.len() implies !(#[trigger] a.breaks.contains(
        i as usize,
    )) && !a.continues.contains(i as usize) by {
        if g.loops.len() > 0 {
            lemma_outside(g.loops.last().breaks, a.breaks, g.code.len(), h.code.len(), i);
            lemma_outside(g.loops.last().continues, a.continues, g.code.len(), h.code.len(), i);
        }
    }
    assert forall|i: int| g.code.len() <= i < h.code.len() implies #[trigger] p.code[i]
        == bytecode::specialised(h.code[i]) by {
        assert(!a.breaks.contains(i as usize));
    }
}

pub(super) proof fn lemma_outside(s: Seq<usize>, all: Seq<usize>, from: nat, to: nat, i: int)
    requires
        sums::all_below(s, from),
        later(s, all, to),
        from <= i < to <= u32::MAX,
    ensures
        !all.contains(i as usize),
{
    if all.contains(i as usize) {
        let j = choose|j: int| 0 <= j < all.len() && all[j] == i as usize;
        if j < s.len() {
            assert(all[j] == s[j]);
        }
    }
}

// ---- running statements ------------------------------------------------------------------

/// The machine has come somewhere with these locals; what is above them and in
/// use is what it was.
pub open spec fn at(m: Mach, m2: Mach, g: Gen, f: Map<u16, Cell>, pc: int) -> bool {
    &&& m2 == Mach { stack: m2.stack, ticks: m2.ticks, line: m2.line, pc, ..m }
    &&& m2.stack.len() == m.stack.len()
    &&& sums::in_regs(m2, g.n_slots, f)
    &&& forall|i: int|
        m.base + g.n_slots <= i < m.base + g.free ==> #[trigger] m2.stack[i] == m.stack[i]
    &&& forall|i: int| 0 <= i < m.base ==> #[trigger] m2.stack[i] == m.stack[i]
}

/// The machine has come to an instruction that returns this.
pub open spec fn gives_back(m: Mach, m2: Mach, v: Option<u64>) -> bool {
    &&& m2 == Mach {
        stack: m2.stack,
        ticks: m2.ticks,
        line: m2.line,
        multi: m2.multi,
        pc: m2.pc,
        ..m
    }
    &&& m2.stack.len() == m.stack.len()
    &&& forall|i: int| 0 <= i < m.base ==> #[trigger] m2.stack[i] == m.stack[i]
    &&& 0 <= m2.pc < machine::cur(m).code.len()
    &&& match machine::cur(m).code[m2.pc] {
        Op::Ret { base, n } => match v {
            Some(x) => (n == 1 && machine::reg(m2, base) == Val::Num(x)) || (n == MULTI && m2.multi
                == seq![Val::Num(x)]),
            None => n == 0,
        },
        _ => false,
    }
}

/// The machine has come where the code that was read goes.
pub open spec fn arrives(
    m: Mach,
    m2: Mach,
    g: Gen,
    a: Ends<Map<u16, Cell>>,
    pc: int,
    aim: Aim,
) -> bool {
    match a {
        Ends::Done(f) => at(m, m2, g, f, pc),
        Ends::Out(Exit::Break, f) => g.loops.len() > 0 ==> at(m, m2, g, f, aim.brk as int),
        Ends::Out(Exit::Next(_), f) => g.loops.len() > 0 ==> at(m, m2, g, f, aim.cont as int),
        Ends::Out(Exit::Return(v), _) => gives_back(m, m2, v),
        _ => true,
    }
}

/// The machine stands before statements.
pub open spec fn before(m: Mach, g: Gen, h: Gen, f: Map<u16, Cell>, aim: Aim) -> bool {
    &&& sums::clean(m)
    &&& !m.jit
    &&& m.pc == g.code.len()
    &&& has_stats(machine::cur(m), g, h, aim)
    &&& covers(h, aim)
    &&& sums::has_room(m, h)
    &&& sums::fit(g)
    &&& h.bad is None
    &&& sums::in_regs(m, g.n_slots, f)
}

/// Nothing has happened yet.
pub(super) proof fn lemma_at_once(m: Mach, g: Gen, f: Map<u16, Cell>)
    requires
        sums::in_regs(m, g.n_slots, f),
    ensures
        at(m, m, g, f, m.pc),
{
}

pub(super) proof fn lemma_at_on(
    m: Mach,
    m1: Mach,
    m2: Mach,
    g: Gen,
    g1: Gen,
    f: Map<u16, Cell>,
    f2: Map<u16, Cell>,
    pc: int,
    pc2: int,
)
    requires
        g.n_slots == g1.n_slots,
        g.free <= g1.free,
        at(m, m1, g, f, pc),
        at(m1, m2, g1, f2, pc2),
    ensures
        at(m, m2, g, f2, pc2),
{
    assert forall|i: int| m.base + g.n_slots <= i < m.base + g.free implies #[trigger] m2.stack[i]
        == m.stack[i] by {
        assert(m1.stack[i] == m.stack[i]);
    }
}

/// What comes of going on from somewhere.
pub(super) proof fn lemma_arrives_on(
    m: Mach,
    m1: Mach,
    m2: Mach,
    g: Gen,
    g1: Gen,
    f: Map<u16, Cell>,
    a: Ends<Map<u16, Cell>>,
    pc: int,
    pc2: int,
    aim: Aim,
)
    requires
        g.n_slots == g1.n_slots,
        g.free <= g1.free,
        g.loops.len() == g1.loops.len(),
        at(m, m1, g, f, pc),
        arrives(m1, m2, g1, a, pc2, aim),
    ensures
        arrives(m, m2, g, a, pc2, aim),
{
    match a {
        Ends::Done(f2) => lemma_at_on(m, m1, m2, g, g1, f, f2, pc, pc2),
        Ends::Out(Exit::Break, f2) => if g.loops.len() > 0 {
            lemma_at_on(m, m1, m2, g, g1, f, f2, pc, aim.brk as int);
        },
        Ends::Out(Exit::Next(_), f2) => if g.loops.len() > 0 {
            lemma_at_on(m, m1, m2, g, g1, f, f2, pc, aim.cont as int);
        },
        _ => {},
    }
}

/// What comes of the body of a loop, seen from outside the loop.
pub(super) proof fn lemma_loop_left(
    m: Mach,
    m1: Mach,
    m2: Mach,
    g: Gen,
    ge: Gen,
    f: Map<u16, Cell>,
    a: Ends<Map<u16, Cell>>,
    pc: int,
    pc2: int,
    aim: Aim,
)
    requires
        g.n_slots == ge.n_slots,
        g.free <= ge.free,
        ge.loops.len() > 0,
        at(m, m1, g, f, pc),
        arrives(m1, m2, ge, a, pc2, aim),
    ensures
        match a {
            Ends::Done(f2) => at(m, m2, g, f2, pc2),
            Ends::Out(Exit::Break, f2) => at(m, m2, g, f2, aim.brk as int),
            Ends::Out(Exit::Next(_), f2) => at(m, m2, g, f2, aim.cont as int),
            Ends::Out(Exit::Return(v), _) => gives_back(m, m2, v),
            _ => true,
        },
{
    match a {
        Ends::Done(f2) => lemma_at_on(m, m1, m2, g, ge, f, f2, pc, pc2),
        Ends::Out(Exit::Break, f2) => lemma_at_on(m, m1, m2, g, ge, f, f2, pc, aim.brk as int),
        Ends::Out(Exit::Next(_), f2) => lemma_at_on(m, m1, m2, g, ge, f, f2, pc, aim.cont as int),
        _ => {},
    }
}

/// A local has been written.
pub(super) proof fn lemma_at_written(m: Mach, m2: Mach, g: Gen, f: Map<u16, Cell>, slot: u16, c: Cell, pc: int)
    requires
        slot < g.n_slots <= g.free,
        0 <= m.base,
        m.base + g.free <= m.stack.len(),
        sums::in_regs(m, g.n_slots, f),
        sums::went(m, m2, pc),
        m2.stack.len() == m.stack.len(),
        m2.stack[m.base + slot] == sums::cell_val(c),
        forall|i: int|
            0 <= i < m.base + g.free && i != m.base + slot ==> #[trigger] m2.stack[i]
                == m.stack[i],
    ensures
        at(m, m2, g, f.insert(slot, c), pc),
{
    let f2 = f.insert(slot, c);
    assert forall|x: u16| #[trigger] f2.contains_key(x) && x < g.n_slots implies machine::reg(m2, x)
        == sums::cell_val(f2[x]) by {
        if x != slot {
            assert(f.contains_key(x));
            assert(m2.stack[m.base + x] == m.stack[m.base + x]);
            assert(machine::reg(m, x) == sums::cell_val(f[x]));
        }
    }
}

/// A value has been put in a register.
pub open spec fn holds(m: Mach, m2: Mach, free: u16, dst: u16, c: Cell, pc: int) -> bool {
    &&& sums::went(m, m2, pc)
    &&& m2.stack.len() == m.stack.len()
    &&& m2.stack[m.base + dst] == sums::cell_val(c)
    &&& forall|i: int|
        0 <= i < m.base + free && i != m.base + dst ==> #[trigger] m2.stack[i] == m.stack[i]
}

/// The value of a sum or of a test is worked out.
pub(super) proof fn lemma_run_value(
    q: Sums,
    n: nat,
    f: Map<u16, Cell>,
    g: Gen,
    e: Expr,
    dst: u16,
    c: Cell,
    m: Mach,
) -> (k: nat)
    requires
        sums::is_sum(e) || is_test(e),
        sums::ready(m, g, codegen::g_expr(g, e, dst), f),
        dst < g.n_slots || dst + 1 == g.free || (sums::is_flat(e) && dst < g.free),
        match c {
            Cell::Num(x) => meaning::t_expr(q, n, f, e) == Ends::Num(x, f),
            Cell::Flag(x) => meaning::t_cond(q, n, f, e) == Ends::Truth(x, f),
        },
    ensures
        holds(
            m,
            sums::after(q, m, k),
            g.free,
            dst,
            c,
            codegen::g_expr(g, e, dst).code.len() as int,
        ),
{
    reveal(grew);
    let h = codegen::g_expr(g, e, dst);
    let p = machine::cur(m);
    match c {
        Cell::Num(x) => sums::lemma_runs(q, n, f, g, e, dst, m),
        Cell::Flag(x) => match e {
            Expr::Bin(..) => lemma_run_test(q, n, f, g, e, dst, x, m),
            Expr::Bool(b) => {
                lemma_of_atom(g, e, dst);
                lemma_value_came(g, e, dst);
                reveal(codegen::g_emit);
                reveal(codegen::fail);
                if codegen::g_const(g, Val::Bool(b)).0.bad is Some {
                    reveal(codegen::g_const);
                }
                lemma_bool_const(g, b);
                let kk = codegen::g_const(g, Val::Bool(b)).1;
                assert(p.code[m.pc] == Op::Const { dst, k: kk });
                assert(p.consts[kk as int] == Val::Bool(b));
                lemma_put_value(q, m, dst, Val::Bool(b));
                1
            },
            Expr::Local(b, _) => {
                lemma_of_atom(g, e, dst);
                reveal(codegen::g_emit);
                reveal(codegen::g_slot);
                reveal(codegen::fail);
                assert(f.contains_key(b.slot));
                assert(machine::reg(m, b.slot) == Val::Bool(x));
                if b.slot != dst {
                    assert(p.code[m.pc] == Op::Move { dst, src: b.slot });
                    lemma_put_value(q, m, dst, Val::Bool(x));
                    1
                } else {
                    0
                }
            },
            _ => 0,
        },
    }
}

/// A comparison, for its value.
pub(super) proof fn lemma_run_test(
    q: Sums,
    n: nat,
    f: Map<u16, Cell>,
    g: Gen,
    e: Expr,
    dst: u16,
    x: bool,
    m: Mach,
) -> (k: nat)
    requires
        is_test(e),
        e is Bin,
        sums::ready(m, g, codegen::g_expr(g, e, dst), f),
        dst < g.free,
        meaning::t_cond(q, n, f, e) == Ends::Truth(x, f),
    ensures
        holds(
            m,
            sums::after(q, m, k),
            g.free,
            dst,
            Cell::Flag(x),
            codegen::g_expr(g, e, dst).code.len() as int,
        ),
{
    let h = codegen::g_expr(g, e, dst);
    let p = machine::cur(m);
    lemma_of_test(g, e, dst);
    sums::lemma_parts(g, e, dst);
    match e {
        Expr::Bin(op, a, b) => {
            let (g1, ra, g2, c, g3, rb) = sums::binary_parts(g, *a, *b);
            let u = if c is Some {
                g2
            } else {
                g3
            };
            let kind = codegen::kind_of(op)->Some_0;
            lemma_compared(g, *a, *b);
            sums::lemma_sum_is_quiet(*a);
            sums::lemma_sum_is_quiet(*b);
            faithful::lemma_quiet(q, n, f, *a);
            faithful::lemma_quiet(q, n, f, *b);
            assert(sums::has_code(p, g, u)) by {
                assert forall|i: int| g.code.len() <= i < u.code.len() implies #[trigger] p.code[i]
                    == bytecode::specialised(u.code[i]) by {
                    assert(h.code[i] == u.code[i]);
                }
            }
            let k = lemma_run_compared(q, n, f, g, *a, *b, m);
            let m1 = sums::after(q, m, k);
            let y = meaning::t_expr(q, n, f, *a)->Num_0;
            let z = meaning::t_expr(q, n, f, *b)->Num_0;
            lemma_same_comparison(op, y, z);
            let v = Val::Bool(x);
            assert(p.code[m1.pc] == match c {
                Some(c) => Op::BinK { kind, dst, a: ra, k: c },
                None => Op::Bin { kind, dst, a: ra, b: rb },
            });
            assert(machine::step(m1) == (machine::next(machine::put(m1, dst, v)), Out::Run)) by {
                match c {
                    Some(c) => {
                        assert(p.consts[c as int] == Val::Num(z));
                    },
                    None => {},
                }
            }
            lemma_put_value(q, m1, dst, v);
            sums::lemma_after(q, m, k, 1);
            k + 1
        },
        _ => 0,
    }
}

/// A value that leaves a local alone does not depend on it.
pub(super) proof fn lemma_avoids(q: Sums, n: nat, f: Map<u16, Cell>, e: Expr, slot: u16, c: Cell)
    requires
        sums::is_sum(e),
        avoids(e, slot),
    ensures
        meaning::t_expr(q, n, f, e) is Num ==> meaning::t_expr(q, n, f.insert(slot, c), e)
            == Ends::<Map<u16, Cell>>::Num(
            meaning::t_expr(q, n, f, e)->Num_0,
            f.insert(slot, c),
        ),
    decreases e,
{
    sums::lemma_sum_is_quiet(e);
    faithful::lemma_quiet(q, n, f, e);
    match e {
        Expr::Un(_, a) => lemma_avoids(q, n, f, *a, slot, c),
        Expr::Bin(_, a, b) => {
            sums::lemma_sum_is_quiet(*a);
            faithful::lemma_quiet(q, n, f, *a);
            lemma_avoids(q, n, f, *a, slot, c);
            lemma_avoids(q, n, f, *b, slot, c);
        },
        _ => {},
    }
}

proof fn lemma_cond_avoids(q: Sums, n: nat, f: Map<u16, Cell>, e: Expr, slot: u16, c: Cell)
    requires
        is_cond(e, true),
        avoids(e, slot),
    ensures
        meaning::t_cond(q, n, f, e) is Truth ==> meaning::t_cond(q, n, f.insert(slot, c), e)
            == Ends::<Map<u16, Cell>>::Truth(
            meaning::t_cond(q, n, f, e)->Truth_0,
            f.insert(slot, c),
        ),
    decreases e,
{
    lemma_cond_quiet(q, n, f, e, true);
    match e {
        Expr::Bin(op, a, b) => if op == BinOp::And || op == BinOp::Or {
            lemma_flag_is(*a);
            lemma_cond_quiet(q, n, f, *a, true);
            lemma_cond_avoids(q, n, f, *a, slot, c);
            lemma_cond_avoids(q, n, f, *b, slot, c);
        } else {
            sums::lemma_sum_is_quiet(*a);
            faithful::lemma_quiet(q, n, f, *a);
            sums::lemma_sum_is_quiet(*b);
            faithful::lemma_quiet(q, n, f, *b);
            lemma_avoids(q, n, f, *a, slot, c);
            lemma_avoids(q, n, f, *b, slot, c);
        },
        Expr::Un(_, a) => {
            lemma_flag_is(*a);
            lemma_cond_avoids(q, n, f, *a, slot, c);
        },
        _ => {},
    }
}

/// The locals once a flag is in a register that may be a local's.
pub open spec fn with_flag(n_slots: u16, f: Map<u16, Cell>, dst: u16, x: bool) -> Map<u16, Cell> {
    if dst < n_slots {
        f.insert(dst, Cell::Flag(x))
    } else {
        f
    }
}

/// A condition is worked out for its value, in a register it does not read.
#[verifier::spinoff_prover]
#[verifier::rlimit(30)]
pub(super) proof fn lemma_run_flag(
    q: Sums,
    n: nat,
    f: Map<u16, Cell>,
    g: Gen,
    e: Expr,
    dst: u16,
    x: bool,
    m: Mach,
) -> (k: nat)
    requires
        is_cond(e, true),
        sums::ready(m, g, codegen::g_expr(g, e, dst), f),
        dst < g.n_slots || dst + 1 == g.free,
        dst >= g.n_slots || avoids(e, dst) || codegen::in_place(e),
        meaning::t_cond(q, n, f, e) == Ends::Truth(x, f),
    ensures
        holds(
            m,
            sums::after(q, m, k),
            g.free,
            dst,
            Cell::Flag(x),
            codegen::g_expr(g, e, dst).code.len() as int,
        ),
    decreases e, 1int,
{
    match e {
        Expr::Bin(op, a, b) => if op == BinOp::And || op == BinOp::Or {
            lemma_run_logic(q, n, f, g, e, dst, x, m)
        } else {
            lemma_run_value(q, n, f, g, e, dst, Cell::Flag(x), m)
        },
        Expr::Un(_, a) => {
            let h = codegen::g_expr(g, e, dst);
            let g1 = codegen::g_expr(g, *a, dst);
            let p = machine::cur(m);
            lemma_of_not(g, e, dst);
            lemma_flag_is(*a);
            lemma_value_came(g, *a, dst);
            reveal(codegen::g_emit);
            reveal(codegen::g_release);
            reveal(codegen::fail);
            lemma_cond_quiet(q, n, f, *a, true);
            let y = meaning::t_cond(q, n, f, *a)->Truth_0;
            assert(sums::ready(m, g, g1, f)) by {
                assert forall|i: int| g.code.len() <= i < g1.code.len() implies #[trigger] p.code[i]
                    == bytecode::specialised(g1.code[i]) by {
                    assert(h.code[i] == g1.code[i]);
                }
            }
            let k = lemma_run_flag(q, n, f, g, *a, dst, y, m);
            let m1 = sums::after(q, m, k);
            assert(h.code[m1.pc] == Op::Not { dst, a: dst });
            assert(p.code[m1.pc] == Op::Not { dst, a: dst });
            assert(machine::reg(m1, dst) == Val::Bool(y));
            lemma_put_value(q, m1, dst, Val::Bool(x));
            sums::lemma_after(q, m, k, 1);
            k + 1
        },
        _ => lemma_run_value(q, n, f, g, e, dst, Cell::Flag(x), m),
    }
}

/// Where the second part of `a && b` begins, if it is reached.
proof fn lemma_logic_ready(
    f: Map<u16, Cell>,
    g: Gen,
    g1: Gen,
    g2: Gen,
    g3: Gen,
    h: Gen,
    dst: u16,
    x: bool,
    m: Mach,
    m2: Mach,
)
    requires
        sums::ready(m, g, h, f),
        sums::came_to(g, g1),
        sums::came_to(g2, g3),
        sums::fit(g2),
        g3.bad is None,
        g2 == (Gen { code: g2.code, lines: g2.lines, ..g1 }),
        g2.code.len() == g1.code.len() + 1,
        h == (Gen { code: h.code, ..g3 }),
        h.code.len() == g3.code.len(),
        forall|i: int| 0 <= i < g3.code.len() && i != g1.code.len() ==> #[trigger] h.code[i] == g3.code[i],
        dst < g.n_slots || dst + 1 == g.free,
        holds(m, m2, g.free, dst, Cell::Flag(x), g2.code.len() as int),
    ensures
        sums::ready(m2, g2, g3, with_flag(g.n_slots, f, dst, x)),
{
    let p = machine::cur(m);
    assert forall|i: int| g2.code.len() <= i < g3.code.len() implies #[trigger] p.code[i]
        == bytecode::specialised(g3.code[i]) by {
        assert(h.code[i] == g3.code[i]);
    }
    let f2 = with_flag(g.n_slots, f, dst, x);
    assert forall|slot: u16| #[trigger] f2.contains_key(slot) && slot < g2.n_slots implies
        machine::reg(m2, slot) == sums::cell_val(f2[slot]) by {
        if slot != dst {
            assert(f.contains_key(slot));
            assert(machine::reg(m, slot) == sums::cell_val(f[slot]));
            assert(m2.stack[m.base + slot] == m.stack[m.base + slot]);
        }
    }
}

#[verifier::spinoff_prover]
#[verifier::rlimit(30)]
proof fn lemma_run_logic(
    q: Sums,
    n: nat,
    f: Map<u16, Cell>,
    g: Gen,
    e: Expr,
    dst: u16,
    x: bool,
    m: Mach,
) -> (k: nat)
    requires
        is_cond(e, true),
        e matches Expr::Bin(op, _, _) && (op == BinOp::And || op == BinOp::Or),
        sums::ready(m, g, codegen::g_expr(g, e, dst), f),
        dst < g.n_slots || dst + 1 == g.free,
        dst >= g.n_slots || avoids(e, dst),
        meaning::t_cond(q, n, f, e) == Ends::Truth(x, f),
    ensures
        holds(
            m,
            sums::after(q, m, k),
            g.free,
            dst,
            Cell::Flag(x),
            codegen::g_expr(g, e, dst).code.len() as int,
        ),
    decreases e, 0int,
{
    let op = e->Bin_0;
    let a = *e->Bin_1;
    let b = *e->Bin_2;
    let (g1, g2, g3) = logic_parts(g, e, dst);
    let h = codegen::g_expr(g, e, dst);
    let p = machine::cur(m);
    let w = op == BinOp::And;
    lemma_logic_came(g, e, dst);
    lemma_flag_is(a);
    lemma_flag_is(b);
    lemma_cond_quiet(q, n, f, a, true);
    let y = meaning::t_cond(q, n, f, a)->Truth_0;
    let at = g1.code.len() as int;
    let to = codegen::here(g3);
    assert(sums::ready(m, g, g1, f)) by {
        assert forall|i: int| g.code.len() <= i < g1.code.len() implies #[trigger] p.code[i]
            == bytecode::specialised(g1.code[i]) by {
            assert(g2.code[i] == g1.code[i]);
            assert(g3.code[i] == g2.code[i]);
            assert(h.code[i] == g3.code[i]);
        }
        assert forall|i: int| 0 <= i < g1.consts.len() implies #[trigger] p.consts[i]
            == g1.consts[i] by {
            assert(g3.consts[i] == g2.consts[i]);
            assert(h.consts[i] == g3.consts[i]);
        }
    }
    let k = lemma_run_flag(q, n, f, g, a, dst, y, m);
    let m1 = sums::after(q, m, k);
    let jump = if w {
        Op::JumpIfFalse { cond: dst, to }
    } else {
        Op::JumpIfTrue { cond: dst, to }
    };
    assert(g3.code[at] == g2.code[at]);
    assert(h.code[at] == jump);
    assert(p.code[at] == jump);
    lemma_atom_tested(q, m1, dst, y, w, to);
    sums::lemma_after(q, m, k, 1);
    let m2 = sums::after(q, m, k + 1);
    reveal(codegen::here);
    if y == w {
        let f2 = with_flag(g.n_slots, f, dst, y);
        lemma_logic_ready(f, g, g1, g2, g3, h, dst, y, m, m2);
        lemma_cond_quiet(q, n, f, b, true);
        if dst < g.n_slots {
            lemma_cond_avoids(q, n, f, b, dst, Cell::Flag(y));
        }
        let l = lemma_run_flag(q, n, f2, g2, b, dst, x, m2);
        sums::lemma_after(q, m, k + 1, l);
        k + 1 + l
    } else {
        k + 1
    }
}

/// A sum is given back.
#[verifier::spinoff_prover]
pub(super) proof fn lemma_run_returned(
    q: Sums,
    n: nat,
    f: Map<u16, Cell>,
    g: Gen,
    e: Expr,
    x: u64,
    m: Mach,
) -> (k: nat)
    requires
        sums::is_sum(e),
        sums::ready(m, g, returned(g, e), f),
        meaning::t_expr(q, n, f, e) == Ends::Num(x, f),
    ensures
        gives_back(m, sums::after(q, m, k), Some(x)),
{
    let h = returned(g, e);
    let p = machine::cur(m);
    lemma_returned_came(g, e);
    reveal(codegen::g_emit);
    reveal(codegen::g_alloc);
    reveal(codegen::g_release);
    reveal(codegen::g_slot);
    reveal(codegen::fail);
    let (g1, r) = codegen::g_alloc(g);
    if crate::ast::is_call_spec(e) {
        let g2 = codegen::g_call(g1, e, r, MULTI);
        sums::lemma_added_call(g1, e, r, MULTI);
        assert(sums::has_code(p, g1, g2)) by {
            assert forall|i: int| g1.code.len() <= i < g2.code.len() implies #[trigger] p.code[i]
                == bytecode::specialised(g2.code[i]) by {
                assert(h.code[i] == g2.code[i]);
            }
        }
        let k = sums::lemma_runs_all(q, n, f, g1, e, r, m);
        let i = g2.code.len() as int;
        assert(h.code[i] == Op::Ret { base: r, n: MULTI });
        assert(p.code[i] == bytecode::specialised(h.code[i]));
        k
    } else {
        match codegen::plain_reg_of(e) {
            Some(slot) => {
                assert(f.contains_key(slot));
                assert(machine::reg(m, slot) == Val::Num(x));
                assert(p.code[m.pc] == bytecode::specialised(h.code[m.pc]));
                assert(sums::after(q, m, 0) == m);
                0
            },
            None => {
                let g2 = codegen::g_expr(g1, e, r);
                lemma_value_came(g1, e, r);
                assert(sums::has_code(p, g1, g2)) by {
                    assert forall|i: int| g1.code.len() <= i < g2.code.len() implies
                        #[trigger] p.code[i] == bytecode::specialised(g2.code[i]) by {
                        assert(h.code[i] == g2.code[i]);
                    }
                }
                let k = sums::lemma_runs(q, n, f, g1, e, r, m);
                let i = g2.code.len() as int;
                assert(h.code[i] == Op::Ret { base: r, n: 1 });
                assert(p.code[i] == bytecode::specialised(h.code[i]));
                k
            },
        }
    }
}

} // verus!
