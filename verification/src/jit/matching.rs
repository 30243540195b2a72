//! The machine runs a `match`: it comes to the value of the first arm that takes the
//! subject.
use super::meaning;
use super::meaning::{Cell, Ends, Sums};
use super::running;
use super::sums;
use crate::ast::{Arm, Binding, Expr, Pattern};
use crate::bytecode;
use crate::bytecode::{BinKind, Op, ProtoView};
use crate::codegen;
use crate::codegen::Gen;
use crate::machine;
use crate::machine::{Mach, Out};
use crate::value;
use crate::value::Val;
use vstd::prelude::*;

verus! {

// ---- what a match means --------------------------------------------------------------------

/// A value that is worked out at once: a literal, a sum, or a comparison of sums.
pub open spec fn is_simple(e: Expr) -> bool {
    e is Nil || e is Bool || e is Str || (sums::is_sum(e) && sums::is_flat(e)) || running::is_test(e)
}

/// The value of such an expression, if it has one.
pub open spec fn val_of(q: Sums, n: nat, f: Map<u16, Cell>, e: Expr) -> Option<Val> {
    match e {
        Expr::Nil => Some(Val::Nil),
        Expr::Bool(b) => Some(Val::Bool(b)),
        Expr::Str(s) => Some(Val::Str(s@)),
        _ => match (meaning::t_expr(q, n, f, e), meaning::t_cond(q, n, f, e)) {
            (Ends::Num(x, _), _) => Some(Val::Num(x)),
            (_, Ends::Truth(b, _)) => Some(Val::Bool(b)),
            _ => None,
        },
    }
}

/// The locals once a name stands for the subject.
pub open spec fn named(f: Map<u16, Cell>, slot: u16, x: Val) -> Map<u16, Cell> {
    match x {
        Val::Num(b) => f.insert(slot, Cell::Num(b)),
        Val::Bool(b) => f.insert(slot, Cell::Flag(b)),
        _ => f.remove(slot),
    }
}

/// Does a pattern take the subject? A literal takes what equals it.
pub open spec fn takes(q: Sums, n: nat, f: Map<u16, Cell>, p: Pattern, x: Val) -> bool {
    match p {
        Pattern::Wild => true,
        Pattern::Bind(..) => true,
        Pattern::Lit(e) => val_of(q, n, f, e) matches Some(v) && value::same_val(x, v),
    }
}

/// The first pattern from `i` on that takes the subject.
pub open spec fn taker(q: Sums, n: nat, f: Map<u16, Cell>, ps: Seq<Pattern>, x: Val, i: nat) -> Option<nat>
    decreases ps.len() - i,
{
    if i >= ps.len() {
        None
    } else if takes(q, n, f, ps[i as int], x) {
        Some(i)
    } else {
        taker(q, n, f, ps, x, i + 1)
    }
}

/// The locals an arm is looked at with: its name, if that is what takes the subject,
/// stands for it.
pub open spec fn seen(q: Sums, n: nat, f: Map<u16, Cell>, arm: Arm, x: Val) -> Map<u16, Cell> {
    match taker(q, n, f, arm.patterns@, x, 0) {
        Some(i) => match arm.patterns@[i as int] {
            Pattern::Bind(_, Some(b)) => named(f, b.slot, x),
            _ => f,
        },
        None => f,
    }
}

/// Is an arm the one for this subject? One of its patterns takes it, and its guard,
/// if it has one, holds.
pub open spec fn picks(q: Sums, n: nat, f: Map<u16, Cell>, arm: Arm, x: Val) -> bool {
    taker(q, n, f, arm.patterns@, x, 0) is Some && match arm.guard {
        Some(c) => meaning::t_cond(q, n, seen(q, n, f, arm, x), c) matches Ends::Truth(b, _) && b,
        None => true,
    }
}

/// The first arm from `i` on for this subject, and the locals it is run with.
pub open spec fn first(q: Sums, n: nat, f: Map<u16, Cell>, arms: Seq<Arm>, x: Val) -> Option<
    (Arm, Map<u16, Cell>),
>
    decreases arms.len(),
{
    if arms.len() == 0 {
        None
    } else if picks(q, n, f, arms[0], x) {
        Some((arms[0], seen(q, n, f, arms[0], x)))
    } else {
        first(q, n, seen(q, n, f, arms[0], x), arms.drop_first(), x)
    }
}

/// What a match comes to: the value of its first arm for the subject, or nil.
pub open spec fn comes_to(q: Sums, n: nat, f: Map<u16, Cell>, arms: Seq<Arm>, x: Val) -> Option<Val> {
    match first(q, n, f, arms, x) {
        Some((arm, f1)) => val_of(q, n, f1, *arm.body.tail->Some_0),
        None => Some(Val::Nil),
    }
}

/// Every literal and guard that is looked at has a value.
pub open spec fn sound(q: Sums, n: nat, f: Map<u16, Cell>, arms: Seq<Arm>, x: Val) -> bool
    decreases arms.len(),
{
    arms.len() == 0 || {
        let f1 = seen(q, n, f, arms[0], x);
        &&& forall|i: int|
            0 <= i < arms[0].patterns@.len() ==> match #[trigger] arms[0].patterns@[i] {
                Pattern::Lit(e) => val_of(q, n, f, e) is Some,
                _ => true,
            }
        &&& taker(q, n, f, arms[0].patterns@, x, 0) is Some && arms[0].guard is Some
            ==> meaning::t_cond(q, n, f1, arms[0].guard->Some_0) is Truth
        &&& picks(q, n, f, arms[0], x) || sound(q, n, f1, arms.drop_first(), x)
    }
}

/// An arm of simple values.
pub open spec fn is_plain(arm: Arm) -> bool {
    &&& forall|i: int|
        0 <= i < arm.patterns@.len() ==> match #[trigger] arm.patterns@[i] {
            Pattern::Wild => true,
            Pattern::Bind(_, b) => b matches Some(b) && !b.cell,
            Pattern::Lit(e) => is_simple(e),
        }
    &&& arm.guard matches Some(c) ==> running::is_cond(c, true)
    &&& arm.body.stats@.len() == 0
    &&& arm.body.tail matches Some(e) && is_simple(*e)
}

pub open spec fn all_plain(arms: Seq<Arm>) -> bool {
    forall|i: int| 0 <= i < arms.len() ==> is_plain(#[trigger] arms[i])
}

// ---- simple values -------------------------------------------------------------------------

proof fn lemma_of_simple(g: Gen, e: Expr, dst: u16)
    requires
        e is Nil || e is Str,
    ensures
        codegen::g_expr(g, e, dst) == match e {
            Expr::Str(s) => {
                let (g1, k) = codegen::g_const(g, Val::Str(s@));
                codegen::g_emit(g1, Op::Const { dst, k })
            },
            _ => codegen::g_emit(g, Op::Nil { dst }),
        },
{
    reveal(codegen::g_expr);
}

pub(super) proof fn lemma_simple_came(g: Gen, e: Expr, dst: u16)
    requires
        is_simple(e),
    ensures
        running::cond_came(g, codegen::g_expr(g, e, dst), Seq::empty()),
{
    reveal(codegen::g_release);
    let h = codegen::g_expr(g, e, dst);
    if e is Nil || e is Str {
        lemma_of_simple(g, e, dst);
        reveal(codegen::g_emit);
        reveal(codegen::fail);
        match e {
            Expr::Str(s) => {
                if g.bad is Some || codegen::g_const(g, Val::Str(s@)).0.bad is Some {
                    reveal(codegen::g_const);
                }
                if h.bad is None && sums::fit(g) {
                    sums::lemma_text_const(g, s@);
                }
            },
            _ => {},
        }
    } else {
        lemma_test_flat(e);
        running::lemma_value_came(g, e, dst);
        if h.bad is None && sums::fit(g) {
            assert(codegen::g_release(h, g.free) =~= h);
        }
    }
}

proof fn lemma_test_flat(e: Expr)
    requires
        is_simple(e),
        !(e is Nil || e is Str),
    ensures
        sums::is_flat(e),
        sums::is_sum(e) || running::is_cond(e, true),
        sums::is_sum(e) || running::is_test(e),
{
}

/// A value has been put in a register, and those below `free` are otherwise what
/// they were.
pub open spec fn holds(m: Mach, m2: Mach, free: u16, dst: u16, v: Val, pc: int) -> bool {
    &&& sums::went(m, m2, pc)
    &&& m2.stack.len() == m.stack.len()
    &&& m2.stack[m.base + dst] == v
    &&& forall|i: int|
        0 <= i < m.base + free && i != m.base + dst ==> #[trigger] m2.stack[i] == m.stack[i]
}

#[verifier::spinoff_prover]
pub(super) proof fn lemma_run_simple(
    q: Sums,
    n: nat,
    f: Map<u16, Cell>,
    g: Gen,
    e: Expr,
    dst: u16,
    v: Val,
    m: Mach,
) -> (k: nat)
    requires
        is_simple(e),
        sums::ready(m, g, codegen::g_expr(g, e, dst), f),
        dst < g.free,
        val_of(q, n, f, e) == Some(v),
    ensures
        holds(
            m,
            sums::after(q, m, k),
            g.free,
            dst,
            v,
            codegen::g_expr(g, e, dst).code.len() as int,
        ),
{
    let h = codegen::g_expr(g, e, dst);
    let p = machine::cur(m);
    lemma_simple_came(g, e, dst);
    if e is Nil || e is Str {
        lemma_of_simple(g, e, dst);
        reveal(codegen::g_emit);
        reveal(codegen::fail);
        match e {
            Expr::Str(s) => {
                if codegen::g_const(g, Val::Str(s@)).0.bad is Some {
                    reveal(codegen::g_const);
                }
                sums::lemma_text_const(g, s@);
                let (g1, k) = codegen::g_const(g, Val::Str(s@));
                assert(h.code[m.pc] == Op::Const { dst, k });
                assert(p.code[m.pc] == Op::Const { dst, k });
                assert(p.consts[k as int] == Val::Str(s@));
            },
            _ => {
                assert(h.code[m.pc] == Op::Nil { dst });
                assert(p.code[m.pc] == Op::Nil { dst });
            },
        }
        running::lemma_put_value(q, m, dst, v);
        1
    } else {
        lemma_test_flat(e);
        lemma_simple_quiet(q, n, f, e);
        let c = match v {
            Val::Num(x) => Cell::Num(x),
            Val::Bool(b) => Cell::Flag(b),
            _ => Cell::Num(0),
        };
        running::lemma_run_value(q, n, f, g, e, dst, c, m)
    }
}

proof fn lemma_simple_quiet(q: Sums, n: nat, f: Map<u16, Cell>, e: Expr)
    requires
        sums::is_sum(e) || running::is_test(e),
    ensures
        match meaning::t_expr(q, n, f, e) {
            Ends::Num(_, g) => g == f,
            _ => true,
        },
        match meaning::t_cond(q, n, f, e) {
            Ends::Truth(_, g) => g == f,
            _ => true,
        },
{
    super::following::lemma_value_quiet(q, n, f, e);
}

// ---- patterns ------------------------------------------------------------------------------

/// How a literal is tried.
pub open spec fn lit_parts(g: Gen, e: Expr, subj: u16) -> (Gen, u16, Gen, Gen, u16, Gen) {
    let (g1, lit) = codegen::g_alloc(g);
    let ge = codegen::g_expr(g1, e, lit);
    let (g2, test) = codegen::g_alloc(ge);
    let g3 = codegen::g_emit(g2, Op::Bin { kind: BinKind::Eq, dst: test, a: subj, b: lit });
    let g4 = codegen::g_release(codegen::g_emit(g3, Op::JumpIfTrue { cond: test, to: 0 }), g.free);
    (g1, lit, ge, g3, test, g4)
}

proof fn lemma_of_patterns(g: Gen, ps: Seq<Pattern>, subj: u16)
    ensures
        codegen::g_patterns(g, ps, subj) == (if ps.len() == 0 {
            (g, Seq::<usize>::empty(), false)
        } else {
            match ps[0] {
                Pattern::Wild => (g, Seq::<usize>::empty(), true),
                Pattern::Bind(_, Some(b)) => (
                    codegen::g_store_binding(g, b, subj),
                    Seq::<usize>::empty(),
                    true,
                ),
                Pattern::Bind(_, None) => (
                    codegen::fail(g, codegen::Fault::Unresolved),
                    Seq::<usize>::empty(),
                    true,
                ),
                Pattern::Lit(e) => {
                    let (g1, lit, ge, g3, test, g4) = lit_parts(g, e, subj);
                    let (g5, hits, always) = codegen::g_patterns(g4, ps.drop_first(), subj);
                    (g5, seq![g3.code.len() as usize] + hits, always)
                },
            }
        }),
{
    reveal(codegen::g_patterns);
    reveal(codegen::g_expr);
}

/// The steps of trying a literal, each of which went well.
proof fn lemma_lit_came(g: Gen, e: Expr, subj: u16)
    requires
        is_simple(e),
    ensures
        ({
            let (g1, lit, ge, g3, test, g4) = lit_parts(g, e, subj);
            &&& g4.bad is None ==> g.bad is None && ge.bad is None
            &&& g4.bad is None && sums::fit(g) ==> {
                &&& sums::came_to(g, g4)
                &&& sums::fit(g1)
                &&& g1.code == g.code && g1.consts == g.consts && g1.globals == g.globals
                &&& g1.n_slots == g.n_slots
                &&& sums::came_to(g1, ge)
                &&& lit == g.free && test == g.free + 1
                &&& g1.free == lit + 1
                &&& test < g4.max_regs
                &&& ge.max_regs <= g4.max_regs
                &&& ge.consts == g4.consts && ge.globals == g4.globals
                &&& g4.code == ge.code.push(
                    Op::Bin { kind: BinKind::Eq, dst: test, a: subj, b: lit },
                ).push(Op::JumpIfTrue { cond: test, to: 0 })
                &&& g3.code.len() == ge.code.len() + 1
            }
        }),
{
    reveal(codegen::g_alloc);
    reveal(codegen::g_emit);
    reveal(codegen::g_release);
    reveal(codegen::fail);
    let (g1, lit) = codegen::g_alloc(g);
    lemma_simple_came(g1, e, lit);
}

proof fn lemma_patterns_came(g: Gen, ps: Seq<Pattern>, subj: u16)
    requires
        forall|i: int|
            0 <= i < ps.len() ==> match #[trigger] ps[i] {
                Pattern::Wild => true,
                Pattern::Bind(_, b) => b matches Some(b) && !b.cell,
                Pattern::Lit(e) => is_simple(e),
            },
    ensures
        ({
            let (h, hits, always) = codegen::g_patterns(g, ps, subj);
            running::cond_came(g, h, hits)
        }),
    decreases ps.len(),
{
    lemma_of_patterns(g, ps, subj);
    if ps.len() > 0 {
        reveal(codegen::g_store_binding);
        reveal(codegen::g_slot);
        reveal(codegen::g_emit);
        reveal(codegen::fail);
        match ps[0] {
            Pattern::Lit(e) => {
                assert(is_simple(e));
                let rest = ps.drop_first();
                assert forall|i: int| 0 <= i < rest.len() implies match #[trigger] rest[i] {
                    Pattern::Wild => true,
                    Pattern::Bind(_, b) => b matches Some(b) && !b.cell,
                    Pattern::Lit(e) => is_simple(e),
                } by {
                    assert(rest[i] == ps[i + 1]);
                }
                let (g1, lit, ge, g3, test, g4) = lit_parts(g, e, subj);
                lemma_lit_came(g, e, subj);
                lemma_patterns_came(g4, rest, subj);
                let (h, hits, always) = codegen::g_patterns(g4, rest, subj);
                if h.bad is None && sums::fit(g) {
                    let all = seq![g3.code.len() as usize] + hits;
                    assert forall|i: int| 0 <= i < all.len() implies g.code.len()
                        <= #[trigger] all[i] < h.code.len() by {
                        if i > 0 {
                            assert(all[i] == hits[i - 1]);
                        }
                    }
                }
            },
            Pattern::Bind(_, b) => {
                assert(!b->Some_0.cell);
            },
            _ => {},
        }
    }
}

/// What stands before a match: the subject is in a register above the locals.
pub open spec fn at_arms(m: Mach, g: Gen, subj: u16, x: Val) -> bool {
    g.n_slots <= subj < g.free && m.stack[m.base + subj] == x
}

/// A literal is tried.
#[verifier::spinoff_prover]
proof fn lemma_run_lit(
    q: Sums,
    n: nat,
    f: Map<u16, Cell>,
    g: Gen,
    e: Expr,
    subj: u16,
    x: Val,
    t: u32,
    m: Mach,
) -> (k: nat)
    requires
        is_simple(e),
        val_of(q, n, f, e) is Some,
        sums::clean(m),
        m.pc == g.code.len(),
        sums::fit(g),
        sums::in_regs(m, g.n_slots, f),
        at_arms(m, g, subj, x),
        ({
            let (g1, lit, ge, g3, test, g4) = lit_parts(g, e, subj);
            let p = machine::cur(m);
            &&& g4.bad is None
            &&& sums::has_room(m, g4)
            &&& g4.code.len() <= p.code.len()
            &&& forall|i: int|
                g.code.len() <= i < ge.code.len() ==> #[trigger] p.code[i] == bytecode::specialised(
                    ge.code[i],
                )
            &&& p.code[ge.code.len() as int] == (Op::Bin {
                kind: BinKind::Eq,
                dst: test,
                a: subj,
                b: lit,
            })
            &&& p.code[ge.code.len() as int + 1] == (Op::JumpIfTrue { cond: test, to: t })
            &&& running::has_consts(p, ge)
        }),
    ensures
        running::still(
            m,
            sums::after(q, m, k),
            g.free,
            if value::same_val(x, val_of(q, n, f, e)->Some_0) {
                t as int
            } else {
                lit_parts(g, e, subj).5.code.len() as int
            },
        ),
{
    let (g1, lit, ge, g3, test, g4) = lit_parts(g, e, subj);
    let p = machine::cur(m);
    let v = val_of(q, n, f, e)->Some_0;
    lemma_lit_came(g, e, subj);
    assert(sums::ready(m, g1, ge, f));
    let k = lemma_run_simple(q, n, f, g1, e, lit, v, m);
    let m1 = sums::after(q, m, k);
    let same = value::same_val(x, v);
    assert(m1.stack[m.base + subj] == m.stack[m.base + subj]);
    assert(machine::reg(m1, subj) == x);
    assert(machine::reg(m1, lit) == v);
    lemma_eq(m1, test, subj, lit, x, v);
    running::lemma_put_value(q, m1, test, Val::Bool(same));
    let m2 = sums::after(q, m1, 1);
    sums::lemma_after(q, m, k, 1);
    assert(machine::reg(m2, test) == Val::Bool(same));
    running::lemma_atom_tested(q, m2, test, same, false, t);
    sums::lemma_after(q, m, k + 1, 1);
    k + 2
}

/// An instruction that asks whether two values are equal.
proof fn lemma_eq(m: Mach, dst: u16, a: u16, b: u16, x: Val, y: Val)
    requires
        machine::cur(m).code[m.pc] == (Op::Bin { kind: BinKind::Eq, dst, a, b }),
        machine::reg(m, a) == x,
        machine::reg(m, b) == y,
    ensures
        machine::step(m) == (
            machine::next(machine::put(m, dst, Val::Bool(value::same_val(x, y)))),
            Out::Run,
        ),
{
}

/// Trying the patterns of an arm.
#[verifier::spinoff_prover]
proof fn lemma_run_patterns(
    q: Sums,
    n: nat,
    f: Map<u16, Cell>,
    g: Gen,
    ps: Seq<Pattern>,
    i: nat,
    subj: u16,
    x: Val,
    t: u32,
    m: Mach,
) -> (k: nat)
    requires
        i <= ps.len(),
        forall|j: int|
            0 <= j < ps.len() ==> match #[trigger] ps[j] {
                Pattern::Wild => true,
                Pattern::Bind(_, b) => b matches Some(b) && !b.cell,
                Pattern::Lit(e) => is_simple(e) && val_of(q, n, f, e) is Some,
            },
        running::at_cond(
            m,
            g,
            codegen::g_patterns(g, ps.skip(i as int), subj).0,
            codegen::g_patterns(g, ps.skip(i as int), subj).1,
            t,
            f,
        ),
        at_arms(m, g, subj, x),
    ensures
        ({
            let (h, hits, always) = codegen::g_patterns(g, ps.skip(i as int), subj);
            let m2 = sums::after(q, m, k);
            match taker(q, n, f, ps, x, i) {
                Some(j) => match ps[j as int] {
                    Pattern::Lit(_) => running::still(m, m2, g.free, t as int),
                    Pattern::Bind(_, Some(b)) => always && b.slot < g.n_slots && running::at(
                        m,
                        m2,
                        g,
                        named(f, b.slot, x),
                        h.code.len() as int,
                    ),
                    _ => always && running::still(m, m2, g.free, h.code.len() as int),
                },
                None => !always && running::still(m, m2, g.free, h.code.len() as int),
            }
        }),
    decreases ps.len() - i,
{
    let rest = ps.skip(i as int);
    let (h, hits, always) = codegen::g_patterns(g, rest, subj);
    let p = machine::cur(m);
    lemma_of_patterns(g, rest, subj);
    assert forall|j: int| 0 <= j < rest.len() implies match #[trigger] rest[j] {
        Pattern::Wild => true,
        Pattern::Bind(_, b) => b matches Some(b) && !b.cell,
        Pattern::Lit(e) => is_simple(e),
    } by {
        assert(rest[j] == ps[j + i]);
    }
    reveal(running::has_cond);
    if i == ps.len() {
        0
    } else {
        assert(rest[0] == ps[i as int]);
        match ps[i as int] {
            Pattern::Wild => 0,
            Pattern::Bind(_, b) => {
                let b = b->Some_0;
                lemma_run_bind(q, f, g, b, subj, x, m)
            },
            Pattern::Lit(e) => {
                assert(rest.drop_first() =~= ps.skip(i as int + 1));
                let tail = ps.skip(i as int + 1);
                let (g1, lit, ge, g3, test, g4) = lit_parts(g, e, subj);
                let (h4, more, _) = codegen::g_patterns(g4, tail, subj);
                assert(h4 == h);
                lemma_patterns_came(g, rest, subj);
                assert forall|j: int| 0 <= j < tail.len() implies match #[trigger] tail[j] {
                    Pattern::Wild => true,
                    Pattern::Bind(_, b) => b matches Some(b) && !b.cell,
                    Pattern::Lit(e) => is_simple(e),
                } by {
                    assert(tail[j] == ps[j + i + 1]);
                }
                lemma_patterns_came(g4, tail, subj);
                lemma_lit_came(g, e, subj);
                lemma_lit_in_place(p, g, e, subj, h, more, t);
                let k = lemma_run_lit(q, n, f, g, e, subj, x, t, m);
                let m1 = sums::after(q, m, k);
                if value::same_val(x, val_of(q, n, f, e)->Some_0) {
                    k
                } else {
                    assert(sums::in_regs(m1, g4.n_slots, f)) by {
                        assert forall|slot: u16| #[trigger] f.contains_key(slot) && slot
                            < g4.n_slots implies machine::reg(m1, slot) == sums::cell_val(f[slot]) by {
                            assert(machine::reg(m, slot) == sums::cell_val(f[slot]));
                            assert(m1.stack[m.base + slot] == m.stack[m.base + slot]);
                        }
                    }
                    assert(m1.stack[m.base + subj] == m.stack[m.base + subj]);
                    let l = lemma_run_patterns(q, n, f, g4, ps, i + 1, subj, x, t, m1);
                    sums::lemma_after(q, m, k, l);
                    let m2 = sums::after(q, m, k + l);
                    match taker(q, n, f, ps, x, i + 1) {
                        Some(j) => match ps[j as int] {
                            Pattern::Bind(_, Some(b)) => {
                                let f2 = named(f, b.slot, x);
                                lemma_at_after_still(m, m1, m2, g, g4, f2, h.code.len() as int);
                            },
                            _ => {},
                        },
                        None => {},
                    }
                    k + l
                }
            },
        }
    }
}

proof fn lemma_at_after_still(
    m: Mach,
    m1: Mach,
    m2: Mach,
    g: Gen,
    g4: Gen,
    f2: Map<u16, Cell>,
    pc: int,
)
    requires
        running::still(m, m1, g.free, m1.pc),
        running::at(m1, m2, g4, f2, pc),
        g4.free == g.free,
        g4.n_slots == g.n_slots,
        0 <= m.base,
    ensures
        running::at(m, m2, g, f2, pc),
{
    assert forall|i: int| m.base + g.n_slots <= i < m.base + g.free implies #[trigger] m2.stack[i]
        == m.stack[i] by {
        assert(m2.stack[i] == m1.stack[i]);
    }
    assert forall|i: int| 0 <= i < m.base implies #[trigger] m2.stack[i] == m.stack[i] by {
        assert(m2.stack[i] == m1.stack[i]);
    }
}

/// The code of a literal that is tried, in place.
proof fn lemma_lit_in_place(
    p: ProtoView,
    g: Gen,
    e: Expr,
    subj: u16,
    h: Gen,
    more: Seq<usize>,
    t: u32,
)
    requires
        is_simple(e),
        sums::fit(g),
        h.bad is None,
        ({
            let (g1, lit, ge, g3, test, g4) = lit_parts(g, e, subj);
            &&& g4.bad is None
            &&& sums::came_to(g4, h)
            &&& running::all_within(more, g4.code.len(), h.code.len())
            &&& running::has_cond(p, g, h, seq![g3.code.len() as usize] + more, t)
        }),
    ensures
        ({
            let (g1, lit, ge, g3, test, g4) = lit_parts(g, e, subj);
            &&& g4.code.len() <= p.code.len()
            &&& forall|i: int|
                g.code.len() <= i < ge.code.len() ==> #[trigger] p.code[i] == bytecode::specialised(
                    ge.code[i],
                )
            &&& p.code[ge.code.len() as int] == (Op::Bin {
                kind: BinKind::Eq,
                dst: test,
                a: subj,
                b: lit,
            })
            &&& p.code[ge.code.len() as int + 1] == (Op::JumpIfTrue { cond: test, to: t })
            &&& running::has_consts(p, ge)
            &&& running::has_cond(p, g4, h, more, t)
        }),
{
    reveal(running::has_cond);
    let (g1, lit, ge, g3, test, g4) = lit_parts(g, e, subj);
    lemma_lit_came(g, e, subj);
    let at = g3.code.len() as usize;
    let all = seq![at] + more;
    assert(all[0] == at);
    assert forall|i: int| g4.code.len() <= i < h.code.len() implies all.contains(i as usize)
        == #[trigger] more.contains(i as usize) by {
        if all.contains(i as usize) {
            let j = choose|j: int| 0 <= j < all.len() && all[j] == i as usize;
            assert(j > 0);
            assert(more[j - 1] == i as usize);
        }
        if more.contains(i as usize) {
            let j = choose|j: int| 0 <= j < more.len() && more[j] == i as usize;
            assert(all[j + 1] == i as usize);
        }
    }
    assert forall|i: int| g4.code.len() <= i < h.code.len() implies #[trigger] p.code[i]
        == bytecode::specialised(
        if more.contains(i as usize) {
            codegen::retarget(h.code[i], t)
        } else {
            h.code[i]
        },
    ) by {
        assert(all.contains(i as usize) == more.contains(i as usize));
    }
    assert forall|i: int| g.code.len() <= i < g4.code.len() implies #[trigger] all.contains(
        i as usize,
    ) == (i == at) by {
        if all.contains(i as usize) {
            let j = choose|j: int| 0 <= j < all.len() && all[j] == i as usize;
            if j > 0 {
                assert(more[j - 1] == i as usize);
            }
        }
    }
    assert forall|i: int| g.code.len() <= i < ge.code.len() implies #[trigger] p.code[i]
        == bytecode::specialised(ge.code[i]) by {
        assert(h.code[i] == g4.code[i]);
        assert(g4.code[i] == ge.code[i]);
        assert(!all.contains(i as usize));
    }
    let a = ge.code.len() as int;
    assert(h.code[a] == g4.code[a]);
    assert(!all.contains(a as usize));
    assert(h.code[a + 1] == g4.code[a + 1]);
    assert(all.contains((a + 1) as usize));
    assert forall|i: int| 0 <= i < ge.consts.len() implies #[trigger] p.consts[i] == ge.consts[i] by {
        assert(h.consts[i] == g4.consts[i]);
    }
}

/// A name comes to stand for the subject.
proof fn lemma_run_bind(q: Sums, f: Map<u16, Cell>, g: Gen, b: Binding, subj: u16, x: Val, m: Mach) -> (k:
    nat)
    requires
        !b.cell,
        sums::clean(m),
        m.pc == g.code.len(),
        sums::fit(g),
        sums::in_regs(m, g.n_slots, f),
        at_arms(m, g, subj, x),
        codegen::g_store_binding(g, b, subj).bad is None,
        sums::has_room(m, codegen::g_store_binding(g, b, subj)),
        g.code.len() < codegen::g_store_binding(g, b, subj).code.len() ==> machine::cur(
            m,
        ).code[g.code.len() as int] == bytecode::specialised(
            codegen::g_store_binding(g, b, subj).code[g.code.len() as int],
        ),
    ensures
        b.slot < g.n_slots,
        running::at(
            m,
            sums::after(q, m, k),
            g,
            named(f, b.slot, x),
            codegen::g_store_binding(g, b, subj).code.len() as int,
        ),
{
    reveal(codegen::g_store_binding);
    reveal(codegen::g_slot);
    reveal(codegen::g_emit);
    reveal(codegen::fail);
    let h = codegen::g_store_binding(g, b, subj);
    assert(h.code == g.code.push(Op::Move { dst: b.slot, src: subj }));
    running::lemma_put_value(q, m, b.slot, x);
    let m2 = sums::after(q, m, 1);
    let f2 = named(f, b.slot, x);
    assert forall|slot: u16| #[trigger] f2.contains_key(slot) && slot < g.n_slots implies machine::reg(
        m2,
        slot,
    ) == sums::cell_val(f2[slot]) by {
        if slot != b.slot {
            assert(f.contains_key(slot));
            assert(machine::reg(m, slot) == sums::cell_val(f[slot]));
        }
    }
    1
}

// ---- arms ----------------------------------------------------------------------------------

/// How an arm is compiled: its patterns, the jump past them, its guard, its value and
/// the jump to the end.
pub open spec fn arm_parts(g: Gen, arm: Arm, subj: u16, d: u16) -> (
    Gen,
    Seq<usize>,
    bool,
    Gen,
    Seq<usize>,
    Gen,
    Gen,
    Seq<usize>,
    Gen,
    Gen,
) {
    let (g1, hits, always) = codegen::g_patterns(g, arm.patterns@, subj);
    let (g2, misses) = if always {
        (g1, Seq::<usize>::empty())
    } else {
        (codegen::g_emit(g1, Op::Jump { to: 0 }), seq![g1.code.len() as usize])
    };
    let g3 = codegen::g_patch_all(g2, hits);
    let (g4, more) = match arm.guard {
        Some(guard) => codegen::g_cond(g3, guard, true),
        None => (g3, Seq::<usize>::empty()),
    };
    let g5 = codegen::g_block(g4, arm.body, Some(d));
    let g6 = codegen::g_patch_all(codegen::g_emit(g5, Op::Jump { to: 0 }), misses + more);
    (g1, hits, always, g2, misses, g3, g4, more, g5, g6)
}

proof fn lemma_of_arms(g: Gen, arms: Seq<Arm>, subj: u16, d: u16)
    ensures
        codegen::g_match_arms(g, arms, subj, Some(d)) == (if arms.len() == 0 {
            (g, Seq::<usize>::empty())
        } else {
            let (g1, hits, always, g2, misses, g3, g4, more, g5, g6) = arm_parts(
                g,
                arms[0],
                subj,
                d,
            );
            let (g7, ends) = codegen::g_match_arms(g6, arms.drop_first(), subj, Some(d));
            (g7, seq![g5.code.len() as usize] + ends)
        }),
{
    reveal(codegen::g_match_arms);
    reveal(codegen::g_patterns);
    reveal(codegen::g_cond);
    reveal(codegen::g_block);
}

/// The value of an arm is worked out where the match's value goes.
proof fn lemma_of_body(g: Gen, arm: Arm, d: u16)
    requires
        is_plain(arm),
    ensures
        ({
            let g1 = codegen::g_tail_line(g, arm.body.tail_line);
            &&& codegen::g_block(g, arm.body, Some(d)) == codegen::g_expr(
                g1,
                *arm.body.tail->Some_0,
                d,
            )
            &&& g1 == Gen { line: g1.line, ..g }
        }),
{
    reveal(codegen::g_block);
    reveal(codegen::g_stats);
    reveal(codegen::g_expr);
    reveal(codegen::g_tail_line);
}

/// The steps of an arm, each of which went well.
#[verifier::spinoff_prover]
proof fn lemma_arm_came(g: Gen, arm: Arm, subj: u16, d: u16)
    requires
        is_plain(arm),
    ensures
        ({
            let (g1, hits, always, g2, misses, g3, g4, more, g5, g6) = arm_parts(g, arm, subj, d);
            &&& g6.bad is None ==> g.bad is None
            &&& g6.bad is None && sums::fit(g) ==> {
                &&& g1.bad is None && g2.bad is None && g3.bad is None && g4.bad is None
                &&& g5.bad is None
                &&& sums::came_to(g, g1)
                &&& running::all_within(hits, g.code.len(), g1.code.len())
                &&& g2.code.len() == if always {
                    g1.code.len()
                } else {
                    g1.code.len() + 1
                }
                &&& !always ==> g2.code == g1.code.push(Op::Jump { to: 0 })
                &&& always ==> g2 == g1
                &&& g2.consts == g1.consts && g2.globals == g1.globals && g2.max_regs == g1.max_regs
                &&& g3 == Gen { code: g3.code, ..g2 }
                &&& g3.code.len() == g2.code.len()
                &&& forall|i: int|
                    0 <= i < g2.code.len() ==> #[trigger] g3.code[i] == if hits.contains(i as usize) {
                        codegen::retarget(g2.code[i], g2.code.len() as u32)
                    } else {
                        g2.code[i]
                    }
                &&& sums::fit(g3)
                &&& g3.free == g.free && g3.n_slots == g.n_slots
                &&& sums::came_to(g3, g4)
                &&& running::all_within(more, g3.code.len(), g4.code.len())
                &&& sums::came_to(g4, g5)
                &&& g6 == Gen { code: g6.code, lines: g6.lines, ..g5 }
                &&& g6.code.len() == g5.code.len() + 1
                &&& g6.code[g5.code.len() as int] == (Op::Jump { to: 0 })
                &&& forall|i: int|
                    0 <= i < g5.code.len() ==> #[trigger] g6.code[i] == if (misses
                        + more).contains(i as usize) {
                        codegen::retarget(g5.code[i], g6.code.len() as u32)
                    } else {
                        g5.code[i]
                    }
                &&& running::all_within(misses, g1.code.len(), g2.code.len())
                &&& sums::came_to(g, g6)
            }
        }),
{
    let (g1, hits, always, g2, misses, g3, g4, more, g5, g6) = arm_parts(g, arm, subj, d);
    reveal(codegen::g_emit);
    reveal(codegen::g_patch_all);
    reveal(codegen::here);
    reveal(codegen::fail);
    lemma_patterns_came(g, arm.patterns@, subj);
    running::lemma_patch_keeps(g2, hits, codegen::here(g2));
    match arm.guard {
        Some(c) => running::lemma_cond_came(g3, c, true),
        None => {},
    }
    lemma_of_body(g4, arm, d);
    let gt = codegen::g_tail_line(g4, arm.body.tail_line);
    lemma_simple_came(gt, *arm.body.tail->Some_0, d);
    let ge = codegen::g_emit(g5, Op::Jump { to: 0 });
    running::lemma_patch_keeps(ge, misses + more, codegen::here(ge));
    if g6.bad is None && sums::fit(g) {
        running::lemma_patched(g2, hits, codegen::here(g2));
        running::lemma_within(hits, g.code.len(), g1.code.len());
        running::lemma_patched(ge, misses + more, codegen::here(ge));
        lemma_joined_within(misses, more, g1.code.len(), g4.code.len());
        assert(sums::came_to(g, g3));
        assert(sums::came_to(g4, g5));
        let all = misses + more;
        assert(!all.contains(g5.code.len() as usize));
        assert forall|i: int| 0 <= i < g.code.len() implies g.code[i] == #[trigger] g6.code[i] by {
            assert(g3.code[i] == g.code[i]);
            assert(g4.code[i] == g3.code[i]);
            assert(g5.code[i] == g4.code[i]);
            assert(!all.contains(i as usize));
        }
    }
}

proof fn lemma_joined_within(a: Seq<usize>, b: Seq<usize>, from: nat, to: nat)
    requires
        running::all_within(a, from, to),
        running::all_within(b, from, to),
    ensures
        forall|x: usize| #[trigger] (a + b).contains(x) ==> from <= x < to,
        forall|x: usize| #[trigger] (a + b).contains(x) <==> a.contains(x) || b.contains(x),
{
    let all = a + b;
    assert forall|x: usize| #[trigger] all.contains(x) implies from <= x < to && (a.contains(x)
        || b.contains(x)) by {
        let j = choose|j: int| 0 <= j < all.len() && all[j] == x;
        if j < a.len() {
            assert(a[j] == x);
        } else {
            assert(b[j - a.len()] == x);
        }
    }
    assert forall|x: usize| a.contains(x) || b.contains(x) implies #[trigger] all.contains(x) by {
        if a.contains(x) {
            let j = choose|j: int| 0 <= j < a.len() && a[j] == x;
            assert(all[j] == x);
        } else {
            let j = choose|j: int| 0 <= j < b.len() && b[j] == x;
            assert(all[a.len() + j] == x);
        }
    }
}

proof fn lemma_arms_came(g: Gen, arms: Seq<Arm>, subj: u16, d: u16)
    requires
        all_plain(arms),
    ensures
        ({
            let (h, ends) = codegen::g_match_arms(g, arms, subj, Some(d));
            running::cond_came(g, h, ends)
        }),
    decreases arms.len(),
{
    lemma_of_arms(g, arms, subj, d);
    if arms.len() > 0 {
        let (g1, hits, always, g2, misses, g3, g4, more, g5, g6) = arm_parts(g, arms[0], subj, d);
        let rest = arms.drop_first();
        assert(is_plain(arms[0]));
        assert forall|i: int| 0 <= i < rest.len() implies is_plain(#[trigger] rest[i]) by {
            assert(rest[i] == arms[i + 1]);
        }
        lemma_arm_came(g, arms[0], subj, d);
        lemma_arms_came(g6, rest, subj, d);
        let (h, ends) = codegen::g_match_arms(g6, rest, subj, Some(d));
        if h.bad is None && sums::fit(g) {
            let all = seq![g5.code.len() as usize] + ends;
            assert forall|i: int| 0 <= i < all.len() implies g.code.len() <= #[trigger] all[i]
                < h.code.len() by {
                if i > 0 {
                    assert(all[i] == ends[i - 1]);
                }
            }
        }
    }
}

/// The code of an arm, in place.
#[verifier::spinoff_prover]
proof fn lemma_arm_in_place(
    p: ProtoView,
    g: Gen,
    arm: Arm,
    subj: u16,
    d: u16,
    h: Gen,
    ends: Seq<usize>,
    end: u32,
)
    requires
        is_plain(arm),
        sums::fit(g),
        h.bad is None,
        ({
            let (g1, hits, always, g2, misses, g3, g4, more, g5, g6) = arm_parts(g, arm, subj, d);
            &&& g6.bad is None
            &&& sums::came_to(g6, h)
            &&& running::all_within(ends, g6.code.len(), h.code.len())
            &&& running::has_cond(p, g, h, seq![g5.code.len() as usize] + ends, end)
        }),
    ensures
        ({
            let (g1, hits, always, g2, misses, g3, g4, more, g5, g6) = arm_parts(g, arm, subj, d);
            let next = g6.code.len() as u32;
            &&& running::has_cond(p, g, g1, hits, g2.code.len() as u32)
            &&& !always ==> p.code[g1.code.len() as int] == (Op::Jump { to: next })
            &&& running::has_cond(p, g3, g4, more, next)
            &&& sums::has_code(p, g4, g5)
            &&& p.code[g5.code.len() as int] == (Op::Jump { to: end })
            &&& running::has_cond(p, g6, h, ends, end)
        }),
{
    reveal(running::has_cond);
    let (g1, hits, always, g2, misses, g3, g4, more, g5, g6) = arm_parts(g, arm, subj, d);
    lemma_arm_came(g, arm, subj, d);
    let next = g6.code.len() as u32;
    let at = g5.code.len() as usize;
    let all = seq![at] + ends;
    lemma_joined_within(seq![at], ends, g5.code.len(), h.code.len());
    lemma_joined_within(misses, more, g1.code.len(), g4.code.len());
    running::lemma_within(hits, g.code.len(), g1.code.len());
    running::lemma_within(ends, g6.code.len(), h.code.len());
    running::lemma_within(more, g3.code.len(), g4.code.len());
    running::lemma_within(misses, g1.code.len(), g2.code.len());
    assert(seq![at][0] == at);
    assert forall|i: int| 0 <= i < g6.code.len() implies g6.code[i] == #[trigger] h.code[i] by {}
    assert forall|i: int| g.code.len() <= i < g1.code.len() implies #[trigger] p.code[i]
        == bytecode::specialised(
        if hits.contains(i as usize) {
            codegen::retarget(g1.code[i], g2.code.len() as u32)
        } else {
            g1.code[i]
        },
    ) by {
        assert(!all.contains(i as usize));
        assert(h.code[i] == g6.code[i]);
        assert(!(misses + more).contains(i as usize));
        assert(g5.code[i] == g4.code[i]);
        assert(g4.code[i] == g3.code[i]);
        assert(g2.code[i] == g1.code[i]);
    }
    if !always {
        let i = g1.code.len() as int;
        assert(misses[0] == i as usize);
        assert(misses.contains(i as usize));
        assert(!all.contains(i as usize));
        assert(h.code[i] == g6.code[i]);
        assert((misses + more).contains(i as usize));
        assert(g5.code[i] == g4.code[i]);
        assert(g4.code[i] == g3.code[i]);
        assert(!hits.contains(i as usize));
        assert(g2.code[i] == Op::Jump { to: 0 });
    }
    assert forall|i: int| g3.code.len() <= i < g4.code.len() implies #[trigger] p.code[i]
        == bytecode::specialised(
        if more.contains(i as usize) {
            codegen::retarget(g4.code[i], next)
        } else {
            g4.code[i]
        },
    ) by {
        assert(!all.contains(i as usize));
        assert(h.code[i] == g6.code[i]);
        assert(!misses.contains(i as usize));
        assert((misses + more).contains(i as usize) == more.contains(i as usize));
        assert(g5.code[i] == g4.code[i]);
    }
    assert forall|i: int| g4.code.len() <= i < g5.code.len() implies #[trigger] p.code[i]
        == bytecode::specialised(g5.code[i]) by {
        assert(!all.contains(i as usize));
        assert(h.code[i] == g6.code[i]);
        assert(!(misses + more).contains(i as usize));
    }
    assert(all.contains(at));
    assert(h.code[at as int] == g6.code[at as int]);
    assert forall|i: int| g6.code.len() <= i < h.code.len() implies #[trigger] p.code[i]
        == bytecode::specialised(
        if ends.contains(i as usize) {
            codegen::retarget(h.code[i], end)
        } else {
            h.code[i]
        },
    ) by {
        assert(!seq![at].contains(i as usize));
        assert(all.contains(i as usize) == ends.contains(i as usize));
    }
    assert forall|i: int| 0 <= i < g5.consts.len() implies #[trigger] p.consts[i] == g5.consts[i] by {
        assert(h.consts[i] == g6.consts[i]);
    }
    assert forall|i: int| 0 <= i < g4.consts.len() implies #[trigger] p.consts[i] == g4.consts[i] by {
        assert(g5.consts[i] == g4.consts[i]);
    }
    assert forall|i: int| 0 <= i < g1.consts.len() implies #[trigger] p.consts[i] == g1.consts[i] by {
        assert(g4.consts[i] == g3.consts[i]);
    }
}

/// The machine has come to the end of a match with this value.
pub open spec fn settled(m: Mach, m2: Mach, g: Gen, f: Map<u16, Cell>, d: u16, v: Val, pc: int) -> bool {
    &&& m2 == Mach { stack: m2.stack, ticks: m2.ticks, line: m2.line, pc, ..m }
    &&& m2.stack.len() == m.stack.len()
    &&& m2.stack[m.base + d] == v
    &&& sums::in_regs(m2, g.n_slots, f.remove(d))
    &&& forall|i: int|
        m.base + g.n_slots <= i < m.base + g.free && i != m.base + d ==> #[trigger] m2.stack[i]
            == m.stack[i]
    &&& forall|i: int| 0 <= i < m.base ==> #[trigger] m2.stack[i] == m.stack[i]
}

/// A jump.
proof fn lemma_jump(q: Sums, m: Mach, to: u32)
    requires
        sums::clean(m),
        machine::cur(m).code[m.pc] == (Op::Jump { to }),
    ensures
        sums::after(q, m, 1) == sums::moved(m, m.stack, to as int),
{
    sums::lemma_after_one(q, m);
    reveal(sums::served);
    assert(sums::after(q, m, 1) =~= sums::moved(m, m.stack, to as int));
}

/// The locals are where they were.
proof fn lemma_still_in(m: Mach, m2: Mach, g: Gen, f: Map<u16, Cell>, pc: int)
    requires
        running::still(m, m2, g.free, pc),
        sums::in_regs(m, g.n_slots, f),
        g.n_slots <= g.free,
        0 <= m.base,
    ensures
        running::at(m, m2, g, f, pc),
{
    assert forall|slot: u16| #[trigger] f.contains_key(slot) && slot < g.n_slots implies machine::reg(
        m2,
        slot,
    ) == sums::cell_val(f[slot]) by {
        assert(machine::reg(m, slot) == sums::cell_val(f[slot]));
        assert(m2.stack[m.base + slot] == m.stack[m.base + slot]);
    }
}

/// The patterns of an arm have been tried: the machine stands before its guard, or,
/// where none took the subject, before the next arm.
#[verifier::spinoff_prover]
proof fn lemma_try_arm(
    q: Sums,
    n: nat,
    f: Map<u16, Cell>,
    g: Gen,
    arm: Arm,
    subj: u16,
    d: u16,
    x: Val,
    h: Gen,
    m: Mach,
) -> (k: nat)
    requires
        is_plain(arm),
        forall|i: int|
            0 <= i < arm.patterns@.len() ==> match #[trigger] arm.patterns@[i] {
                Pattern::Lit(e) => val_of(q, n, f, e) is Some,
                _ => true,
            },
        sums::clean(m),
        m.pc == g.code.len(),
        sums::fit(g),
        sums::in_regs(m, g.n_slots, f),
        at_arms(m, g, subj, x),
        sums::has_room(m, h),
        ({
            let (g1, hits, always, g2, misses, g3, g4, more, g5, g6) = arm_parts(g, arm, subj, d);
            let p = machine::cur(m);
            &&& g6.bad is None
            &&& g6.max_regs <= h.max_regs
            &&& running::has_cond(p, g, g1, hits, g2.code.len() as u32)
            &&& !always ==> p.code[g1.code.len() as int] == (Op::Jump {
                to: g6.code.len() as u32,
            })
        }),
    ensures
        ({
            let (g1, hits, always, g2, misses, g3, g4, more, g5, g6) = arm_parts(g, arm, subj, d);
            running::at(
                m,
                sums::after(q, m, k),
                g,
                seen(q, n, f, arm, x),
                if taker(q, n, f, arm.patterns@, x, 0) is Some {
                    g3.code.len() as int
                } else {
                    g6.code.len() as int
                },
            )
        }),
{
    let (g1, hits, always, g2, misses, g3, g4, more, g5, g6) = arm_parts(g, arm, subj, d);
    let ps = arm.patterns@;
    lemma_arm_came(g, arm, subj, d);
    assert(ps.skip(0) =~= ps);
    let t = g2.code.len() as u32;
    assert(sums::has_room(m, g1));
    assert(running::at_cond(m, g, g1, hits, t, f));
    let k = lemma_run_patterns(q, n, f, g, ps, 0, subj, x, t, m);
    let m1 = sums::after(q, m, k);
    lemma_taker(q, n, f, ps, x, 0);
    match taker(q, n, f, ps, x, 0) {
        Some(j) => match ps[j as int] {
            Pattern::Bind(_, Some(b)) => k,
            _ => {
                lemma_still_in(m, m1, g, f, g3.code.len() as int);
                k
            },
        },
        None => {
            lemma_jump(q, m1, g6.code.len() as u32);
            sums::lemma_after(q, m, k, 1);
            lemma_still_in(m, sums::after(q, m, k + 1), g, f, g6.code.len() as int);
            k + 1
        },
    }
}

/// A taker takes the subject, and nothing before it does.
pub proof fn lemma_taker(q: Sums, n: nat, f: Map<u16, Cell>, ps: Seq<Pattern>, x: Val, i: nat)
    ensures
        match taker(q, n, f, ps, x, i) {
            Some(j) => i <= j < ps.len() && takes(q, n, f, ps[j as int], x) && forall|k: int|
                i <= k < j ==> !takes(q, n, f, #[trigger] ps[k], x),
            None => forall|k: int| i <= k < ps.len() ==> !takes(q, n, f, #[trigger] ps[k], x),
        },
    decreases ps.len() - i,
{
    if i < ps.len() && !takes(q, n, f, ps[i as int], x) {
        lemma_taker(q, n, f, ps, x, i + 1);
    }
}

/// The value of the arm that is taken, and on to the end.
#[verifier::spinoff_prover]
proof fn lemma_take_arm(
    q: Sums,
    n: nat,
    f1: Map<u16, Cell>,
    g: Gen,
    arm: Arm,
    subj: u16,
    d: u16,
    v: Val,
    h: Gen,
    end: u32,
    m: Mach,
    m1: Mach,
) -> (k: nat)
    requires
        is_plain(arm),
        val_of(q, n, f1, *arm.body.tail->Some_0) == Some(v),
        sums::clean(m),
        sums::fit(g),
        d < g.free,
        sums::has_room(m, h),
        ({
            let (g1, hits, always, g2, misses, g3, g4, more, g5, g6) = arm_parts(g, arm, subj, d);
            let p = machine::cur(m);
            &&& g6.bad is None
            &&& g6.max_regs <= h.max_regs
            &&& sums::has_code(p, g4, g5)
            &&& p.code[g5.code.len() as int] == (Op::Jump { to: end })
            &&& running::at(m, m1, g, f1, g4.code.len() as int)
        }),
    ensures
        settled(m, sums::after(q, m1, k), g, f1, d, v, end as int),
{
    let (g1, hits, always, g2, misses, g3, g4, more, g5, g6) = arm_parts(g, arm, subj, d);
    lemma_arm_came(g, arm, subj, d);
    lemma_of_body(g4, arm, d);
    let gt = codegen::g_tail_line(g4, arm.body.tail_line);
    let e = *arm.body.tail->Some_0;
    assert(sums::ready(m1, gt, g5, f1));
    let j = lemma_run_simple(q, n, f1, gt, e, d, v, m1);
    let m2 = sums::after(q, m1, j);
    lemma_jump(q, m2, end);
    sums::lemma_after(q, m1, j, 1);
    let m3 = sums::after(q, m1, j + 1);
    let f3 = f1.remove(d);
    assert forall|slot: u16| #[trigger] f3.contains_key(slot) && slot < g.n_slots implies machine::reg(
        m3,
        slot,
    ) == sums::cell_val(f3[slot]) by {
        assert(f1.contains_key(slot));
        assert(machine::reg(m1, slot) == sums::cell_val(f1[slot]));
        assert(m2.stack[m1.base + slot] == m1.stack[m1.base + slot]);
    }
    assert forall|i: int|
        m.base + g.n_slots <= i < m.base + g.free && i != m.base + d implies #[trigger] m3.stack[i]
        == m.stack[i] by {
        assert(m2.stack[i] == m1.stack[i]);
    }
    assert forall|i: int| 0 <= i < m.base implies #[trigger] m3.stack[i] == m.stack[i] by {
        assert(m2.stack[i] == m1.stack[i]);
    }
    j + 1
}

/// The arms of a match, one after the other.
#[verifier::spinoff_prover]
proof fn lemma_run_arms(
    q: Sums,
    n: nat,
    f: Map<u16, Cell>,
    g: Gen,
    arms: Seq<Arm>,
    subj: u16,
    d: u16,
    x: Val,
    end: u32,
    m: Mach,
) -> (r: (nat, Map<u16, Cell>))
    requires
        all_plain(arms),
        sound(q, n, f, arms, x),
        comes_to(q, n, f, arms, x) is Some,
        at_arms(m, g, subj, x),
        d < g.free,
        ({
            let (h, ends) = codegen::g_match_arms(g, arms, subj, Some(d));
            running::at_cond(m, g, h, ends, end, f)
        }),
    ensures
        ({
            let h = codegen::g_match_arms(g, arms, subj, Some(d)).0;
            let m2 = sums::after(q, m, r.0);
            match first(q, n, f, arms, x) {
                Some((arm, f1)) => settled(
                    m,
                    m2,
                    g,
                    f1,
                    d,
                    comes_to(q, n, f, arms, x)->Some_0,
                    end as int,
                ),
                None => running::at(m, m2, g, r.1, h.code.len() as int),
            }
        }),
    decreases arms.len(), 0int,
{
    let (h, ends) = codegen::g_match_arms(g, arms, subj, Some(d));
    let p = machine::cur(m);
    lemma_of_arms(g, arms, subj, d);
    lemma_arms_came(g, arms, subj, d);
    if arms.len() == 0 {
        running::lemma_at_once(m, g, f);
        (0, f)
    } else {
        let arm = arms[0];
        let rest = arms.drop_first();
        let (g1, hits, always, g2, misses, g3, g4, more, g5, g6) = arm_parts(g, arm, subj, d);
        let (h7, ends7) = codegen::g_match_arms(g6, rest, subj, Some(d));
        assert(is_plain(arms[0]));
        assert forall|i: int| 0 <= i < rest.len() implies is_plain(#[trigger] rest[i]) by {
            assert(rest[i] == arms[i + 1]);
        }
        lemma_arm_came(g, arm, subj, d);
        lemma_arms_came(g6, rest, subj, d);
        lemma_arm_in_place(p, g, arm, subj, d, h, ends7, end);
        let f1 = seen(q, n, f, arm, x);
        let k = lemma_try_arm(q, n, f, g, arm, subj, d, x, h, m);
        let m1 = sums::after(q, m, k);
        let taken = taker(q, n, f, arm.patterns@, x, 0) is Some;
        if !taken {
            lemma_next_arm(q, n, f, f1, g, arms, subj, d, x, end, m, m1, k)
        } else {
            let (j, on) = lemma_run_guard(q, n, f1, g, arm, subj, d, h, m, m1);
            let m2 = sums::after(q, m1, j);
            sums::lemma_after(q, m, k, j);
            if on {
                let v = val_of(q, n, f1, *arm.body.tail->Some_0)->Some_0;
                let l = lemma_take_arm(q, n, f1, g, arm, subj, d, v, h, end, m, m2);
                sums::lemma_after(q, m, k + j, l);
                (k + j + l, f1)
            } else {
                lemma_next_arm(q, n, f, f1, g, arms, subj, d, x, end, m, m2, k + j)
            }
        }
    }
}

/// An arm that was not for the subject: on to the next.
#[verifier::spinoff_prover]
proof fn lemma_next_arm(
    q: Sums,
    n: nat,
    f: Map<u16, Cell>,
    f1: Map<u16, Cell>,
    g: Gen,
    arms: Seq<Arm>,
    subj: u16,
    d: u16,
    x: Val,
    end: u32,
    m: Mach,
    m1: Mach,
    k: nat,
) -> (r: (nat, Map<u16, Cell>))
    requires
        arms.len() > 0,
        all_plain(arms),
        sound(q, n, f, arms, x),
        comes_to(q, n, f, arms, x) is Some,
        !picks(q, n, f, arms[0], x),
        f1 == seen(q, n, f, arms[0], x),
        at_arms(m, g, subj, x),
        d < g.free,
        ({
            let (h, ends) = codegen::g_match_arms(g, arms, subj, Some(d));
            running::at_cond(m, g, h, ends, end, f)
        }),
        ({
            let (g1, hits, always, g2, misses, g3, g4, more, g5, g6) = arm_parts(
                g,
                arms[0],
                subj,
                d,
            );
            &&& running::at(m, m1, g, f1, g6.code.len() as int)
            &&& m1 == sums::after(q, m, k)
        }),
    ensures
        ({
            let h = codegen::g_match_arms(g, arms, subj, Some(d)).0;
            let m2 = sums::after(q, m, r.0);
            match first(q, n, f, arms, x) {
                Some((arm, f1)) => settled(
                    m,
                    m2,
                    g,
                    f1,
                    d,
                    comes_to(q, n, f, arms, x)->Some_0,
                    end as int,
                ),
                None => running::at(m, m2, g, r.1, h.code.len() as int),
            }
        }),
    decreases arms.len() - 1, 1int,
{
    let (h, ends) = codegen::g_match_arms(g, arms, subj, Some(d));
    let p = machine::cur(m);
    let rest = arms.drop_first();
    let (g1, hits, always, g2, misses, g3, g4, more, g5, g6) = arm_parts(g, arms[0], subj, d);
    let (h7, ends7) = codegen::g_match_arms(g6, rest, subj, Some(d));
    lemma_of_arms(g, arms, subj, d);
    lemma_arms_came(g, arms, subj, d);
    assert(is_plain(arms[0]));
    assert forall|i: int| 0 <= i < rest.len() implies is_plain(#[trigger] rest[i]) by {
        assert(rest[i] == arms[i + 1]);
    }
    lemma_arm_came(g, arms[0], subj, d);
    lemma_arms_came(g6, rest, subj, d);
    lemma_arm_in_place(p, g, arms[0], subj, d, h, ends7, end);
    assert(m1.stack[m.base + subj] == m.stack[m.base + subj]);
    assert(running::at_cond(m1, g6, h7, ends7, end, f1));
    let (l, f2) = lemma_run_arms(q, n, f1, g6, rest, subj, d, x, end, m1);
    sums::lemma_after(q, m, k, l);
    lemma_compose(m, m1, sums::after(q, m1, l), g, g6, f1, f2, d, x, end, h.code.len() as int);
    (k + l, f2)
}

proof fn lemma_compose(
    m: Mach,
    m1: Mach,
    m2: Mach,
    g: Gen,
    g6: Gen,
    f1: Map<u16, Cell>,
    f2: Map<u16, Cell>,
    d: u16,
    x: Val,
    end: u32,
    pc: int,
)
    requires
        0 <= m.base,
        g6.free == g.free,
        g6.n_slots == g.n_slots,
        running::at(m, m1, g, f1, g6.code.len() as int),
    ensures
        running::at(m1, m2, g6, f2, pc) ==> running::at(m, m2, g, f2, pc),
        forall|f3: Map<u16, Cell>, v: Val| #[trigger]
            settled(m1, m2, g6, f3, d, v, end as int) ==> settled(m, m2, g, f3, d, v, end as int),
{
    if running::at(m1, m2, g6, f2, pc) {
        assert forall|i: int| m.base + g.n_slots <= i < m.base + g.free implies #[trigger] m2.stack[i]
            == m.stack[i] by {
            assert(m2.stack[i] == m1.stack[i]);
        }
        assert forall|i: int| 0 <= i < m.base implies #[trigger] m2.stack[i] == m.stack[i] by {
            assert(m2.stack[i] == m1.stack[i]);
        }
    }
    assert forall|f3: Map<u16, Cell>, v: Val| #[trigger]
        settled(m1, m2, g6, f3, d, v, end as int) implies settled(m, m2, g, f3, d, v, end as int) by {
        assert forall|i: int|
            m.base + g.n_slots <= i < m.base + g.free && i != m.base + d implies #[trigger] m2.stack[i]
            == m.stack[i] by {
            assert(m2.stack[i] == m1.stack[i]);
        }
        assert forall|i: int| 0 <= i < m.base implies #[trigger] m2.stack[i] == m.stack[i] by {
            assert(m2.stack[i] == m1.stack[i]);
        }
    }
}

/// The guard of an arm, if it has one.
#[verifier::spinoff_prover]
proof fn lemma_run_guard(
    q: Sums,
    n: nat,
    f1: Map<u16, Cell>,
    g: Gen,
    arm: Arm,
    subj: u16,
    d: u16,
    h: Gen,
    m: Mach,
    m1: Mach,
) -> (r: (nat, bool))
    requires
        is_plain(arm),
        arm.guard matches Some(c) ==> meaning::t_cond(q, n, f1, c) is Truth,
        sums::clean(m),
        sums::fit(g),
        sums::has_room(m, h),
        ({
            let (g1, hits, always, g2, misses, g3, g4, more, g5, g6) = arm_parts(g, arm, subj, d);
            let p = machine::cur(m);
            &&& g6.bad is None
            &&& g6.max_regs <= h.max_regs
            &&& running::has_cond(p, g3, g4, more, g6.code.len() as u32)
            &&& running::at(m, m1, g, f1, g3.code.len() as int)
        }),
    ensures
        ({
            let (g1, hits, always, g2, misses, g3, g4, more, g5, g6) = arm_parts(g, arm, subj, d);
            &&& r.1 == match arm.guard {
                Some(c) => meaning::t_cond(q, n, f1, c)->Truth_0,
                None => true,
            }
            &&& running::at(
                m,
                sums::after(q, m1, r.0),
                g,
                f1,
                if r.1 {
                    g4.code.len() as int
                } else {
                    g6.code.len() as int
                },
            )
        }),
{
    let (g1, hits, always, g2, misses, g3, g4, more, g5, g6) = arm_parts(g, arm, subj, d);
    lemma_arm_came(g, arm, subj, d);
    match arm.guard {
        Some(c) => {
            let b = meaning::t_cond(q, n, f1, c)->Truth_0;
            let t = g6.code.len() as u32;
            assert(running::at_cond(m1, g3, g4, more, t, f1));
            let k = running::lemma_run_cond(q, n, f1, g3, c, true, t, m1);
            let m2 = sums::after(q, m1, k);
            let pc = if b {
                g4.code.len() as int
            } else {
                g6.code.len() as int
            };
            lemma_still_in(m1, m2, g3, f1, pc);
            lemma_compose(m, m1, m2, g, Gen { code: g3.code, ..g3 }, f1, f1, d, Val::Nil, t, pc);
            (k, b)
        },
        None => (0, true),
    }
}

/// A match comes to the value of the first arm one of whose patterns equals the
/// subject, or names it, or is a wildcard, and whose guard, if it has one, holds; and
/// to nil where there is no such arm. Everything else in use is as it was.
#[verifier::spinoff_prover]
pub proof fn lemma_a_match_comes_to_its_first_arm(
    q: Sums,
    n: nat,
    f: Map<u16, Cell>,
    g: Gen,
    e: Expr,
    d: u16,
    x: Val,
    m: Mach,
)
    requires
        e matches Expr::Match(subject, arms) && is_simple(*subject) && all_plain(arms@) && val_of(
            q,
            n,
            f,
            *subject,
        ) == Some(x) && sound(q, n, f, arms@, x) && comes_to(q, n, f, arms@, x) is Some,
        sums::ready(m, g, codegen::g_expr(g, e, d), f),
        d < g.free,
    ensures
        exists|k: nat, f1: Map<u16, Cell>|
            settled(
                m,
                #[trigger] sums::after(q, m, k),
                g,
                #[trigger] f1.remove(d),
                d,
                comes_to(q, n, f, e->Match_1@, x)->Some_0,
                codegen::g_expr(g, e, d).code.len() as int,
            ),
{
    let subject = *e->Match_0;
    let arms = e->Match_1@;
    let p = machine::cur(m);
    let h = codegen::g_expr(g, e, d);
    let (g1, subj) = codegen::g_alloc(g);
    let g2 = codegen::g_expr(g1, subject, subj);
    let (g3, ends) = codegen::g_match_arms(g2, arms, subj, Some(d));
    let g4 = codegen::g_emit(g3, Op::Nil { dst: d });
    let end = codegen::here(g4);
    assert(h == codegen::g_release(codegen::g_patch_all(g4, ends), g.free)) by {
        reveal(codegen::g_expr);
        reveal(codegen::g_match);
        reveal(codegen::g_match_arms);
    }
    reveal(codegen::g_alloc);
    reveal(codegen::g_emit);
    reveal(codegen::g_release);
    reveal(codegen::g_patch_all);
    reveal(codegen::here);
    reveal(codegen::fail);
    running::lemma_patch_keeps(g4, ends, end);
    lemma_arms_came(g2, arms, subj, d);
    lemma_simple_came(g1, subject, subj);
    running::lemma_patched(g4, ends, end);
    running::lemma_within(ends, g2.code.len(), g3.code.len());
    reveal(running::has_cond);
    assert(sums::has_code(p, g1, g2)) by {
        assert forall|i: int| g1.code.len() <= i < g2.code.len() implies #[trigger] p.code[i]
            == bytecode::specialised(g2.code[i]) by {
            assert(!ends.contains(i as usize));
            assert(g3.code[i] == g2.code[i]);
            assert(h.code[i] == g4.code[i]);
        }
        assert forall|i: int| 0 <= i < g2.consts.len() implies #[trigger] p.consts[i]
            == g2.consts[i] by {
            assert(g3.consts[i] == g2.consts[i]);
            assert(h.consts[i] == g3.consts[i]);
        }
    }
    assert(running::has_cond(p, g2, g3, ends, end)) by {
        assert forall|i: int| g2.code.len() <= i < g3.code.len() implies #[trigger] p.code[i]
            == bytecode::specialised(
            if ends.contains(i as usize) {
                codegen::retarget(g3.code[i], end)
            } else {
                g3.code[i]
            },
        ) by {
            assert(g4.code[i] == g3.code[i]);
            assert(h.code[i] == if ends.contains(i as usize) {
                codegen::retarget(g4.code[i], end)
            } else {
                g4.code[i]
            });
        }
    }
    assert(sums::ready(m, g1, g2, f));
    let k = lemma_run_simple(q, n, f, g1, subject, subj, x, m);
    let m1 = sums::after(q, m, k);
    assert(running::at(m, m1, g, f, g2.code.len() as int)) by {
        assert forall|slot: u16| #[trigger] f.contains_key(slot) && slot < g.n_slots implies
            machine::reg(m1, slot) == sums::cell_val(f[slot]) by {
            assert(machine::reg(m, slot) == sums::cell_val(f[slot]));
            assert(m1.stack[m.base + slot] == m.stack[m.base + slot]);
        }
    }
    assert(running::at_cond(m1, g2, g3, ends, end, f));
    let (l, f2) = lemma_run_arms(q, n, f, g2, arms, subj, d, x, end, m1);
    sums::lemma_after(q, m, k, l);
    let m2 = sums::after(q, m, k + l);
    let v = comes_to(q, n, f, arms, x)->Some_0;
    let last = h.code.len() as int;
    match first(q, n, f, arms, x) {
        Some((arm, f1)) => {
            lemma_below(m, m1, m2, g, g2, f, f1, d, v, end as int);
            assert(settled(m, sums::after(q, m, k + l), g, f1.remove(d), d, v, last)) by {
                assert(f1.remove(d).remove(d) =~= f1.remove(d));
            }
        },
        None => {
            let i = g3.code.len() as int;
            assert(g4.code[i] == Op::Nil { dst: d });
            assert(!ends.contains(i as usize));
            assert(h.code[i] == g4.code[i]);
            assert(p.code[i] == Op::Nil { dst: d });
            running::lemma_put_value(q, m2, d, Val::Nil);
            sums::lemma_after(q, m, k + l, 1);
            let m3 = sums::after(q, m, k + l + 1);
            assert(settled(m1, m3, g2, f2, d, Val::Nil, last)) by {
                let f3 = f2.remove(d);
                assert forall|slot: u16| #[trigger] f3.contains_key(slot) && slot
                    < g2.n_slots implies machine::reg(m3, slot) == sums::cell_val(f3[slot]) by {
                    assert(f2.contains_key(slot));
                    assert(machine::reg(m2, slot) == sums::cell_val(f2[slot]));
                }
            }
            lemma_below(m, m1, m3, g, g2, f, f2, d, v, last);
            assert(settled(m, sums::after(q, m, k + l + 1), g, f2.remove(d), d, v, last)) by {
                assert(f2.remove(d).remove(d) =~= f2.remove(d));
            }
        },
    }
}

proof fn lemma_below(
    m: Mach,
    m1: Mach,
    m2: Mach,
    g: Gen,
    g2: Gen,
    f: Map<u16, Cell>,
    f1: Map<u16, Cell>,
    d: u16,
    v: Val,
    pc: int,
)
    requires
        0 <= m.base,
        g.free <= g2.free,
        g2.n_slots == g.n_slots,
        running::at(m, m1, g, f, m1.pc),
        settled(m1, m2, g2, f1, d, v, pc),
    ensures
        settled(m, m2, g, f1, d, v, pc),
{
    assert forall|i: int|
        m.base + g.n_slots <= i < m.base + g.free && i != m.base + d implies #[trigger] m2.stack[i]
        == m.stack[i] by {
        assert(m2.stack[i] == m1.stack[i]);
    }
    assert forall|i: int| 0 <= i < m.base implies #[trigger] m2.stack[i] == m.stack[i] by {
        assert(m2.stack[i] == m1.stack[i]);
    }
}

/// The first arm for a subject is one of the arms that is for it, and no arm before it
/// is.
pub proof fn lemma_first_arm(q: Sums, n: nat, f: Map<u16, Cell>, arms: Seq<Arm>, x: Val)
    ensures
        match first(q, n, f, arms, x) {
            Some((arm, f1)) => exists|i: int|
                0 <= i < arms.len() && #[trigger] arms[i] == arm && picks(
                    q,
                    n,
                    locals_at(q, n, f, arms, x, i as nat),
                    arm,
                    x,
                ) && forall|j: int|
                    0 <= j < i ==> !picks(
                        q,
                        n,
                        locals_at(q, n, f, arms, x, j as nat),
                        #[trigger] arms[j],
                        x,
                    ),
            None => forall|j: int|
                0 <= j < arms.len() ==> !picks(
                    q,
                    n,
                    locals_at(q, n, f, arms, x, j as nat),
                    #[trigger] arms[j],
                    x,
                ),
        },
    decreases arms.len(),
{
    if arms.len() > 0 {
        let f0 = seen(q, n, f, arms[0], x);
        let rest = arms.drop_first();
        if picks(q, n, f, arms[0], x) {
            assert(arms[0] == first(q, n, f, arms, x)->Some_0.0);
        } else {
            lemma_first_arm(q, n, f0, rest, x);
            assert forall|j: int| 0 <= j < rest.len() implies #[trigger] locals_at(
                q,
                n,
                f0,
                rest,
                x,
                j as nat,
            ) == locals_at(q, n, f, arms, x, (j + 1) as nat) by {
                lemma_locals_from(q, n, f, arms, x, j as nat);
            }
            match first(q, n, f0, rest, x) {
                Some((arm, _)) => {
                    let i = choose|i: int|
                        0 <= i < rest.len() && #[trigger] rest[i] == arm && picks(
                            q,
                            n,
                            locals_at(q, n, f0, rest, x, i as nat),
                            arm,
                            x,
                        ) && forall|j: int|
                            0 <= j < i ==> !picks(
                                q,
                                n,
                                locals_at(q, n, f0, rest, x, j as nat),
                                #[trigger] rest[j],
                                x,
                            );
                    assert(arms[i + 1] == arm);
                    assert(locals_at(q, n, f0, rest, x, i as nat) == locals_at(
                        q,
                        n,
                        f,
                        arms,
                        x,
                        (i + 1) as nat,
                    ));
                    assert forall|j: int| 0 <= j < i + 1 implies !picks(
                        q,
                        n,
                        locals_at(q, n, f, arms, x, j as nat),
                        #[trigger] arms[j],
                        x,
                    ) by {
                        if j > 0 {
                            assert(rest[j - 1] == arms[j]);
                            assert(locals_at(q, n, f0, rest, x, (j - 1) as nat) == locals_at(
                                q,
                                n,
                                f,
                                arms,
                                x,
                                j as nat,
                            ));
                        }
                    }
                },
                None => {
                    assert forall|j: int| 0 <= j < arms.len() implies !picks(
                        q,
                        n,
                        locals_at(q, n, f, arms, x, j as nat),
                        #[trigger] arms[j],
                        x,
                    ) by {
                        if j > 0 {
                            assert(rest[j - 1] == arms[j]);
                            assert(locals_at(q, n, f0, rest, x, (j - 1) as nat) == locals_at(
                                q,
                                n,
                                f,
                                arms,
                                x,
                                j as nat,
                            ));
                        }
                    }
                },
            }
        }
    }
}

/// The locals the arm at `i` is looked at with.
pub open spec fn locals_at(q: Sums, n: nat, f: Map<u16, Cell>, arms: Seq<Arm>, x: Val, i: nat) -> Map<
    u16,
    Cell,
>
    decreases i,
{
    if i == 0 || arms.len() == 0 {
        f
    } else {
        locals_at(q, n, seen(q, n, f, arms[0], x), arms.drop_first(), x, (i - 1) as nat)
    }
}

proof fn lemma_locals_from(q: Sums, n: nat, f: Map<u16, Cell>, arms: Seq<Arm>, x: Val, j: nat)
    requires
        arms.len() > 0,
    ensures
        locals_at(q, n, seen(q, n, f, arms[0], x), arms.drop_first(), x, j) == locals_at(
            q,
            n,
            f,
            arms,
            x,
            j + 1,
        ),
{
}

} // verus!
