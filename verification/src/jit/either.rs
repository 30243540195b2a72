//! A function or a loop on numbers comes to the same whether the machine runs it
//! or compiled code does.
use super::faithful;
use super::following;
use super::kinds::Callable;
use super::lowering;
use super::meaning;
use super::meaning::{Cell, Ends, Exit, Sums};
use super::running;
use super::running::Aim;
use super::slots;
use super::sums;
use super::unit;
use super::unit::LoopBody;
use crate::ast::{Binding, Block, Expr, FuncDef, Stat};
use crate::bytecode;
use crate::bytecode::{Op, ProtoView};
use crate::codegen;
use crate::codegen::Gen;
use crate::machine;
use crate::machine::Mach;
use crate::value::Val;
use vstd::prelude::*;

verus! {

// ---- bodies ------------------------------------------------------------------------------

/// The body of a function on numbers: statements, and a sum it comes to, or a
/// choice of such bodies.
pub open spec fn plain_body(b: Block) -> bool
    decreases b,
{
    running::plain_stats(b.stats@) && match b.tail {
        Some(e) => plain_tail(*e),
        None => true,
    }
}

pub open spec fn plain_tail(e: Expr) -> bool
    decreases e,
{
    match e {
        Expr::Do(b) => plain_body(b),
        Expr::If(arms, els) => arms@.len() > 0 && plain_choices(arms@) && match els {
            Some(b) => plain_body(b),
            None => true,
        },
        _ => sums::is_sum(e),
    }
}

pub open spec fn plain_choices(arms: Seq<(Expr, Block)>) -> bool
    decreases arms,
{
    arms.len() == 0 || (running::is_cond(arms[0].0, true) && plain_body(arms[0].1)
        && plain_choices(arms.drop_first()))
}

/// The machine has come to the return that what was read leads to.
pub open spec fn comes_to<M>(m: Mach, m2: Mach, a: Ends<M>) -> bool {
    match a {
        Ends::Num(v, _) => running::gives_back(m, m2, Some(v)),
        Ends::Done(_) => running::gives_back(m, m2, None),
        Ends::Out(Exit::Return(v), _) => running::gives_back(m, m2, v),
        _ => true,
    }
}

/// No loop to leave.
pub open spec fn nowhere() -> Aim {
    Aim { breaks: Seq::empty(), continues: Seq::empty(), brk: 0, cont: 0 }
}

// ---- how a body is compiled --------------------------------------------------------------

proof fn lemma_of_body(g: Gen, b: Block)
    requires
        plain_body(b),
    ensures
        ({
            let g1 = codegen::g_tail_line(
                codegen::g_stats(g, b.stats@, b.lines@),
                b.tail_line,
            );
            codegen::g_block_ret(g, b) == match b.tail {
                None => {
                    let (g2, r) = codegen::g_alloc(g1);
                    codegen::g_emit(g2, Op::Ret { base: r, n: 0 })
                },
                Some(e) => tail_code(g1, *e),
            }
        }),
{
    reveal(codegen::g_block_ret);
    reveal(codegen::g_ret_call);
    reveal(codegen::g_call);
    reveal(codegen::g_stats);
    reveal(codegen::g_ret_arms);
    reveal(codegen::g_expr);
    match b.tail {
        Some(e) => {
            let g1 = codegen::g_tail_line(codegen::g_stats(g, b.stats@, b.lines@), b.tail_line);
            if crate::ast::is_call_spec(*e) {
                assert(codegen::g_block_ret(g, b) == codegen::g_ret_call(g1, *e));
            }
        },
        None => {},
    }
}

/// The value a body comes to.
pub open spec fn tail_code(g1: Gen, e: Expr) -> Gen {
    match e {
        Expr::Do(inner) => codegen::g_block_ret(g1, inner),
        Expr::If(arms, els) => {
            let g2 = codegen::g_ret_arms(g1, arms@);
            match els {
                Some(b) => codegen::g_block_ret(g2, b),
                None => {
                    let (g3, r) = codegen::g_alloc(g2);
                    codegen::g_emit(g3, Op::Ret { base: r, n: 0 })
                },
            }
        },
        _ => running::returned(g1, e),
    }
}

proof fn lemma_of_choices(g: Gen, arms: Seq<(Expr, Block)>)
    ensures
        codegen::g_ret_arms(g, arms) == if arms.len() == 0 {
            g
        } else {
            let (g1, next) = codegen::g_cond(g, arms[0].0, true);
            codegen::g_ret_arms(
                codegen::g_patch_all(codegen::g_block_ret(g1, arms[0].1), next),
                arms.drop_first(),
            )
        },
{
    reveal(codegen::g_ret_arms);
    reveal(codegen::g_cond);
    reveal(codegen::g_block_ret);
}

// ---- what a body adds --------------------------------------------------------------------

/// What a body adds, outside any loop. It may keep a register.
pub open spec fn body_grew(g: Gen, h: Gen) -> bool {
    &&& g.bad is None
    &&& g.free <= h.free
    &&& g.n_slots == h.n_slots
    &&& g.max_regs <= h.max_regs
    &&& g.code.len() <= h.code.len()
    &&& forall|i: int| 0 <= i < g.code.len() ==> g.code[i] == #[trigger] h.code[i]
    &&& g.consts.len() <= h.consts.len()
    &&& forall|i: int| 0 <= i < g.consts.len() ==> g.consts[i] == #[trigger] h.consts[i]
    &&& sums::begins(g.globals, h.globals)
    &&& sums::fit(h)
    &&& h.loops.len() == 0
}

pub open spec fn body_came(g: Gen, h: Gen) -> bool {
    &&& h.bad is None ==> g.bad is None
    &&& h.bad is None && sums::fit(g) && g.loops.len() == 0 ==> body_grew(g, h)
}

proof fn lemma_body_on(g: Gen, g1: Gen, h: Gen)
    requires
        body_grew(g, g1),
        body_grew(g1, h),
    ensures
        body_grew(g, h),
{
    assert forall|i: int| 0 <= i < g.code.len() implies g.code[i] == #[trigger] h.code[i] by {
        assert(g1.code[i] == g.code[i]);
    }
    assert forall|i: int| 0 <= i < g.consts.len() implies g.consts[i] == #[trigger] h.consts[i] by {
        assert(g1.consts[i] == g.consts[i]);
    }
}

proof fn lemma_body_of(g: Gen, h: Gen)
    requires
        running::stat_came(g, h),
    ensures
        body_came(g, h),
{
    reveal(running::grew);
}

proof fn lemma_body_came(g: Gen, b: Block)
    requires
        plain_body(b),
    ensures
        body_came(g, codegen::g_block_ret(g, b)),
    decreases b, 0int,
{
    lemma_of_body(g, b);
    let g0 = codegen::g_stats(g, b.stats@, b.lines@);
    let g1 = codegen::g_tail_line(g0, b.tail_line);
    let h = codegen::g_block_ret(g, b);
    running::lemma_stats_came(g, b.stats@, b.lines@);
    lemma_body_of(g, g0);
    reveal(codegen::g_tail_line);
    match b.tail {
        None => {
            lemma_ret_came(g1);
        },
        Some(e) => {
            lemma_tail_came(g1, *e);
        },
    }
    if h.bad is None && sums::fit(g) && g.loops.len() == 0 {
        assert(body_grew(g0, g1));
        lemma_body_on(g, g0, g1);
        lemma_body_on(g, g1, h);
    }
}

/// A return of nothing.
proof fn lemma_ret_came(g: Gen)
    ensures
        ({
            let (g2, r) = codegen::g_alloc(g);
            let h = codegen::g_emit(g2, Op::Ret { base: r, n: 0 });
            body_came(g, h) && (h.bad is None ==> h.code == g.code.push(Op::Ret { base: r, n: 0 }))
        }),
{
    reveal(codegen::g_alloc);
    reveal(codegen::g_emit);
    reveal(codegen::fail);
}

proof fn lemma_tail_came(g: Gen, e: Expr)
    requires
        plain_tail(e),
    ensures
        body_came(g, tail_code(g, e)),
    decreases e, 1int,
{
    let h = tail_code(g, e);
    match e {
        Expr::Do(b) => lemma_body_came(g, b),
        Expr::If(arms, els) => {
            let g2 = codegen::g_ret_arms(g, arms@);
            lemma_choices_came(g, arms@);
            match els {
                Some(b) => lemma_body_came(g2, b),
                None => lemma_ret_came(g2),
            }
            if h.bad is None && sums::fit(g) && g.loops.len() == 0 {
                lemma_body_on(g, g2, h);
            }
        },
        _ => {
            reveal(codegen::g_alloc);
            reveal(codegen::g_slot);
            reveal(codegen::g_release);
            reveal(codegen::g_emit);
            reveal(codegen::fail);
            running::lemma_returned_came(g, e);
        },
    }
}

proof fn lemma_choices_came(g: Gen, arms: Seq<(Expr, Block)>)
    requires
        plain_choices(arms),
    ensures
        body_came(g, codegen::g_ret_arms(g, arms)),
    decreases arms, 0int,
{
    lemma_of_choices(g, arms);
    if arms.len() > 0 {
        let (g1, next) = codegen::g_cond(g, arms[0].0, true);
        let g2 = codegen::g_block_ret(g1, arms[0].1);
        let g3 = codegen::g_patch_all(g2, next);
        let h = codegen::g_ret_arms(g3, arms.drop_first());
        running::lemma_cond_came(g, arms[0].0, true);
        lemma_body_came(g1, arms[0].1);
        lemma_choices_came(g3, arms.drop_first());
        reveal(codegen::g_patch_all);
        running::lemma_patch_keeps(g2, next, codegen::here(g2));
        if h.bad is None && sums::fit(g) && g.loops.len() == 0 {
            assert(body_grew(g, g1));
            lemma_body_on(g, g1, g2);
            running::lemma_patched(g2, next, codegen::here(g2));
            running::lemma_within(next, g.code.len(), g1.code.len());
            assert(body_grew(g, g3));
            lemma_body_on(g, g3, h);
        }
    }
}

// ---- running a body ----------------------------------------------------------------------

/// The machine stands before a body.
pub open spec fn at_body(m: Mach, g: Gen, h: Gen, f: Map<u16, Cell>) -> bool {
    &&& sums::clean(m)
    &&& !m.jit
    &&& m.pc == g.code.len()
    &&& sums::has_code(machine::cur(m), g, h)
    &&& sums::has_room(m, h)
    &&& sums::fit(g)
    &&& g.loops.len() == 0
    &&& h.bad is None
    &&& sums::in_regs(m, g.n_slots, f)
}

/// Code in place is in place piece by piece.
proof fn lemma_split(p: ProtoView, g: Gen, g1: Gen, h: Gen)
    requires
        body_grew(g, g1),
        body_grew(g1, h),
        sums::has_code(p, g, h),
    ensures
        sums::has_code(p, g, g1),
        sums::has_code(p, g1, h),
        running::has_stats(p, g, g1, nowhere()),
        running::covers(g1, nowhere()),
{
    reveal(running::has_stats);
    assert forall|i: int| g.code.len() <= i < g1.code.len() implies #[trigger] p.code[i]
        == bytecode::specialised(g1.code[i]) by {
        assert(h.code[i] == g1.code[i]);
    }
    assert forall|i: int| 0 <= i < g1.consts.len() implies #[trigger] p.consts[i] == g1.consts[i] by {
        assert(h.consts[i] == g1.consts[i]);
    }
}

/// A return reached later is the return reached.
proof fn lemma_comes_on<M>(m: Mach, m1: Mach, m2: Mach, a: Ends<M>)
    requires
        m1 == (Mach { stack: m1.stack, ticks: m1.ticks, line: m1.line, pc: m1.pc, ..m }),
        m1.stack.len() == m.stack.len(),
        forall|i: int| 0 <= i < m.base ==> #[trigger] m1.stack[i] == m.stack[i],
        comes_to(m1, m2, a),
    ensures
        comes_to(m, m2, a),
{
}

proof fn lemma_run_body(
    q: Sums,
    n: nat,
    f: Map<u16, Cell>,
    g: Gen,
    b: Block,
    want: bool,
    m: Mach,
) -> (k: nat)
    requires
        plain_body(b),
        want || b.tail is None,
        at_body(m, g, codegen::g_block_ret(g, b), f),
    ensures
        comes_to(m, sums::after(q, m, k), meaning::t_block(q, n, f, b, want)),
    decreases b, 0int, 0int,
{
    let h = codegen::g_block_ret(g, b);
    let p = machine::cur(m);
    let g0 = codegen::g_stats(g, b.stats@, b.lines@);
    let g1 = codegen::g_tail_line(g0, b.tail_line);
    lemma_body_in_place(p, g, b);
    let j = following::lemma_follow_stats(q, n, f, g, b.stats@, b.lines@, m, nowhere());
    let m1 = sums::after(q, m, j);
    match meaning::t_stats(q, n, f, b.stats@) {
        Ends::Done(f1) => match b.tail {
            None => j,
            Some(e) => {
                let l = lemma_run_tail(q, n, f1, g1, *e, m1);
                sums::lemma_after(q, m, j, l);
                lemma_comes_on(m, m1, sums::after(q, m1, l), meaning::t_expr(q, n, f1, *e));
                j + l
            },
        },
        _ => j,
    }
}

/// The pieces of a body, in place.
proof fn lemma_body_in_place(p: ProtoView, g: Gen, b: Block)
    requires
        plain_body(b),
        sums::fit(g),
        g.loops.len() == 0,
        codegen::g_block_ret(g, b).bad is None,
        sums::has_code(p, g, codegen::g_block_ret(g, b)),
    ensures
        ({
            let h = codegen::g_block_ret(g, b);
            let g0 = codegen::g_stats(g, b.stats@, b.lines@);
            let g1 = codegen::g_tail_line(g0, b.tail_line);
            &&& g0.bad is None
            &&& g0.max_regs <= h.max_regs
            &&& g1.code == g0.code
            &&& g1.n_slots == g.n_slots
            &&& g1.loops.len() == 0
            &&& sums::fit(g1)
            &&& running::has_stats(p, g, g0, nowhere())
            &&& running::covers(g0, nowhere())
            &&& sums::has_code(p, g1, h)
            &&& match b.tail {
                None => g1.code.len() < p.code.len() && (p.code[g1.code.len() as int] matches Op::Ret {
                    base,
                    n,
                } && n == 0),
                Some(e) => h == tail_code(g1, *e),
            }
        }),
{
    lemma_of_body(g, b);
    let g0 = codegen::g_stats(g, b.stats@, b.lines@);
    let g1 = codegen::g_tail_line(g0, b.tail_line);
    let h = codegen::g_block_ret(g, b);
    running::lemma_stats_came(g, b.stats@, b.lines@);
    lemma_body_of(g, g0);
    match b.tail {
        None => lemma_ret_came(g1),
        Some(e) => lemma_tail_came(g1, *e),
    }
    assert(g1.bad == g0.bad && g1 == Gen { line: g1.line, ..g0 }) by {
        reveal(codegen::g_tail_line);
    }
    assert(body_grew(g0, h));
    lemma_split(p, g, g0, h);
    if b.tail is None {
        let r = codegen::g_alloc(g1).1;
        assert(h.code[g1.code.len() as int] == Op::Ret { base: r, n: 0 });
        assert(p.code[g1.code.len() as int] == bytecode::specialised(h.code[g1.code.len() as int]));
    }
}

/// The value a body comes to.
proof fn lemma_run_tail(q: Sums, n: nat, f: Map<u16, Cell>, g: Gen, e: Expr, m: Mach) -> (k: nat)
    requires
        plain_tail(e),
        at_body(m, g, tail_code(g, e), f),
    ensures
        comes_to(m, sums::after(q, m, k), meaning::t_expr(q, n, f, e)),
    decreases e, 1int, 0int,
{
    let h = tail_code(g, e);
    let p = machine::cur(m);
    match e {
        Expr::Do(b) => lemma_run_body(q, n, f, g, b, true, m),
        Expr::If(arms, els) => {
            let g2 = codegen::g_ret_arms(g, arms@);
            lemma_choices_came(g, arms@);
            match els {
                Some(b) => lemma_body_came(g2, b),
                None => lemma_ret_came(g2),
            }
            lemma_split(p, g, g2, h);
            assert(arms@.skip(0) =~= arms@);
            let (j, fell) = lemma_run_choices(q, n, f, g, e, 0, arms@, m);
            let m1 = sums::after(q, m, j);
            if fell && els is Some {
                let b = els->Some_0;
                let l = lemma_run_body(q, n, f, g2, b, true, m1);
                sums::lemma_after(q, m, j, l);
                lemma_comes_on(
                    m,
                    m1,
                    sums::after(q, m1, l),
                    meaning::t_block(q, n, f, b, true),
                );
                j + l
            } else {
                j
            }
        },
        _ => lemma_run_sum(q, n, f, g, e, m),
    }
}

/// A body that comes to a sum.
proof fn lemma_run_sum(q: Sums, n: nat, f: Map<u16, Cell>, g: Gen, e: Expr, m: Mach) -> (k: nat)
    requires
        sums::is_sum(e),
        at_body(m, g, tail_code(g, e), f),
    ensures
        comes_to(m, sums::after(q, m, k), meaning::t_expr(q, n, f, e)),
{
    let h = tail_code(g, e);
    let p = machine::cur(m);
    following::lemma_value_quiet(q, n, f, e);
    reveal(codegen::g_alloc);
    reveal(codegen::g_slot);
    reveal(codegen::g_release);
    reveal(codegen::g_emit);
    reveal(codegen::fail);
    match meaning::t_expr(q, n, f, e) {
        Ends::Num(x, _) => running::lemma_run_returned(q, n, f, g, e, x, m),
        _ => 0,
    }
}

/// The first choice, in place.
proof fn lemma_choice_in_place(p: ProtoView, g: Gen, arms: Seq<(Expr, Block)>)
    requires
        arms.len() > 0,
        plain_choices(arms),
        sums::fit(g),
        g.loops.len() == 0,
        codegen::g_ret_arms(g, arms).bad is None,
        sums::has_code(p, g, codegen::g_ret_arms(g, arms)),
    ensures
        ({
            let (g1, next) = codegen::g_cond(g, arms[0].0, true);
            let g2 = codegen::g_block_ret(g1, arms[0].1);
            let g3 = codegen::g_patch_all(g2, next);
            let h = codegen::g_ret_arms(g, arms);
            &&& h == codegen::g_ret_arms(g3, arms.drop_first())
            &&& sums::came_to(g, g1)
            &&& g1.bad is None && g2.bad is None
            &&& body_grew(g1, g2)
            &&& body_grew(g, g3)
            &&& g3.code.len() == g2.code.len()
            &&& g2.max_regs <= h.max_regs
            &&& g1.max_regs <= h.max_regs
            &&& running::has_cond(p, g, g1, next, codegen::here(g2))
            &&& sums::has_code(p, g1, g2)
            &&& sums::has_code(p, g3, h)
        }),
{
    lemma_of_choices(g, arms);
    reveal(running::has_cond);
    let (g1, next) = codegen::g_cond(g, arms[0].0, true);
    let g2 = codegen::g_block_ret(g1, arms[0].1);
    let g3 = codegen::g_patch_all(g2, next);
    let h = codegen::g_ret_arms(g3, arms.drop_first());
    running::lemma_cond_came(g, arms[0].0, true);
    lemma_body_came(g1, arms[0].1);
    lemma_choices_came(g3, arms.drop_first());
    reveal(codegen::g_patch_all);
    running::lemma_patch_keeps(g2, next, codegen::here(g2));
    assert(body_grew(g, g1));
    lemma_body_on(g, g1, g2);
    running::lemma_patched(g2, next, codegen::here(g2));
    running::lemma_within(next, g.code.len(), g1.code.len());
    assert(body_grew(g, g3));
    assert forall|i: int| g.code.len() <= i < g1.code.len() implies #[trigger] p.code[i]
        == bytecode::specialised(
        if next.contains(i as usize) {
            codegen::retarget(g1.code[i], codegen::here(g2))
        } else {
            g1.code[i]
        },
    ) by {
        assert(h.code[i] == g3.code[i]);
        assert(g2.code[i] == g1.code[i]);
    }
    assert forall|i: int| g1.code.len() <= i < g2.code.len() implies #[trigger] p.code[i]
        == bytecode::specialised(g2.code[i]) by {
        assert(h.code[i] == g3.code[i]);
        assert(!next.contains(i as usize));
    }
    assert forall|i: int| 0 <= i < g2.consts.len() implies #[trigger] p.consts[i] == g2.consts[i] by {
        assert(h.consts[i] == g3.consts[i]);
    }
    assert forall|i: int| 0 <= i < g1.consts.len() implies #[trigger] p.consts[i] == g1.consts[i] by {
        assert(g2.consts[i] == g1.consts[i]);
    }
}

/// A choice that is taken.
proof fn lemma_choice_taken(
    q: Sums,
    n: nat,
    f: Map<u16, Cell>,
    g: Gen,
    g1: Gen,
    b: Block,
    m: Mach,
    m1: Mach,
    j: nat,
) -> (k: nat)
    requires
        plain_body(b),
        sums::came_to(g, g1),
        g.loops.len() == 0,
        sums::clean(m),
        !m.jit,
        sums::has_code(machine::cur(m), g1, codegen::g_block_ret(g1, b)),
        sums::has_room(m, codegen::g_block_ret(g1, b)),
        codegen::g_block_ret(g1, b).bad is None,
        m1 == sums::after(q, m, j),
        running::at(m, m1, g, f, g1.code.len() as int),
    ensures
        comes_to(m, sums::after(q, m, k), meaning::t_block(q, n, f, b, true)),
    decreases b, 1int, 0int,
{
    let l = lemma_run_body(q, n, f, g1, b, true, m1);
    sums::lemma_after(q, m, j, l);
    lemma_comes_on(m, m1, sums::after(q, m1, l), meaning::t_block(q, n, f, b, true));
    j + l
}

proof fn lemma_at_later(
    m: Mach,
    m1: Mach,
    m2: Mach,
    g: Gen,
    g3: Gen,
    f: Map<u16, Cell>,
    pc: int,
)
    requires
        body_grew(g, g3),
        running::at(m, m1, g, f, g3.code.len() as int),
        running::at(m1, m2, g3, f, pc),
    ensures
        running::at(m, m2, g, f, pc),
{
    running::lemma_at_on(m, m1, m2, g, g3, f, f, g3.code.len() as int, pc);
}

/// The choices of a body from `i` on: none was taken, or one was.
#[verifier::spinoff_prover]
#[verifier::rlimit(40)]
proof fn lemma_run_choices(
    q: Sums,
    n: nat,
    f: Map<u16, Cell>,
    g: Gen,
    e: Expr,
    i: nat,
    arms: Seq<(Expr, Block)>,
    m: Mach,
) -> (r: (nat, bool))
    requires
        e matches Expr::If(all, _) && i < all@.len() && arms == all@.skip(i as int),
        plain_choices(arms),
        at_body(m, g, codegen::g_ret_arms(g, arms), f),
    ensures
        match e {
            Expr::If(_, els) => {
                let a = meaning::t_if(q, n, f, e, i, true);
                let m2 = sums::after(q, m, r.0);
                if r.1 {
                    &&& running::at(
                        m,
                        m2,
                        g,
                        f,
                        codegen::g_ret_arms(g, arms).code.len() as int,
                    )
                    &&& a == match els {
                        Some(b) => meaning::t_block(q, n, f, b, true),
                        None => Ends::Wrong,
                    }
                } else {
                    comes_to(m, m2, a)
                }
            },
            _ => true,
        },
    decreases
            e,
            0int,
            (match e {
                Expr::If(all, _) => all@.len() - i,
                _ => 0,
            }),
{
    let p = machine::cur(m);
    match e {
        Expr::If(all, els) => {
            let c = all@[i as int].0;
            let b = all@[i as int].1;
            assert(arms[0] == all@[i as int]);
            let (g1, next) = codegen::g_cond(g, c, true);
            let g2 = codegen::g_block_ret(g1, b);
            let g3 = codegen::g_patch_all(g2, next);
            lemma_choice_in_place(p, g, arms);
            running::lemma_cond_quiet(q, n, f, c, true);
            match meaning::t_cond(q, n, f, c) {
                Ends::Truth(x, _) => {
                    let j = running::lemma_run_cond(q, n, f, g, c, true, codegen::here(g2), m);
                    let m1 = sums::after(q, m, j);
                    if x {
                        following::lemma_still_at(m, m1, g, f, g1.code.len() as int);
                        (lemma_choice_taken(q, n, f, g, g1, b, m, m1, j), false)
                    } else {
                        following::lemma_still_at(m, m1, g, f, g3.code.len() as int);
                        if arms.len() == 1 {
                            lemma_of_choices(g3, arms.drop_first());
                            (j, true)
                        } else {
                            assert(arms.drop_first() =~= all@.skip(i as int + 1));
                            let (l, fell) = lemma_run_choices(
                                q,
                                n,
                                f,
                                g3,
                                e,
                                i + 1,
                                arms.drop_first(),
                                m1,
                            );
                            let m2 = sums::after(q, m1, l);
                            sums::lemma_after(q, m, j, l);
                            let a = meaning::t_if(q, n, f, e, i + 1, true);
                            assert(meaning::t_if(q, n, f, e, i, true) == a);
                            if fell {
                                lemma_at_later(
                                    m,
                                    m1,
                                    m2,
                                    g,
                                    g3,
                                    f,
                                    codegen::g_ret_arms(g, arms).code.len() as int,
                                );
                            } else {
                                lemma_comes_on(m, m1, m2, a);
                            }
                            (j + l, fell)
                        }
                    }
                },
                _ => (0, false),
            }
        },
        _ => (0, false),
    }
}

// ---- a whole function --------------------------------------------------------------------

proof fn lemma_params(g: Gen, bs: Seq<Binding>)
    ensures
        codegen::g_params(g, bs).bad is None ==> codegen::g_params(g, bs) == g,
        g.bad is Some ==> codegen::g_params(g, bs).bad is Some,
    decreases bs.len(),
{
    reveal(codegen::g_params);
    reveal(codegen::g_slot);
    reveal(codegen::fail);
    if bs.len() > 0 {
        lemma_params(codegen::g_slot(g, bs[0].slot), bs.drop_first());
    }
}

/// The machine has just entered a function, with the locals in their registers,
/// and nothing takes its loops over.
pub open spec fn entered(m: Mach, def: FuncDef, f: Map<u16, Cell>) -> bool {
    &&& machine::cur(m) == codegen::proto_of(codegen::g_function(def), def)
    &&& sums::clean(m)
    &&& !m.jit
    &&& m.pc == 0
    &&& 0 <= m.base
    &&& m.base + machine::cur(m).n_regs <= m.stack.len()
    &&& forall|slot: u16| #[trigger]
        f.contains_key(slot) && slot < def.n_slots ==> machine::reg(m, slot) == sums::cell_val(
            f[slot],
        )
}

/// The machine runs a function on numbers as it was read: it comes to a return
/// of the number the function means, or of nothing where it means nothing. Its
/// host answers a sum, and a call of a function of numbers, with what they come
/// to.
pub proof fn lemma_machine_means_the_same(
    q: Sums,
    n: nat,
    def: FuncDef,
    f: Map<u16, Cell>,
    m: Mach,
)
    requires
        plain_body(def.body),
        codegen::g_function(def).bad is None,
        entered(m, def, f),
    ensures
        exists|k: nat|
            comes_to(
                m,
                #[trigger] sums::after(q, m, k),
                meaning::t_block(q, n, f, def.body, !unit::valueless(def.body)),
            ),
{
    reveal(codegen::g_function);
    reveal(codegen::g_block_ret);
    let g = codegen::g_new(def.n_slots as nat, def.upvals@.len());
    let g0 = codegen::g_params(g, def.param_bindings@);
    let h = codegen::g_function(def);
    assert(h == codegen::g_block_ret(g0, def.body));
    lemma_body_came(g0, def.body);
    lemma_params(g, def.param_bindings@);
    assert(g0 == g && g.bad is None);
    assert(sums::fit(g));
    lemma_body_came(g, def.body);
    let p = machine::cur(m);
    assert(sums::has_code(p, g, h)) by {
        assert forall|i: int| g.code.len() <= i < h.code.len() implies #[trigger] p.code[i]
            == bytecode::specialised(h.code[i]) by {}
    }
    let k = lemma_run_body(q, n, f, g, def.body, !unit::valueless(def.body), m);
    assert(comes_to(
        m,
        sums::after(q, m, k),
        meaning::t_block(q, n, f, def.body, !unit::valueless(def.body)),
    ));
}

/// The result of a function on numbers is the same either way: where the code
/// it is compiled to ends in a number, or in none, the machine comes to a
/// return of the same.
pub proof fn lemma_same_either_way(
    q: Sums,
    n: nat,
    def: FuncDef,
    upval: Option<u16>,
    global: Option<Seq<char>>,
    cs: Seq<Callable>,
    f: Map<u16, Cell>,
    m: Mach,
)
    requires
        plain_body(def.body),
        codegen::g_function(def).bad is None,
        entered(m, def, f),
        ({
            let env = unit::function_env(def, upval, global, cs);
            let s = unit::function_start(def, env);
            &&& faithful::numbers_only(env)
            &&& faithful::tied(q, env)
            &&& faithful::placed_block(s.known, s.flags, def.body)
            &&& faithful::held(s.known, s.flags, f)
        }),
        unit::unit_of(def, upval, global, cs) is Ok,
        q.direct == unit::unit_of(def, upval, global, cs)->Ok_0.inlined,
        !faithful::open_end(meaning::t_block(q, n, f, def.body, !unit::valueless(def.body))),
    ensures
        exists|k: nat|
            comes_to(
                m,
                #[trigger] sums::after(q, m, k),
                meaning::i_block(
                    q,
                    n,
                    meaning::carry(f),
                    unit::unit_of(def, upval, global, cs)->Ok_0.code.body,
                ),
            ),
{
    lemma_machine_means_the_same(q, n, def, f, m);
    faithful::lemma_function_means_the_same(q, n, def, upval, global, cs, f);
    let a = meaning::t_block(q, n, f, def.body, !unit::valueless(def.body));
    let k = choose|k: nat| comes_to(m, #[trigger] sums::after(q, m, k), a);
    let b = meaning::i_block(
        q,
        n,
        meaning::carry(f),
        unit::unit_of(def, upval, global, cs)->Ok_0.code.body,
    );
    assert(b == faithful::image(Seq::empty(), a));
    assert(comes_to(m, sums::after(q, m, k), b));
}

// ---- a loop ------------------------------------------------------------------------------

/// A loop on numbers leaves the same in the locals either way: where the code it
/// is compiled to is done, the machine, at the top of the loop with the same
/// locals, comes to its end with the same in them.
pub proof fn lemma_loop_same_either_way(
    q: Sums,
    n: nat,
    st: Stat,
    upval: Option<u16>,
    global: Option<Seq<char>>,
    cs: Seq<Callable>,
    f: Map<u16, Cell>,
    g: Gen,
    m: Mach,
    aim: Aim,
)
    requires
        st is While || st is Loop,
        running::is_plain(st),
        running::before(m, g, codegen::g_stat(g, st), f, aim),
        faithful::numbers_only(unit::loop_env(st, upval, global, cs)),
        faithful::tied(q, unit::loop_env(st, upval, global, cs)),
        ({
            let s = unit::start(slots::slot_seq(st), unit::loop_flags(st), None);
            &&& faithful::held(s.known, s.flags, f)
            &&& faithful::placed_stat(s.known, s.flags, st)
        }),
        unit::loop_of(st, upval, global, cs) is Ok,
        q.direct == unit::loop_of(st, upval, global, cs)->Ok_0.inlined,
        meaning::t_stat(q, n, f, st) is Done,
    ensures
        match unit::loop_of(st, upval, global, cs)->Ok_0.body {
            LoopBody::Whole(x) => exists|k: nat, f1: Map<u16, Cell>|
                meaning::i_stat(q, n, meaning::carry(f), x) == Ends::<Map<u16, u64>>::Done(
                    meaning::carry(f1),
                ) && #[trigger] running::at(
                    m,
                    sums::after(q, m, k),
                    g,
                    f1,
                    codegen::g_stat(g, st).code.len() as int,
                ),
            LoopBody::Count { .. } => false,
        },
{
    faithful::lemma_loop_means_the_same(q, n, st, upval, global, cs, f);
    let k = following::lemma_follow_stat(q, n, f, g, st, m, aim);
    let f1 = meaning::t_stat(q, n, f, st)->Done_0;
    assert(running::at(
        m,
        sums::after(q, m, k),
        g,
        f1,
        codegen::g_stat(g, st).code.len() as int,
    ));
}

/// A counted loop leaves the same in the locals either way. The machine stands
/// at the top of its body with the counter where it stands, which is where
/// compiled code takes a loop over, and its limit is what the bound comes to.
pub proof fn lemma_count_same_either_way(
    q: Sums,
    n: nat,
    st: Stat,
    upval: Option<u16>,
    global: Option<Seq<char>>,
    cs: Seq<Callable>,
    f: Map<u16, Cell>,
    g: Gen,
    exits: Seq<usize>,
    limit: u16,
    gb: Gen,
    m: Mach,
    aim: Aim,
)
    requires
        faithful::numbers_only(unit::loop_env(st, upval, global, cs)),
        faithful::tied(q, unit::loop_env(st, upval, global, cs)),
        unit::loop_of(st, upval, global, cs) is Ok,
        q.direct == unit::loop_of(st, upval, global, cs)->Ok_0.inlined,
        sums::clean(m),
        !m.jit,
        m.pc == g.code.len(),
        sums::in_regs(m, g.n_slots, f),
        sums::has_room(m, gb),
        ({
            let s = unit::start(slots::slot_seq(st), unit::loop_flags(st), None);
            &&& faithful::held(s.known, s.flags, f)
            &&& match st {
                Stat::ForRange { id, var, binding: Some(b), start, end, inclusive, body } => {
                    &&& s.known.contains(b.slot)
                    &&& !lowering::flag(s.flags, b.slot)
                    &&& faithful::placed(s.known, s.flags, end)
                    &&& faithful::placed_block(s.known, s.flags, body)
                    &&& following::counts(
                        machine::cur(m),
                        g,
                        exits,
                        b.slot,
                        limit,
                        inclusive,
                        body,
                        gb,
                    )
                    &&& meaning::t_expr(q, n, f, end) matches Ends::Num(w, f1) && f1 == f
                        && machine::reg(m, limit) == Val::Num(w) && meaning::t_count(
                        q,
                        n,
                        f,
                        b.slot,
                        w,
                        inclusive,
                        body,
                    ) is Done && (meaning::t_local(f, b.slot) matches Ends::Num(x, _)
                        && meaning::goes_round(x, w, inclusive))
                },
                _ => false,
            }
        }),
    ensures
        match unit::loop_of(st, upval, global, cs)->Ok_0.body {
            LoopBody::Count { slot, end: x, inclusive, label, body } => {
                match meaning::i_num(q, n, meaning::carry(f), x) {
                    Ends::Num(w, r) => exists|k: nat, f1: Map<u16, Cell>|
                        meaning::i_count(q, n, r, slot, w, inclusive, label, body) == Ends::<
                            Map<u16, u64>,
                        >::Done(meaning::carry(f1)) && #[trigger] running::at(
                            m,
                            sums::after(q, m, k),
                            following::below(g, limit),
                            f1,
                            gb.code.len() as int + 1,
                        ),
                    _ => false,
                }
            },
            LoopBody::Whole(_) => false,
        },
{
    faithful::lemma_loop_means_the_same(q, n, st, upval, global, cs, f);
    match st {
        Stat::ForRange { id, var, binding, start, end, inclusive, body } => {
            let b = binding->Some_0;
            let w = meaning::t_expr(q, n, f, end)->Num_0;
            let k = following::lemma_follow_count(
                q,
                n,
                f,
                g,
                exits,
                b.slot,
                limit,
                w,
                inclusive,
                body,
                gb,
                m,
                aim,
            );
            let f1 = meaning::t_count(q, n, f, b.slot, w, inclusive, body)->Done_0;
            assert(running::at(
                m,
                sums::after(q, m, k),
                following::below(g, limit),
                f1,
                gb.code.len() as int + 1,
            ));
        },
        _ => {},
    }
}

} // verus!
