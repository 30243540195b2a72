//! What code each piece of syntax becomes.
//!
//! A `Gen` is a function being compiled: the code so far and the tables it
//! refers to, the registers in use, and the loops it is inside of. Every
//! function here says how one piece of syntax moves it on.
use crate::ast;
use crate::ast::{Arm, BinOp, Binding, Block, Expr, FuncDef, Pattern, Stat, UnOp};
use crate::bytecode;
use crate::bytecode::{BinKind, Op, ParamSlot, ProtoView, MULTI, NO_METHOD};
use crate::value;
use crate::value::Val;
use vstd::prelude::*;

verus! {

/// Why a function has no bytecode.
#[derive(Clone, Copy, Debug, PartialEq, Eq, Structural)]
pub enum Fault {
    /// It needs more registers, constants, names, loops or instructions than
    /// an instruction can number.
    TooLarge,
    /// A name in it was never given a place: the resolver has not been here.
    Unresolved,
}

/// The jumps of one loop that wait for their target.
#[verifier::ext_equal]
pub struct LoopGen {
    pub breaks: Seq<usize>,
    pub continues: Seq<usize>,
}

/// A function being compiled.
#[verifier::ext_equal]
pub struct Gen {
    pub code: Seq<Op>,
    pub lines: Seq<u32>,
    pub consts: Seq<Val>,
    pub protos: Seq<ProtoView>,
    pub globals: Seq<Seq<char>>,
    pub hints: nat,
    pub caches: nat,
    /// The first register not in use.
    pub free: u16,
    /// The most registers that were ever in use.
    pub max_regs: u16,
    pub loops: Seq<LoopGen>,
    pub line: u32,
    /// The first thing that went wrong.
    pub bad: Option<Fault>,
    /// How many slots the locals take, and how many variables are captured.
    pub n_slots: u16,
    pub n_upvals: nat,
}

#[verifier::opaque]
pub open spec fn fail(g: Gen, f: Fault) -> Gen {
    Gen {
        bad: if g.bad is Some {
            g.bad
        } else {
            Some(f)
        },
        ..g
    }
}

// ---- registers, constants and names --------------------------------------------

/// Take the next register.
#[verifier::opaque]
pub open spec fn g_alloc(g: Gen) -> (Gen, u16) {
    if g.free == u16::MAX {
        (fail(g, Fault::TooLarge), g.free)
    } else {
        (
            Gen {
                free: (g.free + 1) as u16,
                max_regs: if g.free + 1 > g.max_regs {
                    (g.free + 1) as u16
                } else {
                    g.max_regs
                },
                ..g
            },
            g.free,
        )
    }
}

/// Take `n` registers in a row.
#[verifier::opaque]
pub open spec fn g_allocs(g: Gen, n: nat) -> Gen
    decreases n,
{
    if n == 0 {
        g
    } else {
        g_allocs(g_alloc(g).0, (n - 1) as nat)
    }
}

#[verifier::opaque]
pub open spec fn g_release(g: Gen, mark: u16) -> Gen {
    Gen { free: mark, ..g }
}

/// A local's slot has to be one of the frame's.
#[verifier::opaque]
pub open spec fn g_slot(g: Gen, slot: u16) -> Gen {
    if slot < g.n_slots {
        g
    } else {
        fail(g, Fault::Unresolved)
    }
}

#[verifier::opaque]
pub open spec fn g_upval(g: Gen, i: u16) -> Gen {
    if i < g.n_upvals {
        g
    } else {
        fail(g, Fault::Unresolved)
    }
}

/// A number of values, when an instruction can hold it.
#[verifier::opaque]
pub open spec fn g_count(g: Gen, n: nat) -> (Gen, u16) {
    if n < MULTI {
        (g, n as u16)
    } else {
        (fail(g, Fault::TooLarge), 0)
    }
}

/// The register `i` above `base`.
#[verifier::opaque]
pub open spec fn g_plus(g: Gen, base: u16, i: nat) -> (Gen, u16) {
    if base + i <= u16::MAX {
        (g, (base + i) as u16)
    } else {
        (fail(g, Fault::TooLarge), base)
    }
}

/// The first constant from `i` on that equals `v`.
#[verifier::opaque]
pub open spec fn find_const(consts: Seq<Val>, v: Val, i: nat) -> nat
    decreases consts.len() - i,
{
    if i >= consts.len() {
        consts.len()
    } else if value::same_val(consts[i as int], v) {
        i
    } else {
        find_const(consts, v, i + 1)
    }
}

/// The number of a constant: the one it has, or the next.
#[verifier::opaque]
pub open spec fn g_const(g: Gen, v: Val) -> (Gen, u16) {
    let at = find_const(g.consts, v, 0);
    if at < g.consts.len() {
        (g, at as u16)
    } else if g.consts.len() < MULTI {
        (Gen { consts: g.consts.push(v), ..g }, g.consts.len() as u16)
    } else {
        (fail(g, Fault::TooLarge), 0)
    }
}

#[verifier::opaque]
pub open spec fn g_maybe_const(g: Gen, v: Option<Val>) -> (Gen, Option<u16>) {
    match v {
        Some(v) => {
            let (g1, k) = g_const(g, v);
            (g1, Some(k))
        },
        None => (g, None),
    }
}

#[verifier::opaque]
pub open spec fn find_global(globals: Seq<Seq<char>>, name: Seq<char>, i: nat) -> nat
    decreases globals.len() - i,
{
    if i >= globals.len() {
        globals.len()
    } else if globals[i as int] == name {
        i
    } else {
        find_global(globals, name, i + 1)
    }
}

/// The number of a global name: the one it has, or the next.
#[verifier::opaque]
pub open spec fn g_global(g: Gen, name: Seq<char>) -> (Gen, u16) {
    let at = find_global(g.globals, name, 0);
    if at < g.globals.len() {
        (g, at as u16)
    } else if g.globals.len() < MULTI {
        (Gen { globals: g.globals.push(name), ..g }, g.globals.len() as u16)
    } else {
        (fail(g, Fault::TooLarge), 0)
    }
}

/// A fresh iteration counter for a loop.
#[verifier::opaque]
pub open spec fn g_hint(g: Gen) -> (Gen, u16) {
    if g.hints < MULTI {
        (Gen { hints: g.hints + 1, ..g }, g.hints as u16)
    } else {
        (fail(g, Fault::TooLarge), 0)
    }
}

/// A fresh cache for one constant field read.
#[verifier::opaque]
pub open spec fn g_cache(g: Gen) -> (Gen, u16) {
    if g.caches < MULTI {
        (Gen { caches: g.caches + 1, ..g }, g.caches as u16)
    } else {
        (fail(g, Fault::TooLarge), 0)
    }
}

// ---- instructions and jumps ----------------------------------------------------

#[verifier::opaque]
pub open spec fn g_emit(g: Gen, op: Op) -> Gen {
    if g.code.len() < u32::MAX {
        Gen { code: g.code.push(op), lines: g.lines.push(g.line), ..g }
    } else {
        fail(g, Fault::TooLarge)
    }
}

/// Where the next instruction will be.
pub open spec fn here(g: Gen) -> u32 {
    g.code.len() as u32
}

/// A jump, pointed somewhere else.
pub open spec fn retarget(op: Op, t: u32) -> Op {
    match op {
        Op::Jump { to } => Op::Jump { to: t },
        Op::JumpIfFalse { cond, to } => Op::JumpIfFalse { cond, to: t },
        Op::JumpIfTrue { cond, to } => Op::JumpIfTrue { cond, to: t },
        Op::JumpIfNot { kind, a, b, to } => Op::JumpIfNot { kind, a, b, to: t },
        Op::JumpIfNotK { kind, a, k, to } => Op::JumpIfNotK { kind, a, k, to: t },
        Op::IterNext { iter, base, count, exit } => Op::IterNext { iter, base, count, exit: t },
        other => other,
    }
}

#[verifier::opaque]
pub open spec fn g_patch_to(g: Gen, at: usize, t: u32) -> Gen {
    if at < g.code.len() {
        Gen { code: g.code.update(at as int, retarget(g.code[at as int], t)), ..g }
    } else {
        g
    }
}

/// Point a run of jumps at one place.
#[verifier::opaque]
pub open spec fn g_patch_all_to(g: Gen, ats: Seq<usize>, t: u32) -> Gen
    decreases ats.len(),
{
    if ats.len() == 0 {
        g
    } else {
        g_patch_all_to(g_patch_to(g, ats[0], t), ats.drop_first(), t)
    }
}

/// Point a run of jumps at the next instruction.
#[verifier::opaque]
pub open spec fn g_patch_all(g: Gen, ats: Seq<usize>) -> Gen {
    g_patch_all_to(g, ats, here(g))
}

/// A back edge points past the loop, for when the JIT takes it over.
#[verifier::opaque]
pub open spec fn g_patch_hint(g: Gen, at: nat) -> Gen {
    if at < g.code.len() {
        Gen {
            code: g.code.update(
                at as int,
                match g.code[at as int] {
                    Op::JumpBack { to, id, hint, exit } => Op::JumpBack {
                        to,
                        id,
                        hint,
                        exit: here(g),
                    },
                    other => other,
                },
            ),
            ..g
        }
    } else {
        g
    }
}

/// Enter a loop whose first breaks are already there.
#[verifier::opaque]
pub open spec fn g_enter(g: Gen, breaks: Seq<usize>) -> Gen {
    Gen { loops: g.loops.push(LoopGen { breaks, continues: Seq::empty() }), ..g }
}

/// Leave the innermost loop.
#[verifier::opaque]
pub open spec fn g_leave(g: Gen) -> (Gen, LoopGen) {
    if g.loops.len() == 0 {
        (g, LoopGen { breaks: Seq::empty(), continues: Seq::empty() })
    } else {
        (Gen { loops: g.loops.drop_last(), ..g }, g.loops.last())
    }
}

#[verifier::opaque]
pub open spec fn g_break(g: Gen) -> Gen {
    if g.loops.len() == 0 {
        g_emit(g, Op::Nil { dst: 0 })
    } else {
        let g1 = g_emit(g, Op::Jump { to: 0 });
        let l = g.loops.last();
        Gen {
            loops: g.loops.update(
                g.loops.len() - 1,
                LoopGen { breaks: l.breaks.push(g.code.len() as usize), continues: l.continues },
            ),
            ..g1
        }
    }
}

#[verifier::opaque]
pub open spec fn g_continue(g: Gen) -> Gen {
    if g.loops.len() == 0 {
        g_emit(g, Op::Nil { dst: 0 })
    } else {
        let g1 = g_emit(g, Op::Jump { to: 0 });
        let l = g.loops.last();
        Gen {
            loops: g.loops.update(
                g.loops.len() - 1,
                LoopGen { breaks: l.breaks, continues: l.continues.push(g.code.len() as usize) },
            ),
            ..g1
        }
    }
}

// ---- small questions about syntax ------------------------------------------------

/// The register a plain local already lives in.
pub open spec fn plain_reg_of(e: Expr) -> Option<u16> {
    match e {
        Expr::Local(b, _) => if b.cell {
            None
        } else {
            Some(b.slot)
        },
        _ => None,
    }
}

/// A literal number.
pub open spec fn num_literal(e: Expr) -> Option<Val> {
    match e {
        Expr::Num(n) => Some(Val::Num(n)),
        _ => None,
    }
}

/// A literal index: `t[3]` or `t.field`.
pub open spec fn key_literal(e: Expr) -> Option<Val> {
    match e {
        Expr::Num(n) => Some(Val::Num(n)),
        Expr::Str(s) => Some(Val::Str(s@)),
        _ => None,
    }
}

/// A literal that a comparison can take directly.
pub open spec fn any_literal(e: Expr) -> Option<Val> {
    match e {
        Expr::Num(n) => Some(Val::Num(n)),
        Expr::Str(s) => Some(Val::Str(s@)),
        Expr::Bool(b) => Some(Val::Bool(b)),
        Expr::Nil => Some(Val::Nil),
        _ => None,
    }
}

/// The instruction of an operator that does not branch.
pub open spec fn kind_of(op: BinOp) -> Option<BinKind> {
    match op {
        BinOp::Add => Some(BinKind::Add),
        BinOp::Sub => Some(BinKind::Sub),
        BinOp::Mul => Some(BinKind::Mul),
        BinOp::Div => Some(BinKind::Div),
        BinOp::Rem => Some(BinKind::Rem),
        BinOp::Eq => Some(BinKind::Eq),
        BinOp::Ne => Some(BinKind::Ne),
        BinOp::Lt => Some(BinKind::Lt),
        BinOp::Le => Some(BinKind::Le),
        BinOp::Gt => Some(BinKind::Gt),
        BinOp::Ge => Some(BinKind::Ge),
        BinOp::And => None,
        BinOp::Or => None,
    }
}

#[verifier::opaque]
pub open spec fn g_kind(g: Gen, op: BinOp) -> (Gen, BinKind) {
    match kind_of(op) {
        Some(k) => (g, k),
        None => (fail(g, Fault::Unresolved), BinKind::Add),
    }
}

/// The comparison an operator is, if it is one.
pub open spec fn comparison(op: BinOp) -> Option<BinKind> {
    match kind_of(op) {
        Some(k) => if bytecode::compares(k) {
            Some(k)
        } else {
            None
        },
        None => None,
    }
}

/// How many parts a chain of `+` leaning left has.
pub open spec fn spine_len(e: Expr) -> nat
    decreases e,
{
    match e {
        Expr::Bin(BinOp::Add, a, _) => spine_len(*a) + 1,
        _ => 1,
    }
}

/// Where a chain of `+` leaning left begins.
pub open spec fn spine_root(e: Expr) -> Expr
    decreases e,
{
    match e {
        Expr::Bin(BinOp::Add, a, _) => spine_root(*a),
        _ => e,
    }
}

/// A string interpolation: a left leaning chain of `+` rooted in a string
/// literal, so that every step of it concatenates. Two parts are one
/// allocation either way, and the count is a byte.
pub open spec fn interpolates(e: Expr) -> bool {
    spine_root(e) is Str && 3 <= spine_len(e) <= 255
}

// ---- statements ------------------------------------------------------------------

pub open spec fn lines_from(lines: Seq<u32>, i: nat) -> Seq<u32> {
    if i <= lines.len() {
        lines.skip(i as int)
    } else {
        Seq::empty()
    }
}

pub open spec fn line_at(lines: Seq<u32>, otherwise: u32) -> u32 {
    if lines.len() > 0 {
        lines[0]
    } else {
        otherwise
    }
}

#[verifier::opaque]
pub open spec fn g_stats(g: Gen, stats: Seq<Stat>, lines: Seq<u32>) -> Gen
    decreases stats, 9int,
{
    if stats.len() == 0 {
        g
    } else {
        let g1 = g_stat(Gen { line: line_at(lines, g.line), ..g }, stats[0]);
        g_stats(g1, stats.drop_first(), lines_from(lines, 1))
    }
}

#[verifier::opaque]
pub open spec fn g_tail_line(g: Gen, line: u32) -> Gen {
    if line > 0 {
        Gen { line, ..g }
    } else {
        g
    }
}

/// A block; its value lands in `dst` if there is one.
#[verifier::opaque]
pub open spec fn g_block(g: Gen, b: Block, dst: Option<u16>) -> Gen
    decreases b, 9int,
{
    let g1 = g_stats(g, b.stats@, b.lines@);
    match b.tail {
        Some(e) => {
            let g2 = g_tail_line(g1, b.tail_line);
            match dst {
                Some(d) => g_expr(g2, *e, d),
                None => {
                    let (g3, tmp) = g_alloc(g2);
                    g_release(g_expr(g3, *e, tmp), g2.free)
                },
            }
        },
        None => match dst {
            Some(d) => g_emit(g1, Op::Nil { dst: d }),
            None => g1,
        },
    }
}

#[verifier::opaque]
pub open spec fn g_store_binding(g: Gen, b: Binding, src: u16) -> Gen {
    let g1 = g_slot(g, b.slot);
    if b.cell {
        g_emit(g1, Op::NewCell { slot: b.slot, src })
    } else if b.slot != src {
        g_emit(g1, Op::Move { dst: b.slot, src })
    } else {
        g1
    }
}

/// Bindings take the values from `base` up; those beyond `n` take nil.
#[verifier::opaque]
pub open spec fn g_store_bindings(g: Gen, bs: Seq<Binding>, base: u16, i: nat, n: nat) -> Gen
    decreases bs.len(),
{
    if bs.len() == 0 {
        g
    } else {
        let g1 = if i < n {
            let (g2, r) = g_plus(g, base, i);
            g_store_binding(g2, bs[0], r)
        } else {
            let (g2, r) = g_alloc(g);
            g_store_binding(g_emit(g2, Op::Nil { dst: r }), bs[0], r)
        };
        g_store_bindings(g1, bs.drop_first(), base, i + 1, n)
    }
}

/// Each value in a fresh register, in order.
#[verifier::opaque]
pub open spec fn g_exprs(g: Gen, es: Seq<Expr>) -> Gen
    decreases es, 9int,
{
    if es.len() == 0 {
        g
    } else {
        let (g1, r) = g_alloc(g);
        g_exprs(g_expr(g1, es[0], r), es.drop_first())
    }
}

/// Targets take the values from `base` up; those beyond `n` take nil.
#[verifier::opaque]
pub open spec fn g_stores(g: Gen, ts: Seq<Expr>, base: u16, i: nat, n: nat) -> Gen
    decreases ts, 9int,
{
    if ts.len() == 0 {
        g
    } else {
        let g1 = if i < n {
            let (g2, r) = g_plus(g, base, i);
            g_store(g2, ts[0], r)
        } else {
            let (g2, r) = g_alloc(g);
            g_store(g_emit(g2, Op::Nil { dst: r }), ts[0], r)
        };
        g_stores(g1, ts.drop_first(), base, i + 1, n)
    }
}

/// `let` and its values: evaluate, then move into the slots (as a fresh cell
/// when something captures one).
#[verifier::opaque]
pub open spec fn g_bind(g: Gen, bs: Seq<Binding>, es: Seq<Expr>) -> Gen
    decreases es, 10int,
{
    let mark = g.free;
    let g1 = if bs.len() == 1 && es.len() == 1 {
        if bs[0].cell {
            let (g2, tmp) = g_alloc(g);
            g_emit(g_slot(g_expr(g2, es[0], tmp), bs[0].slot), Op::NewCell {
                slot: bs[0].slot,
                src: tmp,
            })
        } else {
            g_expr(g_slot(g, bs[0].slot), es[0], bs[0].slot)
        }
    } else if es.len() == 1 && bs.len() > 1 && ast::is_call_spec(es[0]) {
        let (g2, n) = g_count(g_allocs(g, bs.len()), bs.len());
        g_store_bindings(g_call(g2, es[0], mark, n), bs, mark, 0, bs.len())
    } else {
        g_store_bindings(g_exprs(g, es), bs, mark, 0, es.len())
    };
    g_release(g1, mark)
}

/// The end of a loop: its continues, its back edge and its breaks.
#[verifier::opaque]
pub open spec fn g_close_loop(g: Gen, top: u32, id: u32) -> Gen {
    let (g1, ctx) = g_leave(g);
    let (g2, hint) = g_hint(g_patch_all_to(g1, ctx.continues, top));
    let g3 = g_emit(g2, Op::JumpBack { to: top, id, hint, exit: 0 });
    g_patch_hint(g_patch_all(g3, ctx.breaks), g2.code.len())
}

#[verifier::opaque]
pub open spec fn g_stat(g: Gen, s: Stat) -> Gen
    decreases s, 9int,
{
    match s {
        Stat::LetSlots(bs, es) => g_bind(g, bs@, es@),
        Stat::FnSlot(_, _) => g_fn_slot(g, s),
        Stat::Assign(_, _) => g_assign(g, s),
        Stat::OpAssign(_, _, _) => g_op_assign(g, s),
        Stat::Expr(_) => g_expr_stat(g, s),
        Stat::While(_, _, _) => g_while(g, s),
        Stat::Loop(_, _) => g_loop(g, s),
        Stat::ForRange { .. } => g_for_range(g, s),
        Stat::ForIn { .. } => g_for_in(g, s),
        Stat::Return(_) => g_return(g, s),
        Stat::Break => g_break(g),
        Stat::Continue => g_continue(g),
        Stat::TypeAlias(_, _, _) => g,
        Stat::Let(_, _) => fail(g, Fault::Unresolved),
        Stat::FnDecl(_, _) => fail(g, Fault::Unresolved),
    }
}

/// `fn` bound to a local.
#[verifier::opaque]
pub open spec fn g_fn_slot(g: Gen, s: Stat) -> Gen
    decreases s, 8int,
{
    let mark = g.free;
    match s {
        Stat::FnSlot(b, f) => {
            // bind first so that the closure can capture itself, then fill it in
            let (g1, tmp) = g_alloc(g);
            let g2 = g_store_binding(g_emit(g1, Op::Nil { dst: tmp }), b, tmp);
            let g3 = g_expr(g2, f, tmp);
            g_release(
                g_emit(
                    g3,
                    if b.cell {
                        Op::SetCell { slot: b.slot, src: tmp }
                    } else {
                        Op::Move { dst: b.slot, src: tmp }
                    },
                ),
                mark,
            )
        },
        _ => g,
    }
}

/// Is a register written once, and last, when this is worked out in it?
pub open spec fn in_place(e: Expr) -> bool
    decreases e,
{
    match e {
        Expr::Nil | Expr::Bool(_) | Expr::Num(_) | Expr::Str(_) | Expr::Local(..) => true,
        Expr::Upval(..) | Expr::Global(..) | Expr::Index(..) | Expr::Range(..) => true,
        Expr::Call(..) | Expr::Method(..) => true,
        Expr::Un(_, a) => in_place(*a),
        Expr::Bin(op, _, _) => op != BinOp::And && op != BinOp::Or,
        _ => false,
    }
}

/// Assignment: every value is evaluated before any is stored.
#[verifier::opaque]
pub open spec fn g_assign(g: Gen, s: Stat) -> Gen
    decreases s, 8int,
{
    let mark = g.free;
    match s {
        Stat::Assign(ts, es) => {
            if ts@.len() == 1 && es@.len() == 1 {
                match plain_reg_of(ts@[0]) {
                    // a plain local is written in place, unless the value may
                    // read it after part of it is there
                    Some(slot) => if in_place(es@[0]) {
                        g_release(g_expr(g_slot(g, slot), es@[0], slot), mark)
                    } else {
                        let (g1, tmp) = g_alloc(g_slot(g, slot));
                        g_release(
                            g_emit(g_expr(g1, es@[0], tmp), Op::Move { dst: slot, src: tmp }),
                            mark,
                        )
                    },
                    None => {
                        let (g1, tmp) = g_alloc(g);
                        g_release(g_store(g_expr(g1, es@[0], tmp), ts@[0], tmp), mark)
                    },
                }
            } else {
                g_release(g_stores(g_exprs(g, es@), ts@, mark, 0, es@.len()), mark)
            }
        },
        _ => g,
    }
}

/// `target op= e`.
#[verifier::opaque]
pub open spec fn g_op_assign(g: Gen, s: Stat) -> Gen
    decreases s, 8int,
{
    let mark = g.free;
    match s {
        Stat::OpAssign(target, op, e) => {
            let (g0, kind) = g_kind(g, op);
            match plain_reg_of(target) {
                // `x += 1` on a plain local updates that register
                Some(slot) => {
                    let (g1, k) = g_maybe_const(g_slot(g0, slot), num_literal(e));
                    match k {
                        Some(k) => g_release(
                            g_emit(g1, Op::BinK { kind, dst: slot, a: slot, k }),
                            mark,
                        ),
                        None => {
                            let (g2, rhs) = g_operand(g1, e);
                            g_release(
                                g_emit(g2, Op::Bin { kind, dst: slot, a: slot, b: rhs }),
                                mark,
                            )
                        },
                    }
                },
                None => match target {
                    Expr::Index(obj, key) => {
                        // `t[k] += v` evaluates `t` and `k` once
                        let (g1, o) = g_operand(g0, *obj);
                        let (g2, cur) = g_alloc(g1);
                        let (g3, k) = g_maybe_const(g2, key_literal(*key));
                        match k {
                            Some(k) => {
                                let (g4, ic) = g_cache(g3);
                                let g5 = g_emit(g4, Op::GetIndexK { dst: cur, obj: o, k, ic });
                                let (g6, rhs) = g_operand(g5, e);
                                let g7 = g_emit(g6, Op::Bin { kind, dst: cur, a: cur, b: rhs });
                                g_release(g_emit(g7, Op::SetIndexK { obj: o, k, val: cur }), mark)
                            },
                            None => {
                                let (g4, kr) = g_operand(g3, *key);
                                let g5 = g_emit(g4, Op::GetIndex { dst: cur, obj: o, key: kr });
                                let (g6, rhs) = g_operand(g5, e);
                                let g7 = g_emit(g6, Op::Bin { kind, dst: cur, a: cur, b: rhs });
                                g_release(
                                    g_emit(g7, Op::SetIndex { obj: o, key: kr, val: cur }),
                                    mark,
                                )
                            },
                        }
                    },
                    _ => {
                        let (g1, cur) = g_alloc(g0);
                        let (g2, rhs) = g_operand(g_expr(g1, target, cur), e);
                        let g3 = g_emit(g2, Op::Bin { kind, dst: cur, a: cur, b: rhs });
                        g_release(g_store(g3, target, cur), mark)
                    },
                },
            }
        },
        _ => g,
    }
}

/// An expression for its effect.
#[verifier::opaque]
pub open spec fn g_expr_stat(g: Gen, s: Stat) -> Gen
    decreases s, 8int,
{
    let mark = g.free;
    match s {
        Stat::Expr(e) => {
            let (g1, tmp) = g_alloc(g);
            g_release(g_discard(g1, e, tmp), mark)
        },
        _ => g,
    }
}

/// `while`.
#[verifier::opaque]
pub open spec fn g_while(g: Gen, s: Stat) -> Gen
    decreases s, 8int,
{
    let mark = g.free;
    match s {
        Stat::While(id, cond, body) => {
            let top = here(g);
            // `while true` tests nothing
            let (g1, exits) = if cond == Expr::Bool(true) {
                (g, Seq::<usize>::empty())
            } else {
                g_cond(g, cond, true)
            };
            g_close_loop(g_block(g_enter(g1, exits), body, None), top, id)
        },
        _ => g,
    }
}

/// `loop`.
#[verifier::opaque]
pub open spec fn g_loop(g: Gen, s: Stat) -> Gen
    decreases s, 8int,
{
    let mark = g.free;
    match s {
        Stat::Loop(id, body) => {
            g_close_loop(g_block(g_enter(g, Seq::empty()), body, None), here(g), id)
        },
        _ => g,
    }
}

/// `for i in a..b`.
#[verifier::opaque]
pub open spec fn g_for_range(g: Gen, s: Stat) -> Gen
    decreases s, 8int,
{
    let mark = g.free;
    match s {
        Stat::ForRange { id, var, binding, start, end, inclusive, body } => {
            match binding {
                None => fail(g, Fault::Unresolved),
                Some(b) => {
                    // an uncaptured loop variable counts in its own slot
                    let (g1, counter) = if b.cell {
                        g_alloc(g)
                    } else {
                        (g_slot(g, b.slot), b.slot)
                    };
                    let (g2, limit) = g_alloc(g1);
                    let g3 = g_expr(g_expr(g2, start, counter), end, limit);
                    let kind = if inclusive {
                        BinKind::Le
                    } else {
                        BinKind::Lt
                    };
                    let g4 = g_emit(g3, Op::JumpIfNot { kind, a: counter, b: limit, to: 0 });
                    let top = here(g4);
                    // a captured one is fresh each turn
                    let g5 = if b.cell {
                        g_store_binding(g4, b, counter)
                    } else {
                        g4
                    };
                    let g6 = g_block(g_enter(g5, seq![g3.code.len() as usize]), body, None);
                    let (g7, ctx) = g_leave(g6);
                    let (g8, hint) = g_hint(g_patch_all(g7, ctx.continues));
                    let g9 = g_emit(
                        g8,
                        Op::ForLoop { counter, limit, to: top, id, hint, le: inclusive },
                    );
                    g_release(g_patch_all(g9, ctx.breaks), mark)
                },
            }
        },
        _ => g,
    }
}

/// `for x in iterator`.
#[verifier::opaque]
pub open spec fn g_for_in(g: Gen, s: Stat) -> Gen
    decreases s, 8int,
{
    let mark = g.free;
    match s {
        Stat::ForIn { id, vars, bindings, iter, body } => {
            let (g1, it) = g_alloc(g);
            let g2 = g_emit(g_expr(g1, iter, it), Op::IterInit { dst: it, src: it });
            // values come out into a contiguous run, then go to their slots
            let vbase = g2.free;
            let (g3, count) = g_count(g_allocs(g2, bindings@.len()), bindings@.len());
            let top = here(g3);
            let g4 = g_emit(g3, Op::IterNext { iter: it, base: vbase, count, exit: 0 });
            let g5 = g_store_bindings(g4, bindings@, vbase, 0, bindings@.len());
            let g6 = g_block(g_enter(g5, seq![g3.code.len() as usize]), body, None);
            let (g7, ctx) = g_leave(g6);
            let (g8, hint) = g_hint(g_patch_all(g7, ctx.continues));
            let g9 = g_emit(g8, Op::JumpBack { to: top, id, hint, exit: 0 });
            g_release(g_patch_hint(g_patch_all(g9, ctx.breaks), g8.code.len()), mark)
        },
        _ => g,
    }
}

/// `return`.
#[verifier::opaque]
pub open spec fn g_return(g: Gen, s: Stat) -> Gen
    decreases s, 8int,
{
    let mark = g.free;
    match s {
        Stat::Return(es) => {
            if es@.len() == 0 {
                let (g1, r) = g_alloc(g);
                g_release(g_emit(g1, Op::Ret { base: r, n: 0 }), mark)
            } else if es@.len() == 1 && ast::is_call_spec(es@[0]) {
                // `return f()` passes every value f produced
                let (g1, r) = g_alloc(g);
                g_release(
                    g_emit(g_call(g1, es@[0], r, MULTI), Op::Ret { base: r, n: MULTI }),
                    mark,
                )
            } else if es@.len() == 1 {
                match plain_reg_of(es@[0]) {
                    Some(slot) => g_emit(g_slot(g, slot), Op::Ret { base: slot, n: 1 }),
                    None => {
                        let (g1, r) = g_alloc(g);
                        g_release(g_emit(g_expr(g1, es@[0], r), Op::Ret { base: r, n: 1 }), mark)
                    },
                }
            } else {
                let (g1, n) = g_count(g_exprs(g, es@), es@.len());
                g_release(g_emit(g1, Op::Ret { base: mark, n }), mark)
            }
        },
        _ => g,
    }
}

// ---- conditions --------------------------------------------------------------------

/// A condition as branches: the jumps taken when it fails (`when_false`) or
/// when it holds, left for the caller to point somewhere.
#[verifier::opaque]
pub open spec fn g_cond(g: Gen, cond: Expr, when_false: bool) -> (Gen, Seq<usize>)
    decreases cond, 4int,
{
    match cond {
        Expr::Bin(BinOp::And, a, b) => {
            if when_false {
                // either half failing fails the whole thing
                let (g1, s1) = g_cond(g, *a, true);
                let (g2, s2) = g_cond(g1, *b, true);
                (g2, s1 + s2)
            } else {
                let (g1, skip) = g_cond(g, *a, true);
                let (g2, s) = g_cond(g1, *b, false);
                (g_patch_all(g2, skip), s)
            }
        },
        Expr::Bin(BinOp::Or, a, b) => {
            if when_false {
                let (g1, holds) = g_cond(g, *a, false);
                let (g2, s) = g_cond(g1, *b, true);
                (g_patch_all(g2, holds), s)
            } else {
                let (g1, s1) = g_cond(g, *a, false);
                let (g2, s2) = g_cond(g1, *b, false);
                (g2, s1 + s2)
            }
        },
        Expr::Un(UnOp::Not, a) => g_cond(g, *a, !when_false),
        _ => {
            let (g1, at) = g_cond_leaf(g, cond, when_false);
            (g1, seq![at])
        },
    }
}

/// The comparison a fused branch tests, if the condition is one.
#[verifier::opaque]
pub open spec fn fused(cond: Expr, when_false: bool) -> Option<BinKind> {
    match cond {
        Expr::Bin(op, _, _) => match comparison(op) {
            // jumping when it is true is jumping when its opposite is false
            Some(k) => Some(
                if when_false {
                    k
                } else {
                    bytecode::inverted(k)
                },
            ),
            None => None,
        },
        _ => None,
    }
}

/// One comparison, or one value tested for truth.
#[verifier::opaque]
pub open spec fn g_cond_leaf(g: Gen, cond: Expr, when_false: bool) -> (Gen, usize)
    decreases cond, 3int,
{
    let mark = g.free;
    match (cond, fused(cond, when_false)) {
        (Expr::Bin(op, a, b), Some(kind)) => {
            let (g1, ra) = g_operand(g, *a);
            let (g2, k) = g_maybe_const(g1, any_literal(*b));
            match k {
                Some(k) => (
                    g_release(g_emit(g2, Op::JumpIfNotK { kind, a: ra, k, to: 0 }), mark),
                    g2.code.len() as usize,
                ),
                None => {
                    let (g3, rb) = g_operand(g2, *b);
                    (
                        g_release(g_emit(g3, Op::JumpIfNot { kind, a: ra, b: rb, to: 0 }), mark),
                        g3.code.len() as usize,
                    )
                },
            }
        },
        _ => {
            let (g1, c) = g_alloc(g);
            let g2 = g_release(g_expr(g1, cond, c), mark);
            (
                g_emit(
                    g2,
                    if when_false {
                        Op::JumpIfFalse { cond: c, to: 0 }
                    } else {
                        Op::JumpIfTrue { cond: c, to: 0 }
                    },
                ),
                g2.code.len() as usize,
            )
        },
    }
}

// ---- expressions -------------------------------------------------------------------

/// A register holding `e`: the one it lives in, or a fresh one.
#[verifier::opaque]
pub open spec fn g_operand(g: Gen, e: Expr) -> (Gen, u16)
    decreases e, 3int,
{
    match plain_reg_of(e) {
        Some(slot) => (g_slot(g, slot), slot),
        None => {
            let (g1, r) = g_alloc(g);
            (g_expr(g1, e, r), r)
        },
    }
}

/// Assignment to a place that already exists.
#[verifier::opaque]
pub open spec fn g_store(g: Gen, target: Expr, src: u16) -> Gen
    decreases target, 1int,
{
    match target {
        Expr::Local(b, _) => {
            let g1 = g_slot(g, b.slot);
            if b.cell {
                g_emit(g1, Op::SetCell { slot: b.slot, src })
            } else if b.slot != src {
                g_emit(g1, Op::Move { dst: b.slot, src })
            } else {
                g1
            }
        },
        Expr::Upval(i, _) => g_emit(g_upval(g, i), Op::SetUpval { idx: i, src }),
        Expr::Global(name, _) => {
            let (g1, n) = g_global(g, name@);
            g_emit(g1, Op::SetGlobal { g: n, src })
        },
        Expr::Index(obj, key) => {
            let mark = g.free;
            let (g1, o) = g_operand(g, *obj);
            let (g2, k) = g_maybe_const(g1, key_literal(*key));
            match k {
                Some(k) => g_release(g_emit(g2, Op::SetIndexK { obj: o, k, val: src }), mark),
                None => {
                    let (g3, kr) = g_operand(g2, *key);
                    g_release(g_emit(g3, Op::SetIndex { obj: o, key: kr, val: src }), mark)
                },
            }
        },
        _ => fail(g, Fault::Unresolved),
    }
}

/// The elements of an array literal; a call in last position spreads.
#[verifier::opaque]
pub open spec fn g_items(g: Gen, items: Seq<Expr>, dst: u16) -> Gen
    decreases items, 9int,
{
    if items.len() == 0 {
        g
    } else {
        let mark = g.free;
        let (g1, tmp) = g_alloc(g);
        let g2 = if items.len() == 1 && ast::is_call_spec(items[0]) {
            g_emit(g_call(g1, items[0], tmp, MULTI), Op::AppendMulti { obj: dst })
        } else {
            g_emit(g_expr(g1, items[0], tmp), Op::Append { obj: dst, val: tmp })
        };
        g_items(g_release(g2, mark), items.drop_first(), dst)
    }
}

/// The entries of a map literal; a literal key is taken directly.
#[verifier::opaque]
pub open spec fn g_entries(g: Gen, items: Seq<(Expr, Expr)>, dst: u16) -> Gen
    decreases items, 9int,
{
    if items.len() == 0 {
        g
    } else {
        let mark = g.free;
        let (g1, k) = g_maybe_const(g, key_literal(items[0].0));
        let g2 = match k {
            Some(k) => {
                let (g3, vr) = g_alloc(g1);
                g_emit(g_expr(g3, items[0].1, vr), Op::SetIndexK { obj: dst, k, val: vr })
            },
            None => {
                let (g3, kr) = g_alloc(g1);
                let (g4, vr) = g_alloc(g_expr(g3, items[0].0, kr));
                g_emit(g_expr(g4, items[0].1, vr), Op::SetIndex { obj: dst, key: kr, val: vr })
            },
        };
        g_entries(g_release(g2, mark), items.drop_first(), dst)
    }
}

/// The parts of an interpolation, each in a fresh register, left to right.
#[verifier::opaque]
pub open spec fn g_parts(g: Gen, e: Expr) -> Gen
    decreases e, 3int,
{
    match e {
        Expr::Bin(BinOp::Add, a, b) => {
            let (g1, r) = g_alloc(g_parts(g, *a));
            g_expr(g1, *b, r)
        },
        _ => {
            let (g1, r) = g_alloc(g);
            g_expr(g1, e, r)
        },
    }
}

#[verifier::opaque]
pub open spec fn g_expr(g: Gen, e: Expr, dst: u16) -> Gen
    decreases e, 2int,
{
    match e {
        Expr::Nil => g_emit(g, Op::Nil { dst }),
        Expr::Bool(b) => {
            let (g1, k) = g_const(g, Val::Bool(b));
            g_emit(g1, Op::Const { dst, k })
        },
        Expr::Num(n) => {
            let (g1, k) = g_const(g, Val::Num(n));
            g_emit(g1, Op::Const { dst, k })
        },
        Expr::Str(s) => {
            let (g1, k) = g_const(g, Val::Str(s@));
            g_emit(g1, Op::Const { dst, k })
        },
        Expr::Local(b, _) => {
            let g1 = g_slot(g, b.slot);
            if b.cell {
                g_emit(g1, Op::GetCell { dst, slot: b.slot })
            } else if b.slot != dst {
                g_emit(g1, Op::Move { dst, src: b.slot })
            } else {
                g1
            }
        },
        Expr::Upval(i, _) => g_emit(g_upval(g, i), Op::GetUpval { dst, idx: i }),
        Expr::Global(name, _) => {
            let (g1, n) = g_global(g, name@);
            g_emit(g1, Op::GetGlobal { dst, g: n })
        },
        Expr::Index(_, _) => g_index(g, e, dst),
        Expr::Call(_, _) => g_call(g, e, dst, 1),
        Expr::Method(_, _, _) => g_call(g, e, dst, 1),
        Expr::Func(_) => g_closure(g, e, dst),
        Expr::Array(items) => g_items(g_emit(g, Op::NewTable { dst }), items@, dst),
        Expr::Entries(items) => g_entries(g_emit(g, Op::NewTable { dst }), items@, dst),
        Expr::Range(_, _, _) => g_range(g, e, dst),
        Expr::Un(_, _) => g_unary(g, e, dst),
        Expr::Bin(_, _, _) => g_binary(g, e, dst),
        Expr::Do(b) => g_block(g, b, Some(dst)),
        Expr::If(_, _) => g_if(g, e, Some(dst)),
        Expr::Match(_, _) => g_match(g, e, Some(dst)),
        Expr::Var(_) => fail(g, Fault::Unresolved),
    }
}

/// `obj[key]`.
#[verifier::opaque]
pub open spec fn g_index(g: Gen, e: Expr, dst: u16) -> Gen
    decreases e, 1int,
{
    let mark = g.free;
    match e {
        Expr::Index(obj, key) => {
            let (g1, o) = g_operand(g, *obj);
            let (g2, k) = g_maybe_const(g1, key_literal(*key));
            match k {
                Some(k) => {
                    let (g3, ic) = g_cache(g2);
                    g_release(g_emit(g3, Op::GetIndexK { dst, obj: o, k, ic }), mark)
                },
                None => {
                    let (g3, kr) = g_operand(g2, *key);
                    g_release(g_emit(g3, Op::GetIndex { dst, obj: o, key: kr }), mark)
                },
            }
        },
        _ => g,
    }
}

/// A function value.
#[verifier::opaque]
pub open spec fn g_closure(g: Gen, e: Expr, dst: u16) -> Gen
    decreases e, 1int,
{
    let mark = g.free;
    match e {
        Expr::Func(def) => {
            let f = g_function(*def);
            match f.bad {
                Some(why) => fail(g, why),
                None => if bytecode::captures_ok(def.upvals@, g.n_slots as nat, g.n_upvals) {
                    let (g1, idx) = g_count(g, g.protos.len());
                    g_emit(
                        Gen { protos: g.protos.push(proto_of(f, *def)), ..g1 },
                        Op::Closure { dst, proto: idx },
                    )
                } else {
                    fail(g, Fault::Unresolved)
                },
            }
        },
        _ => g,
    }
}

/// `a..b`.
#[verifier::opaque]
pub open spec fn g_range(g: Gen, e: Expr, dst: u16) -> Gen
    decreases e, 1int,
{
    let mark = g.free;
    match e {
        Expr::Range(a, b, inclusive) => {
            let (g1, ra) = g_alloc(g);
            let (g2, rb) = g_alloc(g_expr(g1, *a, ra));
            let g3 = g_expr(g2, *b, rb);
            g_release(g_emit(g3, Op::Range { dst, a: ra, b: rb, inclusive }), mark)
        },
        _ => g,
    }
}

/// `-a` and `!a`.
#[verifier::opaque]
pub open spec fn g_unary(g: Gen, e: Expr, dst: u16) -> Gen
    decreases e, 1int,
{
    let mark = g.free;
    match e {
        Expr::Un(UnOp::Neg, a) => g_emit(g_expr(g, *a, dst), Op::Neg { dst, a: dst }),
        Expr::Un(UnOp::Not, a) => g_emit(g_expr(g, *a, dst), Op::Not { dst, a: dst }),
        _ => g,
    }
}

/// An operator.
#[verifier::opaque]
pub open spec fn g_binary(g: Gen, e: Expr, dst: u16) -> Gen
    decreases e, 1int,
{
    let mark = g.free;
    match e {
        Expr::Bin(BinOp::And, a, b) => {
            let g1 = g_expr(g, *a, dst);
            let g2 = g_expr(g_emit(g1, Op::JumpIfFalse { cond: dst, to: 0 }), *b, dst);
            g_patch_to(g2, g1.code.len() as usize, here(g2))
        },
        Expr::Bin(BinOp::Or, a, b) => {
            let g1 = g_expr(g, *a, dst);
            let g2 = g_expr(g_emit(g1, Op::JumpIfTrue { cond: dst, to: 0 }), *b, dst);
            g_patch_to(g2, g1.code.len() as usize, here(g2))
        },
        Expr::Bin(op, a, b) => {
            if interpolates(e) {
                let (g1, r) = g_alloc(g_parts(g, *a));
                let g2 = g_expr(g1, *b, r);
                g_release(
                    g_emit(g2, Op::Concat { dst, base: mark, parts: spine_len(e) as u8 }),
                    mark,
                )
            } else {
                let (g0, kind) = g_kind(g, op);
                let (g1, ra) = g_operand(g0, *a);
                let (g2, k) = g_maybe_const(g1, num_literal(*b));
                match k {
                    Some(k) => g_release(g_emit(g2, Op::BinK { kind, dst, a: ra, k }), mark),
                    None => {
                        let (g3, rb) = g_operand(g2, *b);
                        g_release(g_emit(g3, Op::Bin { kind, dst, a: ra, b: rb }), mark)
                    },
                }
            }
        },
        _ => g,
    }
}

/// Compile for effect: no value is asked for.
#[verifier::opaque]
pub open spec fn g_discard(g: Gen, e: Expr, scratch: u16) -> Gen
    decreases e, 3int,
{
    match e {
        Expr::If(_, _) => g_if(g, e, None),
        Expr::Match(_, _) => g_match(g, e, None),
        Expr::Do(b) => g_block(g, b, None),
        Expr::Call(_, _) => g_call(g, e, scratch, 0),
        Expr::Method(_, _, _) => g_call(g, e, scratch, 0),
        _ => g_expr(g, e, scratch),
    }
}

/// The arms of an `if`: the jumps past it that each arm but the last leaves.
#[verifier::opaque]
pub open spec fn g_arms(g: Gen, arms: Seq<(Expr, Block)>, more: bool, dst: Option<u16>) -> (
    Gen,
    Seq<usize>,
)
    decreases arms, 9int,
{
    if arms.len() == 0 {
        (g, Seq::empty())
    } else {
        let (g1, next) = g_cond(g, arms[0].0, true);
        let g2 = g_block(g1, arms[0].1, dst);
        let last = arms.len() == 1 && !more;
        let g3 = if last {
            g2
        } else {
            g_emit(g2, Op::Jump { to: 0 })
        };
        let (g4, ends) = g_arms(g_patch_all(g3, next), arms.drop_first(), more, dst);
        (
            g4,
            if last {
                ends
            } else {
                seq![g2.code.len() as usize] + ends
            },
        )
    }
}

#[verifier::opaque]
pub open spec fn g_if(g: Gen, e: Expr, dst: Option<u16>) -> Gen
    decreases e, 0int,
{
    match e {
        Expr::If(arms, els) => {
            let (g1, ends) = g_arms(g, arms@, els is Some || dst is Some, dst);
            let g2 = match els {
                Some(b) => g_block(g1, b, dst),
                // an `if` with no `else` is nil when the condition fails
                None => match dst {
                    Some(d) => g_emit(g1, Op::Nil { dst: d }),
                    None => g1,
                },
            };
            g_patch_all(g2, ends)
        },
        _ => fail(g, Fault::Unresolved),
    }
}

/// The patterns of one arm: the jumps taken on a hit, and whether one of them
/// always matches.
#[verifier::opaque]
pub open spec fn g_patterns(g: Gen, ps: Seq<Pattern>, subj: u16) -> (Gen, Seq<usize>, bool)
    decreases ps, 9int,
{
    if ps.len() == 0 {
        (g, Seq::empty(), false)
    } else {
        match ps[0] {
            Pattern::Wild => (g, Seq::empty(), true),
            Pattern::Bind(_, Some(b)) => (g_store_binding(g, b, subj), Seq::empty(), true),
            Pattern::Bind(_, None) => (fail(g, Fault::Unresolved), Seq::empty(), true),
            Pattern::Lit(e) => {
                let mark = g.free;
                let (g1, lit) = g_alloc(g);
                let (g2, test) = g_alloc(g_expr(g1, e, lit));
                let g3 = g_emit(g2, Op::Bin { kind: BinKind::Eq, dst: test, a: subj, b: lit });
                let g4 = g_release(g_emit(g3, Op::JumpIfTrue { cond: test, to: 0 }), mark);
                let (g5, hits, always) = g_patterns(g4, ps.drop_first(), subj);
                (g5, seq![g3.code.len() as usize] + hits, always)
            },
        }
    }
}

/// The arms of a `match`, and the jumps past it.
#[verifier::opaque]
pub open spec fn g_match_arms(g: Gen, arms: Seq<Arm>, subj: u16, dst: Option<u16>) -> (
    Gen,
    Seq<usize>,
)
    decreases arms, 9int,
{
    if arms.len() == 0 {
        (g, Seq::empty())
    } else {
        let (g1, hits, always) = g_patterns(g, arms[0].patterns@, subj);
        // none of the literals matched: on to the next arm
        let (g2, misses) = if always {
            (g1, Seq::<usize>::empty())
        } else {
            (g_emit(g1, Op::Jump { to: 0 }), seq![g1.code.len() as usize])
        };
        let g3 = g_patch_all(g2, hits);
        let (g4, more) = match arms[0].guard {
            Some(guard) => g_cond(g3, guard, true),
            None => (g3, Seq::<usize>::empty()),
        };
        let g5 = g_block(g4, arms[0].body, dst);
        let g6 = g_patch_all(g_emit(g5, Op::Jump { to: 0 }), misses + more);
        let (g7, ends) = g_match_arms(g6, arms.drop_first(), subj, dst);
        (g7, seq![g5.code.len() as usize] + ends)
    }
}

#[verifier::opaque]
pub open spec fn g_match(g: Gen, e: Expr, dst: Option<u16>) -> Gen
    decreases e, 0int,
{
    match e {
        Expr::Match(subject, arms) => {
            let (g1, subj) = g_alloc(g);
            let (g2, ends) = g_match_arms(g_expr(g1, *subject, subj), arms@, subj, dst);
            // nothing matched
            let g3 = match dst {
                Some(d) => g_emit(g2, Op::Nil { dst: d }),
                None => g2,
            };
            g_release(g_patch_all(g3, ends), g.free)
        },
        _ => fail(g, Fault::Unresolved),
    }
}

// ---- calls -------------------------------------------------------------------------

/// A call's arguments, and whether the last of them spreads. Two locals in a
/// row are one instruction.
#[verifier::opaque]
pub open spec fn g_args(g: Gen, args: Seq<Expr>) -> (Gen, bool)
    decreases args, 9int,
{
    if args.len() == 0 {
        (g, false)
    } else if args.len() >= 2 && plain_reg_of(args[0]) is Some && plain_reg_of(args[1]) is Some {
        let (s0, s1) = (plain_reg_of(args[0])->Some_0, plain_reg_of(args[1])->Some_0);
        let (g1, d0) = g_alloc(g_slot(g_slot(g, s0), s1));
        let (g2, d1) = g_alloc(g1);
        g_args(g_emit(g2, Op::Move2 { d0, s0, d1, s1 }), args.skip(2))
    } else {
        let (g1, r) = g_alloc(g);
        if args.len() == 1 && ast::is_call_spec(args[0]) {
            (g_call(g1, args[0], r, MULTI), true)
        } else {
            g_args(g_expr(g1, args[0], r), args.drop_first())
        }
    }
}

/// The arguments and the call itself, once the window starts at `base`; also
/// the register the first result lands in.
#[verifier::opaque]
pub open spec fn g_window(g: Gen, e: Expr, base: u16, direct: u16, nres: u16) -> (Gen, u16)
    decreases e, 0int,
{
    match e {
        Expr::Call(f, args) => {
            match *f {
                // a call to a global needs no register for its callee
                Expr::Global(name, _) => {
                    let (g1, n) = g_global(g, name@);
                    if args@.len() == 1 && plain_reg_of(args@[0]) is Some {
                        // one argument, already in a register
                        let a = plain_reg_of(args@[0])->Some_0;
                        let (g2, _) = g_alloc(g_slot(g1, a));
                        (g_emit(g2, Op::CallGlobal1 { base, g: n, a, nres, dst: direct }), direct)
                    } else {
                        let (g2, spread) = g_args(g1, args@);
                        let (g3, nargs) = g_count(g2, args@.len());
                        if spread {
                            let g4 = g_emit(g3, Op::GetGlobal { dst: base, g: n });
                            (
                                g_emit(
                                    g4,
                                    Op::CallSpread {
                                        base,
                                        nargs: before(nargs),
                                        nres,
                                        method: NO_METHOD,
                                    },
                                ),
                                base,
                            )
                        } else {
                            (
                                g_emit(g3, Op::CallGlobal { base, g: n, nargs, nres, dst: direct }),
                                direct,
                            )
                        }
                    }
                },
                _ => {
                    let (g2, spread) = g_args(g_expr(g, *f, base), args@);
                    let (g3, nargs) = g_count(g2, args@.len());
                    if spread {
                        (
                            g_emit(
                                g3,
                                Op::CallSpread {
                                    base,
                                    nargs: before(nargs),
                                    nres,
                                    method: NO_METHOD,
                                },
                            ),
                            base,
                        )
                    } else {
                        (g_emit(g3, Op::Call { base, nargs, nres, dst: direct }), direct)
                    }
                },
            }
        },
        Expr::Method(obj, name, args) => {
            let (g1, recv) = g_alloc(g);
            let (g2, spread) = g_args(g_expr(g1, *obj, recv), args@);
            let (g3, k) = g_const(g2, Val::Str(name@));
            let (g4, nargs) = g_count(g3, args@.len());
            if spread {
                (g_emit(g4, Op::CallSpread { base, nargs, nres, method: k }), base)
            } else {
                (g_emit(g4, Op::Method { base, name: k, nargs, nres, dst: direct }), direct)
            }
        },
        _ => (fail(g, Fault::Unresolved), base),
    }
}

/// One less, or none.
pub open spec fn before(n: u16) -> u16 {
    if n == 0 {
        0
    } else {
        (n - 1) as u16
    }
}

/// Calls put the callee at `base` and its arguments right after it. When the
/// destination is scratch space the window goes there; a single result on its
/// way to a named local goes there directly.
#[verifier::opaque]
pub open spec fn g_call(g: Gen, e: Expr, dst: u16, nres: u16) -> Gen
    decreases e, 1int,
{
    let mark = g.free;
    let (g1, base) = if dst >= g.n_slots {
        g_alloc(g_release(g, dst))
    } else {
        g_alloc(g)
    };
    let direct = if nres == 1 && base != dst {
        dst
    } else {
        base
    };
    let (g2, out) = g_window(g1, e, base, direct, nres);
    let g3 = if nres > 0 && base != dst && out != dst {
        g_emit(g2, Op::Move { dst, src: base })
    } else {
        g2
    };
    // the result registers stay reserved
    let used = if nres == MULTI || nres == 0 {
        1
    } else {
        nres as nat
    };
    let (g4, end) = g_plus(g3, base, used);
    g_release(
        g4,
        if mark > end {
            mark
        } else {
            end
        },
    )
}

// ---- function bodies ---------------------------------------------------------------

/// A block that is a function body: its tail is what the function returns,
/// and a call in tail position passes on every value it made.
#[verifier::opaque]
pub open spec fn g_block_ret(g: Gen, b: Block) -> Gen
    decreases b, 9int,
{
    let g1 = g_tail_line(g_stats(g, b.stats@, b.lines@), b.tail_line);
    match b.tail {
        None => {
            let (g2, r) = g_alloc(g1);
            g_emit(g2, Op::Ret { base: r, n: 0 })
        },
        Some(e) => match *e {
            Expr::Call(_, _) => g_ret_call(g1, *e),
            Expr::Method(_, _, _) => g_ret_call(g1, *e),
            Expr::Do(inner) => g_block_ret(g1, inner),
            Expr::If(arms, els) => {
                let g2 = g_ret_arms(g1, arms@);
                match els {
                    Some(b) => g_block_ret(g2, b),
                    None => {
                        let (g3, r) = g_alloc(g2);
                        g_emit(g3, Op::Ret { base: r, n: 0 })
                    },
                }
            },
            _ => match plain_reg_of(*e) {
                Some(slot) => g_emit(g_slot(g1, slot), Op::Ret { base: slot, n: 1 }),
                None => {
                    let (g2, r) = g_alloc(g1);
                    g_release(g_emit(g_expr(g2, *e, r), Op::Ret { base: r, n: 1 }), g1.free)
                },
            },
        },
    }
}

/// A call in tail position.
#[verifier::opaque]
pub open spec fn g_ret_call(g: Gen, e: Expr) -> Gen
    decreases e, 3int,
{
    let (g1, r) = g_alloc(g);
    g_release(g_emit(g_call(g1, e, r, MULTI), Op::Ret { base: r, n: MULTI }), g.free)
}

/// The arms of an `if` in tail position: every branch returns for itself.
#[verifier::opaque]
pub open spec fn g_ret_arms(g: Gen, arms: Seq<(Expr, Block)>) -> Gen
    decreases arms, 9int,
{
    if arms.len() == 0 {
        g
    } else {
        let (g1, next) = g_cond(g, arms[0].0, true);
        g_ret_arms(g_patch_all(g_block_ret(g1, arms[0].1), next), arms.drop_first())
    }
}

/// A function that has no code yet.
pub open spec fn g_new(n_slots: nat, n_upvals: nat) -> Gen {
    let slots = if n_slots < u16::MAX {
        n_slots as u16
    } else {
        0u16
    };
    Gen {
        code: Seq::empty(),
        lines: Seq::empty(),
        consts: Seq::empty(),
        protos: Seq::empty(),
        globals: Seq::empty(),
        hints: 0,
        caches: 0,
        free: slots,
        max_regs: slots,
        loops: Seq::empty(),
        line: 0,
        bad: if n_slots < u16::MAX {
            None
        } else {
            Some(Fault::TooLarge)
        },
        n_slots: slots,
        n_upvals,
    }
}

/// Every parameter has a slot of the frame.
#[verifier::opaque]
pub open spec fn g_params(g: Gen, bs: Seq<Binding>) -> Gen
    decreases bs.len(),
{
    if bs.len() == 0 {
        g
    } else {
        g_params(g_slot(g, bs[0].slot), bs.drop_first())
    }
}

/// A whole function.
#[verifier::opaque]
pub open spec fn g_function(def: FuncDef) -> Gen
    decreases def, 9int,
{
    g_block_ret(
        g_params(g_new(def.n_slots as nat, def.upvals@.len()), def.param_bindings@),
        def.body,
    )
}

pub open spec fn param_slots(bs: Seq<Binding>) -> Seq<ParamSlot> {
    Seq::new(bs.len(), |i: int| ParamSlot { reg: bs[i].slot, cell: bs[i].cell })
}

/// The finished function.
pub open spec fn proto_of(g: Gen, def: FuncDef) -> ProtoView {
    ProtoView {
        name: def.name@,
        def_id: def.id,
        code: g.code.map_values(|op: Op| bytecode::specialised(op)),
        lines: g.lines,
        consts: g.consts,
        protos: g.protos,
        globals: g.globals,
        n_regs: (g.max_regs + 1) as nat,
        hints: g.hints,
        caches: g.caches,
        params: param_slots(def.param_bindings@),
        plain_params: forall|i: int|
            0 <= i < def.param_bindings@.len() ==> !(#[trigger] def.param_bindings@[i]).cell,
        upvals: def.upvals@,
    }
}

/// A finished function has a register for every parameter, that of the name it is bound
/// to, in order, and captures what its definition says.
pub proof fn lemma_a_function_keeps_its_shape(g: Gen, def: FuncDef, i: int)
    requires
        0 <= i < def.param_bindings@.len(),
    ensures
        ({
            let p = proto_of(g, def);
            &&& p.params.len() == def.param_bindings@.len()
            &&& p.params[i].reg == def.param_bindings@[i].slot
            &&& p.params[i].cell == def.param_bindings@[i].cell
            &&& p.upvals == def.upvals@
            &&& p.name == def.name@
            &&& p.code.len() == g.code.len()
            &&& p.n_regs > g.max_regs
        }),
{
}

} // verus!
