//! The machine works a sum out to what it means.
use super::faithful;
use super::ir::MathFn;
use super::lowering;
use super::meaning;
use super::meaning::{Callee, Cell, Ends, Sums};
use crate::ast;
use crate::ast::{BinOp, Expr, UnOp};
use crate::bytecode;
use crate::bytecode::{BinKind, Op, ProtoView, MULTI};
use crate::codegen;
use crate::codegen::Gen;
use crate::machine;
use crate::machine::{
    Dest, FuncView, Mach, Need, Out, Pending, Reply, Req, MAX_DEPTH, STACK_MAX,
};
use crate::num;
use crate::table;
use crate::table::TableView;
use crate::value;
use crate::value::{KeyVal, Val};
use vstd::prelude::*;

verus! {

// ---- sums ----------------------------------------------------------------------------------

/// Is there a function of numbers by that name, of so many?
pub open spec fn takes(name: Seq<char>, n: nat) -> bool {
    lowering::math_fn(name) matches Some((_, want)) && n == want + 1
}

/// A sum of locals, literals and what functions give: those of numbers, and those
/// called by a global name. The last
/// argument of a call is no call: that would pass on every value it gave.
pub open spec fn is_sum(e: Expr) -> bool
    decreases e, 1int,
{
    match e {
        Expr::Num(x) => !num::negative(x),
        Expr::Local(b, _) => !b.cell,
        Expr::Un(op, a) => op == UnOp::Neg && is_sum(*a),
        Expr::Bin(op, a, b) => lowering::arithmetic(op) && is_sum(*a) && is_sum(*b),
        Expr::Call(f, args) => are_sums(args@) && match lowering::math_name(*f) {
            Some(name) => takes(name, args@.len()),
            None => *f is Global,
        },
        Expr::Method(obj, name, args) => takes(name@, args@.len() + 1) && is_sum(*obj) && are_sums(
            args@,
        ),
        _ => false,
    }
}

/// A sum that is no call of its own.
pub open spec fn is_own(e: Expr) -> bool {
    is_sum(e) && !ast::is_call_spec(e)
}

/// Some arguments, each a sum.
pub open spec fn are_sums(es: Seq<Expr>) -> bool
    decreases es, 2int,
{
    es.len() == 0 || (is_sum(es[0]) && are_sums(es.drop_first()) && (es.len() == 1
        ==> !ast::is_call_spec(es[0])))
}

/// No constant is a negative number: a literal has no sign.
pub open spec fn unsigned(consts: Seq<Val>) -> bool {
    forall|i: int|
        0 <= i < consts.len() ==> match #[trigger] consts[i] {
            Val::Num(x) => !num::negative(x),
            _ => true,
        }
}

pub(super) proof fn lemma_sum_is_quiet(e: Expr)
    requires
        is_sum(e),
    ensures
        faithful::quiet(e),
        !codegen::interpolates(e),
    decreases e, 1int,
{
    lemma_no_text(e);
    match e {
        Expr::Un(_, a) => lemma_sum_is_quiet(*a),
        Expr::Bin(_, a, b) => {
            lemma_sum_is_quiet(*a);
            lemma_sum_is_quiet(*b);
        },
        Expr::Call(_, args) => lemma_sums_are_quiet(args@),
        Expr::Method(obj, _, args) => {
            lemma_sum_is_quiet(*obj);
            lemma_sums_are_quiet(args@);
        },
        _ => {},
    }
}

pub(super) proof fn lemma_sums_are_quiet(es: Seq<Expr>)
    requires
        are_sums(es),
    ensures
        faithful::quiet_all(es),
    decreases es, 2int,
{
    if es.len() > 0 {
        lemma_sum_is_quiet(es[0]);
        lemma_sums_are_quiet(es.drop_first());
    }
}

proof fn lemma_no_text(e: Expr)
    requires
        is_sum(e),
    ensures
        !(codegen::spine_root(e) is Str),
    decreases e,
{
    match e {
        Expr::Bin(_, a, _) => lemma_no_text(*a),
        _ => {},
    }
}

// ---- running the machine -------------------------------------------------------------------

/// The operator an instruction is for.
pub open spec fn operator(kind: BinKind) -> BinOp {
    match kind {
        BinKind::Add => BinOp::Add,
        BinKind::Sub => BinOp::Sub,
        BinKind::Mul => BinOp::Mul,
        BinKind::Div => BinOp::Div,
        BinKind::Rem => BinOp::Rem,
        BinKind::Eq => BinOp::Eq,
        BinKind::Ne => BinOp::Ne,
        BinKind::Lt => BinOp::Lt,
        BinKind::Le => BinOp::Le,
        BinKind::Gt => BinOp::Gt,
        BinKind::Ge => BinOp::Ge,
        BinKind::NotLt => BinOp::Ge,
        BinKind::NotLe => BinOp::Gt,
        BinKind::NotGt => BinOp::Le,
        BinKind::NotGe => BinOp::Lt,
    }
}

/// The numbers among some values.
pub open spec fn nums(vals: Seq<Val>) -> Seq<u64> {
    Seq::new(vals.len(), |i: int| vals[i]->Num_0)
}

/// The function of numbers a builtin is.
pub open spec fn native_fn(natives: Seq<Seq<char>>, id: usize) -> MathFn {
    lowering::math_fn(natives[id as int])->Some_0.0
}

/// The library of numbers is where the machine looks for it.
#[verifier::opaque]
pub open spec fn maths_in(
    globals: Seq<(Seq<char>, Val)>,
    tables: Seq<TableView>,
    maths: Option<usize>,
    natives: Seq<Seq<char>>,
) -> bool {
    &&& machine::global_at(globals, "math"@, 0) < globals.len()
    &&& maths matches Some(t) && t < tables.len() && machine::global_value(globals, "math"@)
        == Val::Table(t) && forall|name: Seq<char>| #[trigger]
        lowering::math_fn(name) is Some ==> match table::t_get(
            tables[t as int],
            KeyVal::Str(name),
        ) {
            Val::Native(id) => lowering::math_fn(natives[id as int]) is Some && native_fn(
                natives,
                id,
            ) == lowering::math_fn(name)->Some_0.0,
            _ => false,
        }
}

/// Does a function call anything?
#[verifier::opaque]
pub open spec fn calls_out(p: ProtoView) -> bool {
    exists|i: int| 0 <= i < p.code.len() && is_call_op(#[trigger] p.code[i])
}

pub open spec fn is_call_op(op: Op) -> bool {
    op is GetGlobal || op is Call || op is Method
}

/// A global that holds a function there is room for, which no compiled code is
/// asked for.
pub open spec fn name_fits(
    name: Seq<char>,
    globals: Seq<(Seq<char>, Val)>,
    funcs: Seq<FuncView>,
    depth: int,
    top: int,
    jit: bool,
) -> bool {
    &&& !jit
    &&& depth < MAX_DEPTH
    &&& machine::global_at(globals, name, 0) < globals.len()
    &&& machine::global_value(globals, name) matches Val::Func(f) && f < funcs.len() && top
        + funcs[f as int].proto.n_regs <= STACK_MAX
}

/// Every global a function calls holds such a function.
#[verifier::opaque]
pub open spec fn calls_fit(
    p: ProtoView,
    globals: Seq<(Seq<char>, Val)>,
    funcs: Seq<FuncView>,
    depth: int,
    top: int,
    jit: bool,
) -> bool {
    forall|i: int|
        0 <= i < p.code.len() ==> match #[trigger] p.code[i] {
            Op::CallGlobal { base, g, nargs, nres, dst } => name_fits(
                p.globals[g as int],
                globals,
                funcs,
                depth,
                top,
                jit,
            ),
            Op::CallGlobal1 { base, g, a, nres, dst } => name_fits(
                p.globals[g as int],
                globals,
                funcs,
                depth,
                top,
                jit,
            ),
            _ => true,
        }
}

/// The name an instruction calls, with what, and where the result goes.
pub open spec fn by_name(m: Mach) -> Option<(Seq<char>, Seq<Val>, Dest)> {
    match machine::cur(m).code[m.pc] {
        Op::CallGlobal { base, g, nargs, nres, dst } => Some(
            (
                machine::global_name(m, g),
                machine::window(m, base + 1, nargs as nat),
                Dest::Regs { base, nres, dst },
            ),
        ),
        Op::CallGlobal1 { base, g, a, nres, dst } => Some(
            (
                machine::global_name(m, g),
                seq![machine::reg(m, a)],
                Dest::Regs { base, nres, dst },
            ),
        ),
        _ => None,
    }
}

/// A function was entered: the state in which it has given what it gives.
pub open spec fn answered(q: Sums, m: Mach, m1: Mach) -> Mach {
    match by_name(m) {
        Some((name, args, dest)) => match meaning::called(q, Callee::Global(name), nums(args)) {
            Some(v) => machine::deliver(machine::at_line(m), dest, seq![Val::Num(v)]).0,
            None => m1,
        },
        None => m1,
    }
}

/// One step of the machine, with the sum it asks for. A call of a function that
/// gives something is one step.
#[verifier::opaque]
pub open spec fn served(q: Sums, m: Mach) -> Mach {
    let (m1, out) = machine::step(m);
    match out {
        Out::Run if m1.frames.len() > m.frames.len() => answered(q, m, m1),
        Out::Ask(Req::Compute { kind, x, y }) => machine::resume(
            m1,
            Reply::Number((q.bin)(operator(kind), x, y)),
        ).0,
        Out::Ask(Req::Native { id, args }) => machine::resume(
            m1,
            Reply::Values(seq![Val::Num((q.math)(native_fn(m.natives, id), nums(args)))]),
        ).0,
        _ => m1,
    }
}

/// Some steps of the machine.
pub open spec fn after(q: Sums, m: Mach, k: nat) -> Mach
    decreases k,
{
    if k == 0 {
        m
    } else {
        served(q, after(q, m, (k - 1) as nat))
    }
}

pub(super) proof fn lemma_after(q: Sums, m: Mach, i: nat, j: nat)
    ensures
        after(q, m, i + j) == after(q, after(q, m, i), j),
    decreases j,
{
    if j > 0 {
        lemma_after(q, m, i, (j - 1) as nat);
        assert(((i + j) - 1) as nat == i + ((j - 1) as nat));
    }
}

/// Between two instructions. Where the running function calls anything, the
/// functions of numbers are there.
pub open spec fn clean(m: Mach) -> bool {
    &&& m.pending is Idle
    &&& m.reads.len() == 0
    &&& m.shows.len() == 0
    &&& !m.declined
    &&& calls_fit(machine::cur(m), m.globals, m.funcs, m.depth, m.top, m.jit)
    &&& calls_out(machine::cur(m)) ==> maths_in(m.globals, m.tables, m.maths, m.natives) && 0
        <= m.depth <= usize::MAX
}

/// The same machine with other registers, at another instruction.
pub open spec fn moved(m: Mach, stack: Seq<Val>, pc: int) -> Mach {
    Mach { stack, pc, ..m }
}

/// The same machine but for its registers and the line of its last call, at
/// another instruction.
pub open spec fn went(m: Mach, m2: Mach, pc: int) -> bool {
    m2 == Mach { stack: m2.stack, line: m2.line, pc, ..m }
}

// ---- code in place -------------------------------------------------------------------------

/// What holds of a function while its code is compiled: everything in it can be
/// numbered, the locals have the first registers, and a jump that waits for its
/// target is there.
pub open spec fn fit(g: Gen) -> bool {
    &&& g.code.len() <= u32::MAX
    &&& g.consts.len() <= MULTI
    &&& g.globals.len() <= MULTI
    &&& unsigned(g.consts)
    &&& g.n_slots <= g.free <= g.max_regs
    &&& g.loops.len() > 0 ==> all_below(g.loops.last().breaks, g.code.len()) && all_below(
        g.loops.last().continues,
        g.code.len(),
    )
}

pub open spec fn all_below(s: Seq<usize>, n: nat) -> bool {
    forall|i: int| 0 <= i < s.len() ==> #[trigger] s[i] < n
}

/// One function being compiled is what another has become; nothing in it has
/// left a loop.
pub open spec fn came_to(g: Gen, h: Gen) -> bool {
    &&& g.bad is None
    &&& g.free == h.free
    &&& g.n_slots == h.n_slots
    &&& g.max_regs <= h.max_regs
    &&& g.loops == h.loops
    &&& g.code.len() <= h.code.len()
    &&& forall|i: int| 0 <= i < g.code.len() ==> g.code[i] == #[trigger] h.code[i]
    &&& g.consts.len() <= h.consts.len()
    &&& forall|i: int| 0 <= i < g.consts.len() ==> g.consts[i] == #[trigger] h.consts[i]
    &&& begins(g.globals, h.globals)
    &&& fit(h)
}

/// Some names come first among others.
pub open spec fn begins(a: Seq<Seq<char>>, b: Seq<Seq<char>>) -> bool {
    a.len() <= b.len() && forall|i: int| 0 <= i < a.len() ==> #[trigger] b[i] == a[i]
}

/// A finished function has the instructions that were added between two states.
pub open spec fn has_code(p: ProtoView, g: Gen, h: Gen) -> bool {
    &&& h.code.len() <= p.code.len()
    &&& forall|i: int|
        g.code.len() <= i < h.code.len() ==> #[trigger] p.code[i] == bytecode::specialised(h.code[i])
    &&& h.consts.len() <= p.consts.len()
    &&& forall|i: int| 0 <= i < h.consts.len() ==> #[trigger] p.consts[i] == h.consts[i]
    &&& begins(h.globals, p.globals)
}

/// What a local's register holds.
pub open spec fn cell_val(c: Cell) -> Val {
    match c {
        Cell::Num(x) => Val::Num(x),
        Cell::Flag(b) => Val::Bool(b),
    }
}

/// Every local is in its register.
pub open spec fn in_regs(m: Mach, n_slots: u16, f: Map<u16, Cell>) -> bool {
    forall|slot: u16| #[trigger]
        f.contains_key(slot) && slot < n_slots ==> machine::reg(m, slot) == cell_val(f[slot])
}

/// There is room for the registers.
pub open spec fn has_room(m: Mach, g: Gen) -> bool {
    0 <= m.base && m.base + g.max_regs <= m.stack.len()
}

// ---- adding instructions -------------------------------------------------------------------

pub(super) proof fn lemma_const(g: Gen, x: u64)
    requires
        !num::negative(x),
        fit(g),
        codegen::g_const(g, Val::Num(x)).0.bad is None,
    ensures
        ({
            let (h, k) = codegen::g_const(g, Val::Num(x));
            &&& came_to(g, h)
            &&& h.code == g.code
            &&& k < h.consts.len()
            &&& h.consts[k as int] == Val::Num(x)
        }),
{
    reveal(codegen::g_const);
    reveal(codegen::fail);
    lemma_found(g.consts, x, 0);
}

/// What went well, went well so far.
proof fn lemma_const_ok(g: Gen, x: u64, dst: u16)
    requires
        ({
            let (g1, k) = codegen::g_const(g, Val::Num(x));
            codegen::g_emit(g1, Op::Const { dst, k }).bad is None
        }),
    ensures
        codegen::g_const(g, Val::Num(x)).0.bad is None,
{
    reveal(codegen::g_emit);
    reveal(codegen::fail);
}

proof fn lemma_found(consts: Seq<Val>, x: u64, i: nat)
    requires
        !num::negative(x),
        unsigned(consts),
    ensures
        ({
            let at = codegen::find_const(consts, Val::Num(x), i);
            at < consts.len() ==> consts[at as int] == Val::Num(x)
        }),
    decreases consts.len() - i,
{
    reveal(codegen::find_const);
    if i < consts.len() {
        if value::same_val(consts[i as int], Val::Num(x)) {
            match consts[i as int] {
                Val::Num(y) => {
                    assert(num::magnitude(x) == num::magnitude(y));
                },
                _ => {},
            }
        } else {
            lemma_found(consts, x, i + 1);
        }
    }
}

/// What a sum is compiled to.
pub(super) proof fn lemma_of_expr(g: Gen, e: Expr, dst: u16)
    requires
        is_sum(e),
    ensures
        codegen::g_expr(g, e, dst) == match e {
            Expr::Num(x) => {
                let (g1, k) = codegen::g_const(g, Val::Num(x));
                codegen::g_emit(g1, Op::Const { dst, k })
            },
            Expr::Local(b, _) => if b.slot != dst {
                codegen::g_emit(codegen::g_slot(g, b.slot), Op::Move { dst, src: b.slot })
            } else {
                codegen::g_slot(g, b.slot)
            },
            Expr::Un(_, a) => codegen::g_emit(
                codegen::g_expr(g, *a, dst),
                Op::Neg { dst, a: dst },
            ),
            Expr::Bin(..) => codegen::g_binary(g, e, dst),
            _ => codegen::g_call(g, e, dst, 1),
        },
{
    reveal(codegen::g_expr);
    reveal(codegen::g_call);
    reveal(codegen::g_unary);
    reveal(codegen::g_binary);
    match e {
        Expr::Un(..) => {
            assert(codegen::g_expr(g, e, dst) == codegen::g_unary(g, e, dst));
        },
        _ => {},
    }
}

pub(super) proof fn lemma_of_operand(g: Gen, e: Expr)
    ensures
        codegen::g_operand(g, e) == match codegen::plain_reg_of(e) {
            Some(slot) => (codegen::g_slot(g, slot), slot),
            None => {
                let (g1, r) = codegen::g_alloc(g);
                (codegen::g_expr(g1, e, r), r)
            },
        },
{
    reveal(codegen::g_operand);
    reveal(codegen::g_expr);
}

/// An operator between two sums.
pub open spec fn is_pair(e: Expr) -> bool {
    match e {
        Expr::Bin(op, a, b) => codegen::kind_of(op) is Some && is_sum(*a) && is_sum(*b),
        _ => false,
    }
}

/// How an operator between sums is compiled.
pub open spec fn binary_parts(g: Gen, a: Expr, b: Expr) -> (Gen, u16, Gen, Option<u16>, Gen, u16) {
    let (g1, ra) = codegen::g_operand(g, a);
    let (g2, k) = codegen::g_maybe_const(g1, codegen::num_literal(b));
    let (g3, rb) = codegen::g_operand(g2, b);
    (g1, ra, g2, k, g3, rb)
}

pub(super) proof fn lemma_of_binary(g: Gen, e: Expr, dst: u16)
    requires
        is_pair(e),
    ensures
        match e {
            Expr::Bin(op, a, b) => {
                let (g1, ra, g2, k, g3, rb) = binary_parts(g, *a, *b);
                let kind = codegen::kind_of(op)->Some_0;
                &&& codegen::g_binary(g, e, dst) == match k {
                    Some(k) => codegen::g_release(
                        codegen::g_emit(g2, Op::BinK { kind, dst, a: ra, k }),
                        g.free,
                    ),
                    None => codegen::g_release(
                        codegen::g_emit(g3, Op::Bin { kind, dst, a: ra, b: rb }),
                        g.free,
                    ),
                }
            },
            _ => true,
        },
{
    reveal(codegen::g_binary);
    reveal(codegen::g_kind);
    reveal(codegen::g_operand);
    reveal(codegen::g_expr);
    reveal(codegen::g_parts);
    match e {
        Expr::Bin(op, a, _) => {
            lemma_no_text(*a);
        },
        _ => {},
    }
}

/// Where the window of a call starts.
pub open spec fn window_start(g: Gen, dst: u16) -> (Gen, u16) {
    if dst >= g.n_slots {
        codegen::g_alloc(codegen::g_release(g, dst))
    } else {
        codegen::g_alloc(g)
    }
}

/// `math::name` put in a register.
pub open spec fn looked_up(g: Gen, name: Seq<char>, dst: u16) -> Gen {
    let (g1, o) = codegen::g_alloc(g);
    let (g2, n) = codegen::g_global(g1, "math"@);
    let g3 = codegen::g_emit(g2, Op::GetGlobal { dst: o, g: n });
    let (g4, k) = codegen::g_const(g3, Val::Str(name));
    let (g5, ic) = codegen::g_cache(g4);
    codegen::g_release(codegen::g_emit(g5, Op::GetIndexK { dst, obj: o, k, ic }), g.free)
}

/// The code up to the call itself, and the call.
pub open spec fn call_parts(g: Gen, e: Expr, dst: u16, nres: u16) -> (Gen, Op) {
    let (g1, base) = window_start(g, dst);
    match e {
        Expr::Call(f, args) => if *f is Global {
            let (g2, n) = codegen::g_global(g1, (*f)->Global_0@);
            if args@.len() == 1 && codegen::plain_reg_of(args@[0]) is Some {
                let a = codegen::plain_reg_of(args@[0])->Some_0;
                (
                    codegen::g_alloc(codegen::g_slot(g2, a)).0,
                    Op::CallGlobal1 { base, g: n, a, nres, dst },
                )
            } else {
                let (g3, nargs) = codegen::g_count(codegen::g_args(g2, args@).0, args@.len());
                (g3, Op::CallGlobal { base, g: n, nargs, nres, dst })
            }
        } else {
            let g2 = looked_up(g1, lowering::math_name(*f)->Some_0, base);
            let (g3, nargs) = codegen::g_count(codegen::g_args(g2, args@).0, args@.len());
            (g3, Op::Call { base, nargs, nres, dst })
        },
        Expr::Method(obj, name, args) => {
            let (g2, recv) = codegen::g_alloc(g1);
            let g3 = codegen::g_args(codegen::g_expr(g2, *obj, recv), args@).0;
            let (g4, k) = codegen::g_const(g3, Val::Str(name@));
            let (g5, nargs) = codegen::g_count(g4, args@.len());
            (g5, Op::Method { base, name: k, nargs, nres, dst })
        },
        _ => (g, Op::Nil { dst }),
    }
}

/// How many values of a call are wanted: one, or none or all of them where the
/// window is the place for them.
pub open spec fn takes_values(g: Gen, dst: u16, nres: u16) -> bool {
    nres == 1 || ((nres == 0 || nres == MULTI) && dst >= g.n_slots)
}

/// How a function of numbers is called.
pub(super) proof fn lemma_of_call(g: Gen, e: Expr, dst: u16, nres: u16)
    requires
        takes_values(g, dst, nres),
        is_sum(e),
        ast::is_call_spec(e),
    ensures
        ({
            let (g1, base) = window_start(g, dst);
            let (g2, op) = call_parts(g, e, dst, nres);
            let (g3, end) = codegen::g_plus(codegen::g_emit(g2, op), base, 1);
            codegen::g_call(g, e, dst, nres) == codegen::g_release(
                g3,
                if g.free > end {
                    g.free
                } else {
                    end
                },
            )
        }),
{
    reveal(codegen::g_call);
    reveal(codegen::g_window);
    reveal(codegen::g_expr);
    reveal(codegen::g_args);
    reveal(codegen::g_alloc);
    reveal(codegen::g_release);
    let (g1, base) = window_start(g, dst);
    match e {
        Expr::Call(f, args) => if *f is Global {
            lemma_of_args(codegen::g_global(g1, (*f)->Global_0@).0, args@);
        } else {
            lemma_of_lookup(g1, *f, base);
            lemma_of_args(looked_up(g1, lowering::math_name(*f)->Some_0, base), args@);
        },
        Expr::Method(obj, name, args) => {
            let (g2, recv) = codegen::g_alloc(g1);
            lemma_of_args(codegen::g_expr(g2, *obj, recv), args@);
        },
        _ => {},
    }
}

proof fn lemma_of_lookup(g: Gen, f: Expr, dst: u16)
    requires
        lowering::math_name(f) is Some,
    ensures
        codegen::g_expr(g, f, dst) == looked_up(g, lowering::math_name(f)->Some_0, dst),
{
    reveal(codegen::g_expr);
    reveal(codegen::g_index);
    reveal(codegen::g_operand);
    reveal(codegen::g_maybe_const);
    match f {
        Expr::Index(obj, key) => {
            lemma_of_operand(g, *obj);
            let (g1, o) = codegen::g_alloc(g);
            assert(codegen::g_expr(g1, *obj, o) == {
                let (g2, n) = codegen::g_global(g1, "math"@);
                codegen::g_emit(g2, Op::GetGlobal { dst: o, g: n })
            });
            assert(codegen::g_expr(g, f, dst) == codegen::g_index(g, f, dst));
        },
        _ => {},
    }
}

/// Do the first two arguments go to their registers together?
pub open spec fn in_pair(es: Seq<Expr>) -> bool {
    es.len() >= 2 && codegen::plain_reg_of(es[0]) is Some && codegen::plain_reg_of(es[1]) is Some
}

/// The first two arguments put in their registers, and those.
#[verifier::opaque]
pub open spec fn paired(g: Gen, es: Seq<Expr>) -> (Gen, u16, u16) {
    let (s0, s1) = (
        codegen::plain_reg_of(es[0])->Some_0,
        codegen::plain_reg_of(es[1])->Some_0,
    );
    let (g1, d0) = codegen::g_alloc(codegen::g_slot(codegen::g_slot(g, s0), s1));
    let (g2, d1) = codegen::g_alloc(g1);
    (codegen::g_emit(g2, Op::Move2 { d0, s0, d1, s1 }), d0, d1)
}

/// How arguments are compiled.
pub(super) proof fn lemma_of_args(g: Gen, es: Seq<Expr>)
    requires
        are_sums(es),
    ensures
        codegen::g_args(g, es) == (if es.len() == 0 {
            (g, false)
        } else if in_pair(es) {
            codegen::g_args(paired(g, es).0, es.skip(2))
        } else {
            let (g1, r) = codegen::g_alloc(g);
            codegen::g_args(codegen::g_expr(g1, es[0], r), es.drop_first())
        }),
        !codegen::g_args(g, es).1,
    decreases es,
{
    reveal(paired);
    reveal(codegen::g_args);
    reveal(codegen::g_expr);
    if es.len() > 0 {
        if in_pair(es) {
            lemma_sums_from(es);
            lemma_of_args(paired(g, es).0, es.skip(2));
        } else {
            let (g1, r) = codegen::g_alloc(g);
            lemma_of_args(codegen::g_expr(g1, es[0], r), es.drop_first());
        }
    }
}

/// What follows two arguments are arguments.
proof fn lemma_sums_from(es: Seq<Expr>)
    requires
        are_sums(es),
        es.len() >= 2,
    ensures
        are_sums(es.skip(2)),
        are_sums(es.drop_first()),
        is_sum(es[0]),
        is_sum(es[1]),
{
    let rest = es.drop_first();
    assert(are_sums(rest));
    assert(rest[0] == es[1]);
    assert(rest.drop_first() =~= es.skip(2));
}

/// What has gone wrong stays so.
pub(super) proof fn lemma_sticky(g: Gen, e: Expr, dst: u16)
    requires
        is_sum(e),
        g.bad is Some,
    ensures
        codegen::g_expr(g, e, dst).bad is Some,
    decreases e, 2int,
{
    lemma_of_expr(g, e, dst);
    reveal(codegen::g_emit);
    reveal(codegen::g_slot);
    reveal(codegen::g_const);
    reveal(codegen::fail);
    match e {
        Expr::Un(_, a) => {
            lemma_sticky(g, *a, dst);
        },
        Expr::Bin(..) => {
            lemma_sticky_binary(g, e, dst);
        },
        Expr::Call(..) | Expr::Method(..) => {
            lemma_sticky_call(g, e, dst, 1);
        },
        _ => {},
    }
}

pub(super) proof fn lemma_sticky_call(g: Gen, e: Expr, dst: u16, nres: u16)
    requires
        is_sum(e),
        ast::is_call_spec(e),
        g.bad is Some,
    ensures
        codegen::g_call(g, e, dst, nres).bad is Some,
    decreases e, 1int,
{
    reveal(codegen::g_call);
    reveal(codegen::g_window);
    reveal(codegen::g_expr);
    reveal(codegen::g_args);
    reveal(codegen::g_emit);
    reveal(codegen::g_alloc);
    reveal(codegen::g_release);
    reveal(codegen::g_plus);
    reveal(codegen::fail);
    let (g1, base) = window_start(g, dst);
    match e {
        Expr::Call(f, args) => if *f is Global {
            lemma_of_args(codegen::g_global(g1, (*f)->Global_0@).0, args@);
        } else {
            lemma_of_lookup(g1, *f, base);
            lemma_of_args(looked_up(g1, lowering::math_name(*f)->Some_0, base), args@);
        },
        Expr::Method(obj, name, args) => {
            let (g2, recv) = codegen::g_alloc(g1);
            lemma_of_args(codegen::g_expr(g2, *obj, recv), args@);
        },
        _ => {},
    }
    lemma_parts_sticky(g, e, dst, nres);
}

proof fn lemma_sticky_args(g: Gen, es: Seq<Expr>)
    requires
        are_sums(es),
        g.bad is Some,
    ensures
        codegen::g_args(g, es).0.bad is Some,
    decreases es, 4int,
{
    reveal(paired);
    lemma_of_args(g, es);
    reveal(codegen::g_emit);
    reveal(codegen::g_alloc);
    reveal(codegen::g_slot);
    reveal(codegen::fail);
    if es.len() > 0 {
        if in_pair(es) {
            let (g2, _, _) = paired(g, es);
            lemma_sums_from(es);
            lemma_sticky_args(g2, es.skip(2));
        } else {
            let (g1, r) = codegen::g_alloc(g);
            lemma_sticky(g1, es[0], r);
            lemma_sticky_args(codegen::g_expr(g1, es[0], r), es.drop_first());
        }
    }
}

pub(super) proof fn lemma_sticky_operand(g: Gen, e: Expr)
    requires
        is_sum(e),
        g.bad is Some,
    ensures
        codegen::g_operand(g, e).0.bad is Some,
    decreases e, 3int,
{
    lemma_of_operand(g, e);
    reveal(codegen::g_slot);
    reveal(codegen::g_alloc);
    reveal(codegen::fail);
    if codegen::plain_reg_of(e) is None {
        let (g1, r) = codegen::g_alloc(g);
        lemma_sticky(g1, e, r);
    }
}

pub(super) proof fn lemma_sticky_binary(g: Gen, e: Expr, dst: u16)
    requires
        is_pair(e),
        g.bad is Some,
    ensures
        codegen::g_binary(g, e, dst).bad is Some,
    decreases e, 1int,
{
    lemma_of_binary(g, e, dst);
    reveal(codegen::g_release);
    reveal(codegen::g_maybe_const);
    reveal(codegen::g_const);
    reveal(codegen::g_emit);
    reveal(codegen::fail);
    match e {
        Expr::Bin(op, a, b) => {
            let (g1, _) = codegen::g_operand(g, *a);
            let (g2, _) = codegen::g_maybe_const(g1, codegen::num_literal(*b));
            lemma_sticky_operand(g, *a);
            lemma_sticky_operand(g2, *b);
        },
        _ => {},
    }
}

/// Does a sum that goes to a local's register leave the registers in use as
/// they are? A call takes one more.
pub open spec fn is_flat(e: Expr) -> bool
    decreases e,
{
    match e {
        Expr::Call(..) | Expr::Method(..) => false,
        Expr::Un(_, a) => is_flat(*a),
        _ => true,
    }
}

/// Finding a register for a sum may take one more.
pub open spec fn operand_came(g: Gen, h: Gen) -> bool {
    came_to(g, Gen { free: g.free, ..h }) && g.free <= h.free && fit(h)
}

/// What is added for a sum.
pub(super) proof fn lemma_added(g: Gen, e: Expr, dst: u16)
    requires
        is_sum(e),
        fit(g),
        codegen::g_expr(g, e, dst).bad is None,
    ensures
        operand_came(g, codegen::g_expr(g, e, dst)),
        is_flat(e) || g.n_slots <= dst < g.free ==> came_to(g, codegen::g_expr(g, e, dst)),
    decreases e, 2int,
{
    lemma_of_expr(g, e, dst);
    reveal(codegen::g_emit);
    reveal(codegen::g_slot);
    reveal(codegen::fail);
    match e {
        Expr::Num(x) => {
            lemma_const(g, x);
        },
        Expr::Un(_, a) => {
            lemma_added(g, *a, dst);
        },
        Expr::Bin(_, a, b) => {
            lemma_added_binary(g, e, dst);
        },
        Expr::Call(..) | Expr::Method(..) => {
            lemma_added_call(g, e, dst, 1);
        },
        _ => {},
    }
}

/// The steps of a call, each of which went well.
pub(super) proof fn lemma_added_call(g: Gen, e: Expr, dst: u16, nres: u16)
    requires
        takes_values(g, dst, nres),
        is_sum(e),
        ast::is_call_spec(e),
        fit(g),
        codegen::g_call(g, e, dst, nres).bad is None,
    ensures
        ({
            let h = codegen::g_call(g, e, dst, nres);
            let (g1, base) = window_start(g, dst);
            let (g2, op) = call_parts(g, e, dst, nres);
            &&& operand_came(g, h)
            &&& g.n_slots <= dst < g.free ==> h.free == g.free
            &&& fit(g1)
            &&& g2.bad is None
            &&& operand_came(g1, g2)
            &&& h.code == g2.code.push(op)
            &&& h.consts == g2.consts
            &&& h.globals == g2.globals
            &&& h.max_regs == g2.max_regs
        }),
    decreases e, 1int,
{
    lemma_of_call(g, e, dst, nres);
    reveal(codegen::g_emit);
    reveal(codegen::g_alloc);
    reveal(codegen::g_release);
    reveal(codegen::g_plus);
    reveal(codegen::fail);
    let (g1, base) = window_start(g, dst);
    let (g2, op) = call_parts(g, e, dst, nres);
    assert(g2.bad is None);
    if g1.bad is Some {
        lemma_parts_sticky(g, e, dst, nres);
    }
    lemma_call_parts(g, e, dst, nres);
}

proof fn lemma_parts_sticky(g: Gen, e: Expr, dst: u16, nres: u16)
    requires
        is_sum(e),
        ast::is_call_spec(e),
        window_start(g, dst).0.bad is Some,
    ensures
        call_parts(g, e, dst, nres).0.bad is Some,
    decreases e, 0int,
{
    reveal(codegen::g_emit);
    reveal(codegen::g_alloc);
    reveal(codegen::g_release);
    reveal(codegen::g_const);
    reveal(codegen::g_global);
    reveal(codegen::g_cache);
    reveal(codegen::g_count);
    reveal(codegen::fail);
    let (g1, base) = window_start(g, dst);
    match e {
        Expr::Call(f, args) => if *f is Global {
            reveal(codegen::g_slot);
            lemma_sticky_args(codegen::g_global(g1, (*f)->Global_0@).0, args@);
        } else {
            let g2 = looked_up(g1, lowering::math_name(*f)->Some_0, base);
            lemma_sticky_args(g2, args@);
        },
        Expr::Method(obj, name, args) => {
            let (g2, recv) = codegen::g_alloc(g1);
            lemma_sticky(g2, *obj, recv);
            lemma_sticky_args(codegen::g_expr(g2, *obj, recv), args@);
        },
        _ => {},
    }
}

/// A text among the constants.
pub(super) proof fn lemma_text_const(g: Gen, t: Seq<char>)
    requires
        fit(g),
        codegen::g_const(g, Val::Str(t)).0.bad is None,
    ensures
        ({
            let (h, k) = codegen::g_const(g, Val::Str(t));
            &&& came_to(g, h)
            &&& h.code == g.code
            &&& k < h.consts.len()
            &&& h.consts[k as int] == Val::Str(t)
        }),
{
    reveal(codegen::g_const);
    reveal(codegen::fail);
    lemma_text_found(g.consts, t, 0);
}

proof fn lemma_text_found(consts: Seq<Val>, t: Seq<char>, i: nat)
    ensures
        ({
            let at = codegen::find_const(consts, Val::Str(t), i);
            at < consts.len() ==> consts[at as int] == Val::Str(t)
        }),
    decreases consts.len() - i,
{
    reveal(codegen::find_const);
    if i < consts.len() && consts[i as int] != Val::Str(t) {
        lemma_text_found(consts, t, i + 1);
    }
}

/// A name among the globals a function touches.
proof fn lemma_name(g: Gen, name: Seq<char>)
    requires
        fit(g),
        codegen::g_global(g, name).0.bad is None,
    ensures
        ({
            let (h, n) = codegen::g_global(g, name);
            &&& came_to(g, h)
            &&& h == Gen { globals: h.globals, ..g }
            &&& n < h.globals.len()
            &&& h.globals[n as int] == name
        }),
{
    reveal(codegen::g_global);
    reveal(codegen::fail);
    lemma_name_found(g.globals, name, 0);
}

proof fn lemma_name_found(globals: Seq<Seq<char>>, name: Seq<char>, i: nat)
    ensures
        ({
            let at = codegen::find_global(globals, name, i);
            at < globals.len() ==> globals[at as int] == name
        }),
    decreases globals.len() - i,
{
    reveal(codegen::find_global);
    if i < globals.len() && globals[i as int] != name {
        lemma_name_found(globals, name, i + 1);
    }
}

/// The steps of looking a function of numbers up.
proof fn lemma_looked_up(g: Gen, name: Seq<char>, dst: u16)
    requires
        fit(g),
        looked_up(g, name, dst).bad is None,
    ensures
        ({
            let h = looked_up(g, name, dst);
            let at = g.code.len() as int;
            &&& came_to(g, h)
            &&& h.code.len() == at + 2
            &&& h.code[at] matches Op::GetGlobal { dst: o, g: n } && o == g.free && g.free
                < h.max_regs && n < h.globals.len() && h.globals[n as int] == "math"@
            &&& h.code[at + 1] matches Op::GetIndexK { dst: d, obj, k, ic } && d == dst && obj
                == g.free && k < h.consts.len() && h.consts[k as int] == Val::Str(name)
        }),
{
    reveal(codegen::g_alloc);
    reveal(codegen::g_emit);
    reveal(codegen::g_release);
    reveal(codegen::g_cache);
    reveal(codegen::fail);
    let (g1, o) = codegen::g_alloc(g);
    let (g2, n) = codegen::g_global(g1, "math"@);
    let g3 = codegen::g_emit(g2, Op::GetGlobal { dst: o, g: n });
    let (g4, k) = codegen::g_const(g3, Val::Str(name));
    if g2.bad is Some || g3.bad is Some || g1.bad is Some {
        reveal(codegen::g_const);
        reveal(codegen::g_global);
    }
    lemma_name(g1, "math"@);
    lemma_text_const(g3, name);
}

/// What is added before the call itself.
proof fn lemma_call_parts(g: Gen, e: Expr, dst: u16, nres: u16)
    requires
        is_sum(e),
        ast::is_call_spec(e),
        fit(window_start(g, dst).0),
        window_start(g, dst).0.bad is None,
        call_parts(g, e, dst, nres).0.bad is None,
    ensures
        operand_came(window_start(g, dst).0, call_parts(g, e, dst, nres).0),
    decreases e, 0int,
{
    reveal(codegen::g_count);
    reveal(codegen::g_alloc);
    reveal(codegen::fail);
    let (g1, base) = window_start(g, dst);
    match e {
        Expr::Call(f, args) => if *f is Global {
            let g2 = codegen::g_global(g1, (*f)->Global_0@).0;
            if g2.bad is Some {
                reveal(codegen::g_slot);
                lemma_sticky_args(g2, args@);
            }
            lemma_name(g1, (*f)->Global_0@);
            if args@.len() == 1 && codegen::plain_reg_of(args@[0]) is Some {
                reveal(codegen::g_slot);
            } else {
                lemma_added_args(g2, args@);
            }
        } else {
            let g2 = looked_up(g1, lowering::math_name(*f)->Some_0, base);
            if g2.bad is Some {
                lemma_sticky_args(g2, args@);
            }
            lemma_looked_up(g1, lowering::math_name(*f)->Some_0, base);
            lemma_added_args(g2, args@);
        },
        Expr::Method(obj, name, args) => {
            let (g2, recv) = codegen::g_alloc(g1);
            let g3 = codegen::g_expr(g2, *obj, recv);
            let g4 = codegen::g_args(g3, args@).0;
            if g4.bad is Some {
                reveal(codegen::g_const);
            }
            if g3.bad is Some {
                lemma_sticky_args(g3, args@);
            }
            lemma_added(g2, *obj, recv);
            lemma_added_args(g3, args@);
            lemma_text_const(g4, name@);
        },
        _ => {},
    }
}

/// Arguments take the next registers, one each.
proof fn lemma_added_args(g: Gen, es: Seq<Expr>)
    requires
        are_sums(es),
        fit(g),
        codegen::g_args(g, es).0.bad is None,
    ensures
        operand_came(g, codegen::g_args(g, es).0),
        codegen::g_args(g, es).0.free == g.free + es.len(),
    decreases es, 4int,
{
    reveal(paired);
    lemma_of_args(g, es);
    reveal(codegen::g_emit);
    reveal(codegen::g_alloc);
    reveal(codegen::g_slot);
    reveal(codegen::fail);
    if es.len() > 0 {
        if in_pair(es) {
            let (g2, _, _) = paired(g, es);
            lemma_sums_from(es);
            if g2.bad is Some {
                lemma_sticky_args(g2, es.skip(2));
            }
            lemma_added_args(g2, es.skip(2));
        } else {
            let (g1, r) = codegen::g_alloc(g);
            let g2 = codegen::g_expr(g1, es[0], r);
            if g2.bad is Some {
                lemma_sticky_args(g2, es.drop_first());
            }
            if g1.bad is Some {
                lemma_sticky(g1, es[0], r);
            }
            lemma_added(g1, es[0], r);
            lemma_added_args(g2, es.drop_first());
        }
    }
}

pub(super) proof fn lemma_added_operand(g: Gen, e: Expr)
    requires
        is_sum(e),
        fit(g),
        codegen::g_operand(g, e).0.bad is None,
    ensures
        operand_came(g, codegen::g_operand(g, e).0),
    decreases e, 3int,
{
    lemma_of_operand(g, e);
    reveal(codegen::g_slot);
    reveal(codegen::g_alloc);
    reveal(codegen::fail);
    if codegen::plain_reg_of(e) is None {
        let (g1, r) = codegen::g_alloc(g);
        lemma_added(g1, e, r);
    }
}

/// The steps of compiling an operator, each of which went well.
pub(super) proof fn lemma_parts(g: Gen, e: Expr, dst: u16)
    requires
        is_pair(e),
        fit(g),
        codegen::g_binary(g, e, dst).bad is None,
    ensures
        match e {
            Expr::Bin(op, a, b) => {
                let (g1, ra, g2, k, g3, rb) = binary_parts(g, *a, *b);
                let kind = codegen::kind_of(op)->Some_0;
                &&& g.bad is None
                &&& g1.bad is None
                &&& g2.bad is None
                &&& operand_came(g, g1)
                &&& came_to(g1, g2)
                &&& match k {
                    Some(k) => {
                        &&& *b is Num
                        &&& k < g2.consts.len()
                        &&& g2.consts[k as int] == Val::Num((*b)->Num_0)
                        &&& g2.code == g1.code
                        &&& g2.code.len() < u32::MAX
                        &&& codegen::g_binary(g, e, dst) == Gen {
                            free: g.free,
                            code: g2.code.push(Op::BinK { kind, dst, a: ra, k }),
                            lines: g2.lines.push(g2.line),
                            ..g2
                        }
                    },
                    None => {
                        &&& g2 == g1
                        &&& g3.bad is None
                        &&& operand_came(g2, g3)
                        &&& g3.code.len() < u32::MAX
                        &&& codegen::g_binary(g, e, dst) == Gen {
                            free: g.free,
                            code: g3.code.push(Op::Bin { kind, dst, a: ra, b: rb }),
                            lines: g3.lines.push(g3.line),
                            ..g3
                        }
                    },
                }
            },
            _ => true,
        },
    decreases e, 0int,
{
    lemma_of_binary(g, e, dst);
    reveal(codegen::g_release);
    reveal(codegen::g_maybe_const);
    reveal(codegen::g_emit);
    reveal(codegen::fail);
    match e {
        Expr::Bin(op, a, b) => {
            let (g1, ra, g2, k, g3, rb) = binary_parts(g, *a, *b);
            if g1.bad is Some {
                reveal(codegen::g_const);
                lemma_sticky_operand(g2, *b);
            }
            if g2.bad is Some {
                lemma_sticky_operand(g2, *b);
            }
            lemma_added_operand(g, *a);
            match k {
                Some(_) => {
                    assert(is_sum(*b));
                    lemma_const(g1, (*b)->Num_0);
                },
                None => {
                    lemma_added_operand(g2, *b);
                },
            }
        },
        _ => {},
    }
}

pub(super) proof fn lemma_added_binary(g: Gen, e: Expr, dst: u16)
    requires
        is_pair(e),
        fit(g),
        codegen::g_binary(g, e, dst).bad is None,
    ensures
        came_to(g, codegen::g_binary(g, e, dst)),
    decreases e, 1int,
{
    lemma_parts(g, e, dst);
}

// ---- running them --------------------------------------------------------------------------

/// A number has been written to a register, and the registers below `free` are
/// otherwise what they were.
pub open spec fn wrote(m: Mach, m2: Mach, free: u16, dst: u16, v: u64, pc: int) -> bool {
    &&& went(m, m2, pc)
    &&& m2.stack.len() == m.stack.len()
    &&& m2.stack[m.base + dst] == Val::Num(v)
    &&& forall|i: int|
        0 <= i < m.base + free && i != m.base + dst ==> #[trigger] m2.stack[i] == m.stack[i]
}

/// The machine stands before some code, with the locals in their registers.
pub open spec fn ready(m: Mach, g: Gen, h: Gen, f: Map<u16, Cell>) -> bool {
    &&& clean(m)
    &&& m.pc == g.code.len()
    &&& has_code(machine::cur(m), g, h)
    &&& has_room(m, h)
    &&& fit(g)
    &&& h.bad is None
    &&& in_regs(m, g.n_slots, f)
}

/// An instruction that puts a number in a register.
proof fn lemma_put(q: Sums, m: Mach, dst: u16, v: u64)
    requires
        clean(m),
        machine::step(m) == (machine::next(machine::put(m, dst, Val::Num(v))), Out::Run),
    ensures
        after(q, m, 1) == moved(m, m.stack.update(m.base + dst, Val::Num(v)), m.pc + 1),
{
    reveal(served);
    reveal_with_fuel(after, 2);
    assert(after(q, m, 1) =~= moved(m, m.stack.update(m.base + dst, Val::Num(v)), m.pc + 1));
}

/// An instruction that asks for a sum.
pub(super) proof fn lemma_summed(q: Sums, m: Mach, kind: BinKind, x: u64, y: u64, dst: u16)
    requires
        clean(m),
        machine::step(m) == machine::settle(
            m,
            Need::Ask(Req::Compute { kind, x, y }),
            dst,
        ),
    ensures
        after(q, m, 1) == moved(
            m,
            m.stack.update(m.base + dst, Val::Num((q.bin)(operator(kind), x, y))),
            m.pc + 1,
        ),
{
    reveal(served);
    reveal_with_fuel(after, 2);
    assert(after(q, m, 1) =~= moved(
        m,
        m.stack.update(m.base + dst, Val::Num((q.bin)(operator(kind), x, y))),
        m.pc + 1,
    ));
}

/// A call stands in a function.
proof fn lemma_calls_out(p: ProtoView, i: int)
    requires
        0 <= i < p.code.len(),
        is_call_op(p.code[i]),
    ensures
        calls_out(p),
{
    reveal(calls_out);
}

/// The function of numbers by that name is a builtin.
proof fn lemma_builtin(m: Mach, name: Seq<char>) -> (id: usize)
    requires
        maths_in(m.globals, m.tables, m.maths, m.natives),
        lowering::math_fn(name) is Some,
    ensures
        m.maths is Some,
        m.maths->Some_0 < m.tables.len(),
        machine::global_value(m.globals, "math"@) == Val::Table(m.maths->Some_0),
        machine::with_global(m.globals, "math"@) == m.globals,
        table::t_get(m.tables[m.maths->Some_0 as int], KeyVal::Str(name)) == Val::Native(id),
        native_fn(m.natives, id) == lowering::math_fn(name)->Some_0.0,
{
    reveal(maths_in);
    table::t_get(m.tables[m.maths->Some_0 as int], KeyVal::Str(name))->Native_0
}

/// A call of a builtin waits for the host.
proof fn lemma_asks(m: Mach, id: usize, args: Seq<Val>, dest: Dest)
    ensures
        machine::call_op(m, Val::Native(id), args, dest) == (
            Mach {
                line: machine::cur(m).lines[m.pc],
                pending: Pending::Values { dest, depth: m.depth as usize },
                ..m
            },
            Out::Ask(Req::Native { id, args }),
        ),
{
    let m1 = machine::at_line(m);
    let r = machine::call_op(m, Val::Native(id), args, dest);
    assert(r == machine::call(m1, Val::Native(id), args, dest, false));
    assert(r.0 =~= Mach {
        line: machine::cur(m).lines[m.pc],
        pending: Pending::Values { dest, depth: m.depth as usize },
        ..m
    });
}

/// What the host gives goes where it belongs.
proof fn lemma_given(m: Mach, m1: Mach, dest: Dest, x: u64)
    requires
        clean(m),
        0 <= m.depth <= usize::MAX,
        m1 == (Mach { pending: Pending::Values { dest, depth: m.depth as usize }, ..machine::at_line(m) }),
    ensures
        machine::resume(m1, Reply::Values(seq![Val::Num(x)])).0 == machine::deliver(
            machine::at_line(m),
            dest,
            seq![Val::Num(x)],
        ).0,
{
    let m3 = Mach { depth: m.depth, ..machine::idle(m1) };
    assert(m3 =~= machine::at_line(m));
}

/// A builtin that is called with numbers.
proof fn lemma_called(q: Sums, m: Mach, name: Seq<char>, id: usize, args: Seq<Val>, dest: Dest)
    requires
        clean(m),
        0 <= m.depth <= usize::MAX,
        native_fn(m.natives, id) == lowering::math_fn(name)->Some_0.0,
        machine::step(m) == machine::call_op(m, Val::Native(id), args, dest),
    ensures
        after(q, m, 1) == machine::deliver(
            machine::at_line(m),
            dest,
            seq![Val::Num((q.math)(lowering::math_fn(name)->Some_0.0, nums(args)))],
        ).0,
{
    lemma_asks(m, id, args, dest);
    let m1 = machine::call_op(m, Val::Native(id), args, dest).0;
    lemma_given(m, m1, dest, (q.math)(native_fn(m.natives, id), nums(args)));
    lemma_after_one(q, m);
    reveal(served);
}

/// One step.
pub(super) proof fn lemma_after_one(q: Sums, m: Mach)
    ensures
        after(q, m, 1) == served(q, m),
{
    reveal(served);
    reveal_with_fuel(after, 2);
}

/// An instruction that puts two locals in registers above them.
proof fn lemma_move_step(m: Mach, d0: u16, s0: u16, d1: u16, s1: u16)
    requires
        machine::cur(m).code[m.pc] == (Op::Move2 { d0, s0, d1, s1 }),
        s1 != d0,
        0 <= m.base,
        m.base + d0 < m.stack.len(),
        m.base + s1 < m.stack.len(),
    ensures
        machine::step(m) == (
            machine::next(
                machine::put(machine::put(m, d0, machine::reg(m, s0)), d1, machine::reg(m, s1)),
            ),
            Out::Run,
        ),
{
    let m1 = machine::put(m, d0, machine::reg(m, s0));
    assert(machine::reg(m1, s1) == machine::reg(m, s1));
}

proof fn lemma_put_two(q: Sums, m: Mach, d0: u16, d1: u16, x: Val, y: Val) -> (k: nat)
    requires
        clean(m),
        machine::step(m) == (machine::next(machine::put(machine::put(m, d0, x), d1, y)), Out::Run),
    ensures
        after(q, m, k) == moved(
            m,
            m.stack.update(m.base + d0, x).update(m.base + d1, y),
            m.pc + 1,
        ),
{
    reveal(served);
    reveal_with_fuel(after, 2);
    assert(after(q, m, 1) =~= moved(
        m,
        m.stack.update(m.base + d0, x).update(m.base + d1, y),
        m.pc + 1,
    ));
    1
}

proof fn lemma_moves(q: Sums, m: Mach, d0: u16, s0: u16, d1: u16, s1: u16) -> (k: nat)
    requires
        clean(m),
        machine::cur(m).code[m.pc] == (Op::Move2 { d0, s0, d1, s1 }),
        s1 != d0,
        0 <= m.base,
        m.base + d0 < m.stack.len(),
        m.base + s1 < m.stack.len(),
    ensures
        after(q, m, k) == moved(
            m,
            m.stack.update(m.base + d0, machine::reg(m, s0)).update(
                m.base + d1,
                machine::reg(m, s1),
            ),
            m.pc + 1,
        ),
{
    lemma_move_step(m, d0, s0, d1, s1);
    lemma_put_two(q, m, d0, d1, machine::reg(m, s0), machine::reg(m, s1))
}

/// An instruction that calls what is in a register.
proof fn lemma_call_step(m: Mach, base: u16, nargs: u16, dst: u16, nres: u16)
    requires
        machine::cur(m).code[m.pc] == (Op::Call { base, nargs, nres, dst }),
    ensures
        machine::step(m) == machine::call_op(
            m,
            machine::reg(m, base),
            machine::window(m, base + 1, nargs as nat),
            Dest::Regs { base, nres, dst },
        ),
{
}

/// The function of numbers by that name is put in a register.
proof fn lemma_runs_lookup(
    q: Sums,
    f: Map<u16, Cell>,
    g: Gen,
    name: Seq<char>,
    dst: u16,
    m: Mach,
) -> (r: (nat, usize))
    requires
        lowering::math_fn(name) is Some,
        ready(m, g, looked_up(g, name, dst), f),
        dst < g.free,
    ensures
        ({
            let h = looked_up(g, name, dst);
            let (k, id) = r;
            let m2 = after(q, m, k);
            &&& went(m, m2, h.code.len() as int)
            &&& m2.stack.len() == m.stack.len()
            &&& m2.stack[m.base + dst] == Val::Native(id)
            &&& table::t_get(m.tables[m.maths->Some_0 as int], KeyVal::Str(name)) == Val::Native(id)
            &&& native_fn(m.natives, id) == lowering::math_fn(name)->Some_0.0
            &&& forall|i: int|
                0 <= i < m.base + g.free && i != m.base + dst ==> #[trigger] m2.stack[i]
                    == m.stack[i]
        }),
{
    let h = looked_up(g, name, dst);
    let p = machine::cur(m);
    lemma_looked_up(g, name, dst);
    let at = g.code.len() as int;
    assert(p.code[at] == h.code[at]);
    assert(p.code[at + 1] == h.code[at + 1]);
    lemma_calls_out(p, at);
    let id = lemma_builtin(m, name);
    let t = m.maths->Some_0;
    let o = g.free;
    let n = h.code[at]->GetGlobal_g;
    let k = h.code[at + 1]->GetIndexK_k;
    assert(p.globals[n as int] == h.globals[n as int]);
    assert(p.consts[k as int] == h.consts[k as int]);
    let m1 = after(q, m, 1);
    reveal(served);
    reveal_with_fuel(after, 3);
    assert(m1 =~= moved(m, m.stack.update(m.base + o, Val::Table(t)), m.pc + 1));
    let m2 = after(q, m, 2);
    assert(m2 =~= moved(m, m1.stack.update(m.base + dst, Val::Native(id)), m.pc + 2));
    (2, id)
}

/// Some numbers are in the registers from `free` on, and those below are what
/// they were.
pub open spec fn laid(m: Mach, m2: Mach, free: u16, h: Gen, xs: Seq<u64>) -> bool {
    &&& went(m, m2, h.code.len() as int)
    &&& m2.stack.len() == m.stack.len()
    &&& forall|i: int| 0 <= i < xs.len() ==> m2.stack[m.base + free + i] == Val::Num(#[trigger] xs[i])
    &&& forall|i: int| 0 <= i < m.base + free ==> #[trigger] m2.stack[i] == m.stack[i]
}

/// Arguments are worked out, one after the other.
#[verifier::spinoff_prover]
proof fn lemma_runs_args(q: Sums, n: nat, f: Map<u16, Cell>, g: Gen, es: Seq<Expr>, m: Mach) -> (k:
    nat)
    requires
        are_sums(es),
        ready(m, g, codegen::g_args(g, es).0, f),
        meaning::t_exprs(q, n, f, es) is Many,
    ensures
        laid(
            m,
            after(q, m, k),
            g.free,
            codegen::g_args(g, es).0,
            meaning::t_exprs(q, n, f, es)->Many_0,
        ),
        meaning::t_exprs(q, n, f, es)->Many_0.len() == es.len(),
    decreases es, 4int,
{
    let h = codegen::g_args(g, es).0;
    lemma_of_args(g, es);
    lemma_added_args(g, es);
    if es.len() == 0 {
        assert(went(m, after(q, m, 0), h.code.len() as int));
        0
    } else if in_pair(es) {
        lemma_runs_two(q, n, f, g, es, m)
    } else {
        let (g1, r) = codegen::g_alloc(g);
        let g2 = codegen::g_expr(g1, es[0], r);
        let rest = es.drop_first();
        reveal(codegen::g_alloc);
        reveal(codegen::fail);
        if g2.bad is Some {
            lemma_sticky_args(g2, rest);
        }
        if g1.bad is Some {
            lemma_sticky(g1, es[0], r);
        }
        lemma_added(g1, es[0], r);
        lemma_added_args(g2, rest);
        lemma_sum_is_quiet(es[0]);
        faithful::lemma_quiet(q, n, f, es[0]);
        let x = meaning::t_expr(q, n, f, es[0])->Num_0;
        lemma_code_first(machine::cur(m), g1, g2, h);
        let j = lemma_runs(q, n, f, g1, es[0], r, m);
        let m1 = after(q, m, j);
        lemma_still_ready(m, m1, g1, g2, h, f);
        let l = lemma_runs_args(q, n, f, g2, rest, m1);
        lemma_after(q, m, j, l);
        let m2 = after(q, m, j + l);
        let xs = meaning::t_exprs(q, n, f, es)->Many_0;
        let ys = meaning::t_exprs(q, n, f, rest)->Many_0;
        assert(xs == seq![x] + ys);
        assert(m2.stack[m.base + g.free] == m1.stack[m.base + g.free]);
        assert forall|i: int| 0 <= i < xs.len() implies m2.stack[m.base + g.free + i] == Val::Num(
            #[trigger] xs[i],
        ) by {
            if i > 0 {
                assert(xs[i] == ys[i - 1]);
            }
        }
        j + l
    }
}

/// The first part of some code is there where all of it is.
pub(super) proof fn lemma_code_first(p: ProtoView, g: Gen, g1: Gen, h: Gen)
    requires
        has_code(p, g, h),
        operand_came(g1, h),
        g.code.len() <= g1.code.len(),
    ensures
        has_code(p, g, g1),
        has_code(p, g1, h),
{
    assert forall|i: int| g.code.len() <= i < g1.code.len() implies #[trigger] p.code[i]
        == bytecode::specialised(g1.code[i]) by {
        assert(h.code[i] == g1.code[i]);
    }
    assert forall|i: int| 0 <= i < g1.consts.len() implies #[trigger] p.consts[i]
        == g1.consts[i] by {
        assert(h.consts[i] == g1.consts[i]);
    }
}

/// The machine that has run the first part stands before the rest.
pub(super) proof fn lemma_still_ready(m: Mach, m1: Mach, g: Gen, g1: Gen, h: Gen, f: Map<u16, Cell>)
    requires
        clean(m),
        has_room(m, h),
        in_regs(m, g.n_slots, f),
        h.bad is None,
        has_code(machine::cur(m), g1, h),
        fit(g1),
        g1.n_slots == g.n_slots <= g.free,
        went(m, m1, g1.code.len() as int),
        m1.stack.len() == m.stack.len(),
        forall|i: int| 0 <= i < m.base + g.n_slots ==> #[trigger] m1.stack[i] == m.stack[i],
    ensures
        ready(m1, g1, h, f),
{
    assert forall|slot: u16| #[trigger] f.contains_key(slot) && slot < g1.n_slots implies machine::reg(
        m1,
        slot,
    ) == cell_val(f[slot]) by {
        assert(machine::reg(m, slot) == cell_val(f[slot]));
        assert(m1.stack[m.base + slot] == m.stack[m.base + slot]);
    }
}

/// The values of two locals, and of what follows them.
proof fn lemma_two_values(q: Sums, n: nat, f: Map<u16, Cell>, es: Seq<Expr>) -> (r: (u64, u64))
    requires
        in_pair(es),
        meaning::t_exprs(q, n, f, es) is Many,
    ensures
        f.contains_key(codegen::plain_reg_of(es[0])->Some_0),
        f.contains_key(codegen::plain_reg_of(es[1])->Some_0),
        f[codegen::plain_reg_of(es[0])->Some_0] == Cell::Num(r.0),
        f[codegen::plain_reg_of(es[1])->Some_0] == Cell::Num(r.1),
        meaning::t_exprs(q, n, f, es.skip(2)) is Many,
        meaning::t_exprs(q, n, f, es)->Many_0 == seq![r.0, r.1] + meaning::t_exprs(
            q,
            n,
            f,
            es.skip(2),
        )->Many_0,
{
    let tail = es.drop_first();
    let rest = es.skip(2);
    assert(tail[0] == es[1]);
    assert(tail.drop_first() =~= rest);
    let x = meaning::t_expr(q, n, f, es[0])->Num_0;
    let y = meaning::t_expr(q, n, f, es[1])->Num_0;
    assert(meaning::t_exprs(q, n, f, tail) is Many);
    assert(meaning::t_exprs(q, n, f, es)->Many_0 =~= seq![x, y] + meaning::t_exprs(
        q,
        n,
        f,
        rest,
    )->Many_0);
    (x, y)
}

/// What is added for two locals.
proof fn lemma_added_pair(g: Gen, es: Seq<Expr>)
    requires
        in_pair(es),
        fit(g),
        paired(g, es).0.bad is None,
    ensures
        ({
            let (h, d0, d1) = paired(g, es);
            let s0 = codegen::plain_reg_of(es[0])->Some_0;
            let s1 = codegen::plain_reg_of(es[1])->Some_0;
            &&& operand_came(g, h)
            &&& s0 < g.n_slots && s1 < g.n_slots
            &&& d0 == g.free && d1 == g.free + 1 && h.free == g.free + 2 <= h.max_regs
            &&& h.code == g.code.push(Op::Move2 { d0, s0, d1, s1 })
        }),
{
    reveal(paired);
    reveal(codegen::g_emit);
    reveal(codegen::g_alloc);
    reveal(codegen::g_slot);
    reveal(codegen::fail);
}

/// Two locals are in the registers above all that are in use, and the rest of
/// the arguments is next.
spec fn two_placed(m: Mach, m1: Mach, g: Gen, g2: Gen, h: Gen, f: Map<u16, Cell>, x: u64, y: u64) -> bool {
    &&& ready(m1, g2, h, f)
    &&& g2.free == g.free + 2
    &&& went(m, m1, g2.code.len() as int)
    &&& m1.stack.len() == m.stack.len()
    &&& m1.stack[m.base + g.free] == Val::Num(x)
    &&& m1.stack[m.base + g.free + 1] == Val::Num(y)
    &&& forall|i: int| 0 <= i < m.base + g.free ==> #[trigger] m1.stack[i] == m.stack[i]
}

#[verifier::spinoff_prover]
proof fn lemma_place_two(
    q: Sums,
    f: Map<u16, Cell>,
    g: Gen,
    g2: Gen,
    h: Gen,
    s0: u16,
    s1: u16,
    m: Mach,
) -> (k: nat)
    requires
        ready(m, g, h, f),
        operand_came(g, g2),
        operand_came(g2, h),
        s0 < g.n_slots,
        s1 < g.n_slots,
        g2.free == g.free + 2,
        g2.free <= g2.max_regs,
        g2.code == g.code.push(
            Op::Move2 { d0: g.free, s0, d1: (g.free + 1) as u16, s1 },
        ),
        f.contains_key(s0),
        f.contains_key(s1),
        f[s0] is Num,
        f[s1] is Num,
    ensures
        two_placed(m, after(q, m, k), g, g2, h, f, f[s0]->Num_0, f[s1]->Num_0),
{
    let p = machine::cur(m);
    let d0 = g.free;
    let d1 = (g.free + 1) as u16;
    let op = Op::Move2 { d0, s0, d1, s1 };
    lemma_code_first(p, g, g2, h);
    assert(g2.code[m.pc] == op);
    assert(p.code[m.pc] == bytecode::specialised(op));
    let j = lemma_moves(q, m, d0, s0, d1, s1);
    let m1 = after(q, m, j);
    let x = machine::reg(m, s0);
    let y = machine::reg(m, s1);
    assert(x == Val::Num(f[s0]->Num_0));
    assert(y == Val::Num(f[s1]->Num_0));
    let st = m.stack.update(m.base + d0, x).update(m.base + d1, y);
    assert(m1 == moved(m, st, m.pc + 1));
    assert(went(m, m1, g2.code.len() as int));
    lemma_still_ready(m, m1, g, g2, h, f);
    j
}

/// Two locals go to their registers together.
#[verifier::spinoff_prover]
proof fn lemma_runs_pair(q: Sums, f: Map<u16, Cell>, g: Gen, h: Gen, s0: u16, s1: u16, m: Mach) -> (k:
    nat)
    requires
        ready(m, g, h, f),
        operand_came(g, h),
        s0 < g.n_slots,
        s1 < g.n_slots,
        h.free == g.free + 2,
        h.free <= h.max_regs,
        h.code == g.code.push(Op::Move2 { d0: g.free, s0, d1: (g.free + 1) as u16, s1 }),
        f.contains_key(s0),
        f.contains_key(s1),
        f[s0] is Num,
        f[s1] is Num,
    ensures
        laid(m, after(q, m, k), g.free, h, seq![f[s0]->Num_0, f[s1]->Num_0]),
{
    let j = lemma_place_two(q, f, g, h, h, s0, s1, m);
    let m1 = after(q, m, j);
    let first = seq![f[s0]->Num_0, f[s1]->Num_0];
    assert forall|i: int| 0 <= i < first.len() implies m1.stack[m.base + g.free + i] == Val::Num(
        #[trigger] first[i],
    ) by {
        assert(i == 0 || i == 1);
    }
    j
}

/// Two locals, then the rest of the arguments.
#[verifier::spinoff_prover]
proof fn lemma_runs_two(q: Sums, n: nat, f: Map<u16, Cell>, g: Gen, es: Seq<Expr>, m: Mach) -> (k:
    nat)
    requires
        are_sums(es),
        in_pair(es),
        ready(m, g, codegen::g_args(g, es).0, f),
        meaning::t_exprs(q, n, f, es) is Many,
    ensures
        laid(
            m,
            after(q, m, k),
            g.free,
            codegen::g_args(g, es).0,
            meaning::t_exprs(q, n, f, es)->Many_0,
        ),
        meaning::t_exprs(q, n, f, es)->Many_0.len() == es.len(),
    decreases es, 3int,
{
    let h = codegen::g_args(g, es).0;
    let rest = es.skip(2);
    let (x, y) = lemma_two_values(q, n, f, es);
    let g2 = paired(g, es).0;
    lemma_of_args(g, es);
    lemma_sums_from(es);
    if g2.bad is Some {
        lemma_sticky_args(g2, rest);
    }
    lemma_added_pair(g, es);
    lemma_added_args(g2, rest);
    lemma_code_first(machine::cur(m), g, g2, h);
    assert(ready(m, g, g2, f));
    let j = lemma_runs_pair(
        q,
        f,
        g,
        g2,
        codegen::plain_reg_of(es[0])->Some_0,
        codegen::plain_reg_of(es[1])->Some_0,
        m,
    );
    let m1 = after(q, m, j);
    lemma_still_ready(m, m1, g, g2, h, f);
    let l = lemma_runs_args(q, n, f, g2, rest, m1);
    lemma_after(q, m, j, l);
    lemma_laid_on(
        m,
        m1,
        after(q, m, j + l),
        g.free,
        g2.free,
        g2,
        h,
        seq![x, y],
        meaning::t_exprs(q, n, f, rest)->Many_0,
    );
    j + l
}

/// Numbers laid one run after the other.
proof fn lemma_laid_on(
    m: Mach,
    m1: Mach,
    m2: Mach,
    free: u16,
    free2: u16,
    g2: Gen,
    h: Gen,
    first: Seq<u64>,
    rest: Seq<u64>,
)
    requires
        free2 == free + first.len(),
        0 <= m.base,
        laid(m, m1, free, g2, first),
        laid(m1, m2, free2, h, rest),
    ensures
        laid(m, m2, free, h, first + rest),
{
    let xs = first + rest;
    assert forall|i: int| 0 <= i < xs.len() implies m2.stack[m.base + free + i] == Val::Num(
        #[trigger] xs[i],
    ) by {
        if i < first.len() {
            assert(m2.stack[m.base + free + i] == m1.stack[m.base + free + i]);
            assert(xs[i] == first[i]);
        } else {
            assert(xs[i] == rest[i - first.len()]);
        }
    }
}

/// A function called by its name gives what it gives.
#[verifier::spinoff_prover]
proof fn lemma_answered(q: Sums, m: Mach, name: Seq<char>, args: Seq<Val>, dest: Dest, v: u64)
    requires
        clean(m),
        0 <= m.pc < machine::cur(m).code.len(),
        by_name(m) == Some((name, args, dest)),
        meaning::called(q, Callee::Global(name), nums(args)) == Some(v),
    ensures
        after(q, m, 1) == machine::deliver(machine::at_line(m), dest, seq![Val::Num(v)]).0,
{
    reveal(calls_fit);
    assert(name_fits(name, m.globals, m.funcs, m.depth, m.top, m.jit));
    let m0 = Mach { globals: machine::with_global(m.globals, name), ..m };
    assert(m0 =~= m);
    let f = machine::global_value(m.globals, name);
    assert(machine::step(m) == machine::call_op(m, f, args, dest));
    lemma_enters(m, f->Func_0, args, dest);
    lemma_after_one(q, m);
    reveal(served);
}

proof fn lemma_delivered(m: Mach, base: u16, dst: u16, v: u64)
    requires
        m.reads.len() == 0,
        m.shows.len() == 0,
        !m.declined,
        0 <= m.base + dst < m.stack.len(),
    ensures
        ({
            let m2 = machine::deliver(m, Dest::Regs { base, nres: 1, dst }, seq![Val::Num(v)]).0;
            &&& m2 == (Mach { stack: m2.stack, pc: m.pc + 1, ..m })
            &&& m2.stack =~= m.stack.update(m.base + dst, Val::Num(v))
        }),
{
    let vals = seq![Val::Num(v)];
    let m2 = machine::deliver(m, Dest::Regs { base, nres: 1, dst }, vals).0;
    assert(m2 == machine::next(machine::results(m, dst as int, 1, vals)));
    assert(m2 =~= Mach { stack: m2.stack, pc: m.pc + 1, ..m });
}

/// A function that is called is entered.
pub(super) proof fn lemma_enters(m: Mach, f: usize, args: Seq<Val>, dest: Dest)
    requires
        !m.jit,
        !m.declined,
        m.depth < MAX_DEPTH,
        f < m.funcs.len(),
        m.top + m.funcs[f as int].proto.n_regs <= STACK_MAX,
    ensures
        machine::call_op(m, Val::Func(f), args, dest) == (
            machine::enter(machine::counted(machine::at_line(m), f), f, args, dest, true),
            Out::Run,
        ),
        machine::call_op(m, Val::Func(f), args, dest).0.frames.len() == m.frames.len() + 1,
{
    let m1 = machine::at_line(m);
    assert(!machine::offers(m1, Val::Func(f)));
    assert(machine::fits(m1, f));
    assert(machine::call_op(m, Val::Func(f), args, dest) == machine::call(
        m1,
        Val::Func(f),
        args,
        dest,
        false,
    ));
}

/// A function is called by its name.
#[verifier::spinoff_prover]
#[verifier::rlimit(30)]
proof fn lemma_runs_named(
    q: Sums,
    n: nat,
    f: Map<u16, Cell>,
    g: Gen,
    e: Expr,
    dst: u16,
    nres: u16,
    m: Mach,
) -> (k: nat)
    requires
        at_call(q, n, f, g, e, dst, nres, m),
        e matches Expr::Call(c, _) && *c is Global,
    ensures
        ({
            let (g1, base) = window_start(g, dst);
            let m2 = after(q, m, k);
            let args = by_name(m2)->Some_0.1;
            &&& went(m, m2, call_parts(g, e, dst, nres).0.code.len() as int)
            &&& m2.stack.len() == m.stack.len()
            &&& by_name(m2) == Some(((*e->Call_0)->Global_0@, args, Dest::Regs { base, nres, dst }))
            &&& meaning::called(q, Callee::Global((*e->Call_0)->Global_0@), nums(args)) == Some(
                meaning::t_expr(q, n, f, e)->Num_0,
            )
            &&& forall|i: int| 0 <= i < m.base + base + 1 ==> #[trigger] m2.stack[i] == m.stack[i]
        }),
    decreases e, 1int,
{
    let (g1, base) = window_start(g, dst);
    let (g9, op) = call_parts(g, e, dst, nres);
    let p = machine::cur(m);
    match e {
        Expr::Call(c, es) => {
            let name = (*c)->Global_0@;
            let (g2, at) = codegen::g_global(g1, name);
            if g2.bad is Some {
                reveal(codegen::g_slot);
                reveal(codegen::g_alloc);
                reveal(codegen::g_count);
                reveal(codegen::fail);
                lemma_sticky_args(g2, es@);
            }
            lemma_name(g1, name);
            if es@.len() == 1 && codegen::plain_reg_of(es@[0]) is Some {
                let a = codegen::plain_reg_of(es@[0])->Some_0;
                assert(g9.code == g1.code && g9.globals == g2.globals && a < g1.n_slots) by {
                    reveal(codegen::g_slot);
                    reveal(codegen::g_alloc);
                    reveal(codegen::fail);
                }
                assert(p.globals[at as int] == name);
                let x = meaning::t_expr(q, n, f, es@[0])->Num_0;
                assert(meaning::t_exprs(q, n, f, es@.drop_first()) == Ends::<Map<u16, Cell>>::Many(
                    Seq::empty(),
                    f,
                ));
                assert(f.contains_key(a));
                assert(machine::reg(m, a) == Val::Num(x));
                let args = seq![machine::reg(m, a)];
                assert(nums(args) =~= seq![x]);
                assert(seq![x] + Seq::<u64>::empty() =~= seq![x]);
                assert(went(m, after(q, m, 0), g9.code.len() as int));
                0
            } else {
                let (g3, _) = codegen::g_args(g2, es@);
                assert(g9 == g3 && op == (Op::CallGlobal {
                    base,
                    g: at,
                    nargs: es@.len() as u16,
                    nres,
                    dst,
                }) && es@.len() < MULTI) by {
                    reveal(codegen::g_count);
                    reveal(codegen::fail);
                }
                lemma_added_args(g2, es@);
                lemma_code_first(p, g1, g2, g3);
                assert(ready(m, g2, g3, f));
                let l = lemma_runs_args(q, n, f, g2, es@, m);
                let m2 = after(q, m, l);
                let xs = meaning::t_exprs(q, n, f, es@)->Many_0;
                lemma_nums(m2, base + 1, xs);
                assert(g3.globals[at as int] == name);
                assert(p.globals[at as int] == name);
                l
            }
        },
        _ => 0,
    }
}

/// The machine stands before a call, all of whose code is there.
spec fn at_call(
    q: Sums,
    n: nat,
    f: Map<u16, Cell>,
    g: Gen,
    e: Expr,
    dst: u16,
    nres: u16,
    m: Mach,
) -> bool {
    let (g1, base) = window_start(g, dst);
    let (g2, op) = call_parts(g, e, dst, nres);
    &&& is_sum(e)
    &&& ast::is_call_spec(e)
    &&& fit(g1)
    &&& g1.bad is None
    &&& g1.free == base + 1
    &&& g1.n_slots <= base
    &&& ready(m, g1, g2, f)
    &&& g2.code.len() < machine::cur(m).code.len()
    &&& machine::cur(m).code[g2.code.len() as int] == op
    &&& meaning::t_expr(q, n, f, e) is Num
}

/// The machine has come to a call, which gives this.
pub open spec fn at_gift(q: Sums, m: Mach, m2: Mach, base: u16, nres: u16, dst: u16, v: u64, pc: int) -> bool {
    &&& went(m, m2, pc)
    &&& m2.stack.len() == m.stack.len()
    &&& forall|i: int| 0 <= i < m.base + base ==> #[trigger] m2.stack[i] == m.stack[i]
    &&& after(q, m2, 1) == machine::deliver(
        machine::at_line(m2),
        Dest::Regs { base, nres, dst },
        seq![Val::Num(v)],
    ).0
}

/// The code up to a call is run.
#[verifier::spinoff_prover]
proof fn lemma_runs_gift(
    q: Sums,
    n: nat,
    f: Map<u16, Cell>,
    g: Gen,
    e: Expr,
    dst: u16,
    nres: u16,
    m: Mach,
) -> (k: nat)
    requires
        is_sum(e),
        ast::is_call_spec(e),
        takes_values(g, dst, nres),
        ready(m, g, codegen::g_call(g, e, dst, nres), f),
        dst < g.n_slots || dst + 1 == g.free,
        meaning::t_expr(q, n, f, e) is Num,
    ensures
        at_gift(
            q,
            m,
            after(q, m, k),
            window_start(g, dst).1,
            nres,
            dst,
            meaning::t_expr(q, n, f, e)->Num_0,
            codegen::g_call(g, e, dst, nres).code.len() - 1,
        ),
        g.n_slots <= window_start(g, dst).1,
        window_start(g, dst).1 == dst || window_start(g, dst).1 == g.free,
        dst < g.n_slots ==> window_start(g, dst).1 == g.free,
        dst >= g.n_slots ==> window_start(g, dst).1 == dst,
    decreases e, 3int,
{
    let h = codegen::g_call(g, e, dst, nres);
    let p = machine::cur(m);
    lemma_added_call(g, e, dst, nres);
    let (g1, base) = window_start(g, dst);
    let (g2, op) = call_parts(g, e, dst, nres);
    let at = g2.code.len() as int;
    assert(g1.code == g.code && g1.consts == g.consts && g1.globals == g.globals && g1.n_slots
        == g.n_slots && g1.free == base + 1 && g.n_slots <= base && (base == dst || base == g.free)
        && (dst < g.n_slots ==> base == g.free) && (dst >= g.n_slots ==> base == dst)) by {
        reveal(codegen::g_alloc);
        reveal(codegen::g_release);
        reveal(codegen::fail);
    }
    assert(has_code(p, g1, g2)) by {
        assert forall|i: int| g1.code.len() <= i < g2.code.len() implies #[trigger] p.code[i]
            == bytecode::specialised(g2.code[i]) by {
            assert(h.code[i] == g2.code[i]);
        }
    }
    assert(ready(m, g1, g2, f));
    assert(p.code[at] == op) by {
        assert(h.code[at] == op);
    }
    let dest = Dest::Regs { base, nres, dst };
    if e is Call && *e->Call_0 is Global {
        let j = lemma_runs_named(q, n, f, g, e, dst, nres, m);
        let m2 = after(q, m, j);
        let (name, args, _) = by_name(m2)->Some_0;
        lemma_answered(q, m2, name, args, dest, meaning::t_expr(q, n, f, e)->Num_0);
        j
    } else {
        lemma_calls_out(p, at);
        let (j, m2, name, args) = lemma_runs_window(q, n, f, g, e, dst, nres, m);
        let id = lemma_builtin(m, name);
        lemma_called(q, m2, name, id, args, dest);
        j
    }
}

/// A function is called for its value.
#[verifier::spinoff_prover]
proof fn lemma_runs_call(
    q: Sums,
    n: nat,
    f: Map<u16, Cell>,
    g: Gen,
    e: Expr,
    dst: u16,
    m: Mach,
) -> (k: nat)
    requires
        is_sum(e),
        ast::is_call_spec(e),
        ready(m, g, codegen::g_call(g, e, dst, 1), f),
        dst < g.n_slots || dst + 1 == g.free,
        meaning::t_expr(q, n, f, e) is Num,
    ensures
        wrote(
            m,
            after(q, m, k),
            g.free,
            dst,
            meaning::t_expr(q, n, f, e)->Num_0,
            codegen::g_call(g, e, dst, 1).code.len() as int,
        ),
    decreases e, 4int,
{
    lemma_added_call(g, e, dst, 1);
    let j = lemma_runs_gift(q, n, f, g, e, dst, 1, m);
    let m2 = after(q, m, j);
    lemma_delivered(
        machine::at_line(m2),
        window_start(g, dst).1,
        dst,
        meaning::t_expr(q, n, f, e)->Num_0,
    );
    lemma_after(q, m, j, 1);
    j + 1
}

/// A function is called for all it gives.
#[verifier::spinoff_prover]
pub(super) proof fn lemma_runs_all(
    q: Sums,
    n: nat,
    f: Map<u16, Cell>,
    g: Gen,
    e: Expr,
    dst: u16,
    m: Mach,
) -> (k: nat)
    requires
        is_sum(e),
        ast::is_call_spec(e),
        ready(m, g, codegen::g_call(g, e, dst, MULTI), f),
        g.n_slots <= dst,
        dst + 1 == g.free,
        meaning::t_expr(q, n, f, e) is Num,
    ensures
        ({
            let m2 = after(q, m, k);
            &&& m2 == (Mach {
                stack: m2.stack,
                line: m2.line,
                multi: m2.multi,
                pc: codegen::g_call(g, e, dst, MULTI).code.len() as int,
                ..m
            })
            &&& m2.stack.len() == m.stack.len()
            &&& m2.multi == seq![Val::Num(meaning::t_expr(q, n, f, e)->Num_0)]
            &&& forall|i: int| 0 <= i < m.base + dst ==> #[trigger] m2.stack[i] == m.stack[i]
        }),
{
    lemma_added_call(g, e, dst, MULTI);
    let j = lemma_runs_gift(q, n, f, g, e, dst, MULTI, m);
    let m2 = after(q, m, j);
    lemma_delivered_all(machine::at_line(m2), dst, meaning::t_expr(q, n, f, e)->Num_0);
    lemma_after(q, m, j, 1);
    j + 1
}

/// A function is called for what it does.
#[verifier::spinoff_prover]
pub(super) proof fn lemma_runs_unit(
    q: Sums,
    n: nat,
    f: Map<u16, Cell>,
    g: Gen,
    e: Expr,
    dst: u16,
    m: Mach,
) -> (k: nat)
    requires
        is_sum(e),
        ast::is_call_spec(e),
        ready(m, g, codegen::g_call(g, e, dst, 0), f),
        g.n_slots <= dst,
        dst + 1 == g.free,
        meaning::t_expr(q, n, f, e) is Num,
    ensures
        ({
            let m2 = after(q, m, k);
            &&& went(m, m2, codegen::g_call(g, e, dst, 0).code.len() as int)
            &&& m2.stack.len() == m.stack.len()
            &&& forall|i: int| 0 <= i < m.base + dst ==> #[trigger] m2.stack[i] == m.stack[i]
        }),
{
    lemma_added_call(g, e, dst, 0);
    let j = lemma_runs_gift(q, n, f, g, e, dst, 0, m);
    let m2 = after(q, m, j);
    let m3 = machine::at_line(m2);
    let vals = seq![Val::Num(meaning::t_expr(q, n, f, e)->Num_0)];
    assert(machine::deliver(m3, Dest::Regs { base: dst, nres: 0, dst }, vals).0 == machine::next(m3));
    assert(machine::next(m3) =~= Mach { pc: m2.pc + 1, ..m3 });
    lemma_after(q, m, j, 1);
    j + 1
}

proof fn lemma_delivered_all(m: Mach, base: u16, v: u64)
    requires
        m.reads.len() == 0,
        m.shows.len() == 0,
        !m.declined,
        0 <= m.base + base < m.stack.len(),
    ensures
        ({
            let vals = seq![Val::Num(v)];
            machine::deliver(m, Dest::Regs { base, nres: MULTI, dst: base }, vals).0 == (Mach {
                stack: m.stack.update(m.base + base, Val::Num(v)),
                multi: vals,
                pc: m.pc + 1,
                ..m
            })
        }),
{
    let vals = seq![Val::Num(v)];
    let m2 = machine::deliver(m, Dest::Regs { base, nres: MULTI, dst: base }, vals).0;
    assert(m2 =~= Mach {
        stack: m.stack.update(m.base + base, Val::Num(v)),
        multi: vals,
        pc: m.pc + 1,
        ..m
    });
}

/// What stands in the window of a call when it is made: how many steps that
/// took, the machine then, the name of the function and the arguments.
proof fn lemma_runs_window(
    q: Sums,
    n: nat,
    f: Map<u16, Cell>,
    g: Gen,
    e: Expr,
    dst: u16,
    nres: u16,
    m: Mach,
) -> (r: (nat, Mach, Seq<char>, Seq<Val>))
    requires
        at_window(q, n, f, g, e, dst, nres, m),
        !(e is Call && *e->Call_0 is Global),
    ensures
        windowed(q, n, f, g, e, dst, nres, m, r),
    decreases e, 2int,
{
    match e {
        Expr::Call(..) => lemma_window_of_call(q, n, f, g, e, dst, nres, m),
        _ => lemma_window_of_method(q, n, f, g, e, dst, nres, m),
    }
}

/// The machine stands before the code that fills the window of a call.
spec fn at_window(
    q: Sums,
    n: nat,
    f: Map<u16, Cell>,
    g: Gen,
    e: Expr,
    dst: u16,
    nres: u16,
    m: Mach,
) -> bool {
    let (g1, base) = window_start(g, dst);
    let (g2, op) = call_parts(g, e, dst, nres);
    &&& is_sum(e)
    &&& ast::is_call_spec(e)
    &&& fit(g1)
    &&& g1.bad is None
    &&& g1.free == base + 1
    &&& g1.n_slots <= base
    &&& ready(m, g1, g2, f)
    &&& g2.code.len() < machine::cur(m).code.len()
    &&& machine::cur(m).code[g2.code.len() as int] == op
    &&& calls_out(machine::cur(m))
    &&& meaning::t_expr(q, n, f, e) is Num
}

/// The window is full, and the call is next.
spec fn windowed(
    q: Sums,
    n: nat,
    f: Map<u16, Cell>,
    g: Gen,
    e: Expr,
    dst: u16,
    nres: u16,
    m: Mach,
    r: (nat, Mach, Seq<char>, Seq<Val>),
) -> bool {
    let (k, m2, name, args) = r;
    let (g1, base) = window_start(g, dst);
    &&& m2 == after(q, m, k)
    &&& went(m, m2, call_parts(g, e, dst, nres).0.code.len() as int)
    &&& m2.stack.len() == m.stack.len()
    &&& lowering::math_fn(name) is Some
    &&& meaning::t_expr(q, n, f, e)->Num_0 == (q.math)(
        lowering::math_fn(name)->Some_0.0,
        nums(args),
    )
    &&& forall|i: int| 0 <= i < m.base + base ==> #[trigger] m2.stack[i] == m.stack[i]
    &&& machine::step(m2) == machine::call_op(
        m2,
        table::t_get(m.tables[m.maths->Some_0 as int], KeyVal::Str(name)),
        args,
        Dest::Regs { base, nres, dst },
    )
}

/// The numbers of a window.
proof fn lemma_nums(m: Mach, r: int, xs: Seq<u64>)
    requires
        0 <= m.base + r,
        m.base + r + xs.len() <= m.stack.len(),
        forall|i: int| 0 <= i < xs.len() ==> m.stack[m.base + r + i] == Val::Num(#[trigger] xs[i]),
    ensures
        nums(machine::window(m, r, xs.len())) == xs,
{
    assert(nums(machine::window(m, r, xs.len())) =~= xs);
}

#[verifier::spinoff_prover]
proof fn lemma_window_of_call(
    q: Sums,
    n: nat,
    f: Map<u16, Cell>,
    g: Gen,
    e: Expr,
    dst: u16,
    nres: u16,
    m: Mach,
) -> (r: (nat, Mach, Seq<char>, Seq<Val>))
    requires
        at_window(q, n, f, g, e, dst, nres, m),
        e matches Expr::Call(c, _) && !(*c is Global),
    ensures
        windowed(q, n, f, g, e, dst, nres, m, r),
    decreases e, 0int,
{
    let (g1, base) = window_start(g, dst);
    let (g9, op) = call_parts(g, e, dst, nres);
    let p = machine::cur(m);
    match e {
        Expr::Call(fe, es) => {
            let name = lowering::math_name(*fe)->Some_0;
            let g2 = looked_up(g1, name, base);
            let (g3, _) = codegen::g_args(g2, es@);
            assert(g9 == g3 && op == (Op::Call { base, nargs: es@.len() as u16, nres, dst })
                && es@.len() < MULTI) by {
                reveal(codegen::g_count);
                reveal(codegen::fail);
            }
            if g2.bad is Some {
                lemma_sticky_args(g2, es@);
            }
            lemma_looked_up(g1, name, base);
            lemma_added_args(g2, es@);
            lemma_code_first(p, g1, g2, g3);
            assert(ready(m, g1, g2, f));
            let (j, id) = lemma_runs_lookup(q, f, g1, name, base, m);
            let m1 = after(q, m, j);
            lemma_still_ready(m, m1, g1, g2, g3, f);
            let l = lemma_runs_args(q, n, f, g2, es@, m1);
            lemma_after(q, m, j, l);
            let m2 = after(q, m, j + l);
            lemma_call_is_next(q, m, m1, m2, g1, g2, g3, base, dst, nres, id, meaning::t_exprs(q, n, f, es@)->Many_0);
            let args = machine::window(m2, base + 1, es@.len());
            (j + l, m2, name, args)
        },
        _ => (0, m, Seq::empty(), Seq::empty()),
    }
}

/// The callee and its arguments are in the window.
proof fn lemma_call_is_next(
    q: Sums,
    m: Mach,
    m1: Mach,
    m2: Mach,
    g1: Gen,
    g2: Gen,
    g3: Gen,
    base: u16,
    dst: u16,
    nres: u16,
    id: usize,
    xs: Seq<u64>,
)
    requires
        0 <= m.base,
        went(m, m1, g2.code.len() as int),
        m1.stack.len() == m.stack.len(),
        m1.stack[m.base + base] == Val::Native(id),
        forall|i: int|
            0 <= i < m.base + g1.free && i != m.base + base ==> #[trigger] m1.stack[i] == m.stack[i],
        g1.free == base + 1,
        g2.free == g1.free,
        laid(m1, m2, g2.free, g3, xs),
        xs.len() <= u16::MAX,
        m.base + g2.free + xs.len() <= m.stack.len(),
        machine::cur(m).code[g3.code.len() as int] == (Op::Call {
            base,
            nargs: xs.len() as u16,
            nres,
            dst,
        }),
    ensures
        went(m, m2, g3.code.len() as int),
        m2.stack.len() == m.stack.len(),
        nums(machine::window(m2, base + 1, xs.len())) == xs,
        forall|i: int| 0 <= i < m.base + base ==> #[trigger] m2.stack[i] == m.stack[i],
        machine::step(m2) == machine::call_op(
            m2,
            Val::Native(id),
            machine::window(m2, base + 1, xs.len()),
            Dest::Regs { base, nres, dst },
        ),
{
    lemma_nums(m2, base + 1, xs);
    assert(m2.stack[m.base + base] == m1.stack[m.base + base]);
    assert(machine::reg(m2, base) == Val::Native(id));
    lemma_call_step(m2, base, xs.len() as u16, dst, nres);
}

/// An instruction that calls a method.
proof fn lemma_method_step(m: Mach, base: u16, k: u16, nargs: u16, dst: u16, nres: u16, v: Val)
    requires
        machine::cur(m).code[m.pc] == (Op::Method { base, name: k, nargs, nres, dst }),
        machine::cur(m).consts[k as int] is Str,
        machine::method(
            m,
            m.stack[m.base + base + 1],
            machine::cur(m).consts[k as int]->Str_0,
        ) == Ok::<Val, Seq<char>>(v),
    ensures
        machine::step(m) == machine::call_op(
            m,
            v,
            machine::window(m, base + 1, (nargs + 1) as nat),
            Dest::Regs { base, nres, dst },
        ),
{
}

/// The receiver and the other arguments are in the window.
proof fn lemma_method_is_next(
    m: Mach,
    m1: Mach,
    m2: Mach,
    g3: Gen,
    g4: Gen,
    base: u16,
    dst: u16,
    nres: u16,
    id: usize,
    k: u16,
    name: Seq<char>,
    x: u64,
    ys: Seq<u64>,
)
    requires
        0 <= m.base,
        went(m, m1, g3.code.len() as int),
        m1.stack.len() == m.stack.len(),
        m1.stack[m.base + base + 1] == Val::Num(x),
        forall|i: int| 0 <= i < m.base + base + 1 ==> #[trigger] m1.stack[i] == m.stack[i],
        g3.free == base + 2,
        laid(m1, m2, g3.free, g4, ys),
        ys.len() < u16::MAX,
        m.base + g3.free + ys.len() <= m.stack.len(),
        machine::cur(m).code[g4.code.len() as int] == (Op::Method {
            base,
            name: k,
            nargs: ys.len() as u16,
            nres,
            dst,
        }),
        machine::cur(m).consts[k as int] == Val::Str(name),
        m.maths is Some,
        m.maths->Some_0 < m.tables.len(),
        table::t_get(m.tables[m.maths->Some_0 as int], KeyVal::Str(name)) == Val::Native(id),
    ensures
        went(m, m2, g4.code.len() as int),
        m2.stack.len() == m.stack.len(),
        nums(machine::window(m2, base + 1, (ys.len() + 1) as nat)) == seq![x] + ys,
        forall|i: int| 0 <= i < m.base + base ==> #[trigger] m2.stack[i] == m.stack[i],
        machine::step(m2) == machine::call_op(
            m2,
            Val::Native(id),
            machine::window(m2, base + 1, (ys.len() + 1) as nat),
            Dest::Regs { base, nres, dst },
        ),
{
    let xs = seq![x] + ys;
    assert(m2.stack[m.base + base + 1] == m1.stack[m.base + base + 1]);
    assert forall|i: int| 0 <= i < xs.len() implies m2.stack[m.base + (base + 1) + i] == Val::Num(
        #[trigger] xs[i],
    ) by {
        if i > 0 {
            assert(xs[i] == ys[i - 1]);
        }
    }
    lemma_nums(m2, base + 1, xs);
    assert(machine::method(m2, Val::Num(x), name) == Ok::<Val, Seq<char>>(Val::Native(id)));
    lemma_method_step(m2, base, k, ys.len() as u16, dst, nres, Val::Native(id));
}

/// The steps of filling the window of a method.
pub open spec fn method_parts(g: Gen, e: Expr, dst: u16) -> (Gen, u16, Gen, Gen, Gen, u16) {
    let (g1, base) = window_start(g, dst);
    match e {
        Expr::Method(obj, name, es) => {
            let (g2, recv) = codegen::g_alloc(g1);
            let g3 = codegen::g_expr(g2, *obj, recv);
            let g4 = codegen::g_args(g3, es@).0;
            let (g5, k) = codegen::g_const(g4, Val::Str(name@));
            (g2, recv, g3, g4, g5, k)
        },
        _ => (g1, base, g1, g1, g1, 0),
    }
}

#[verifier::spinoff_prover]
proof fn lemma_method_parts(g: Gen, e: Expr, dst: u16, nres: u16)
    requires
        is_sum(e),
        e is Method,
        fit(window_start(g, dst).0),
        window_start(g, dst).0.bad is None,
        call_parts(g, e, dst, nres).0.bad is None,
    ensures
        ({
            let (g1, base) = window_start(g, dst);
            let (g2, recv, g3, g4, g5, k) = method_parts(g, e, dst);
            let n = e->Method_2@.len();
            &&& call_parts(g, e, dst, nres) == (
                g5,
                Op::Method { base, name: k, nargs: n as u16, nres, dst },
            )
            &&& n < MULTI
            &&& g2.bad is None && g3.bad is None && g4.bad is None && g5.bad is None
            &&& recv == g1.free && g2.free == recv + 1 && recv < g2.max_regs
            &&& fit(g2)
            &&& g2.code == g1.code && g2.consts == g1.consts && g2.globals == g1.globals
            &&& g2.n_slots == g1.n_slots
            &&& came_to(g2, g3)
            &&& operand_came(g3, g4)
            &&& g4.free == g3.free + n
            &&& came_to(g4, g5)
            &&& g5.code == g4.code
            &&& k < g5.consts.len()
            &&& g5.consts[k as int] == Val::Str(e->Method_1@)
        }),
{
    reveal(codegen::g_count);
    reveal(codegen::fail);
    let (g1, base) = window_start(g, dst);
    match e {
        Expr::Method(obj, name, es) => {
            let (g2, recv, g3, g4, g5, k) = method_parts(g, e, dst);
            if g4.bad is Some {
                reveal(codegen::g_const);
            }
            if g3.bad is Some {
                lemma_sticky_args(g3, es@);
            }
            if g2.bad is Some {
                lemma_sticky(g2, *obj, recv);
            }
            reveal(codegen::g_alloc);
            lemma_added(g2, *obj, recv);
            lemma_added_args(g3, es@);
            lemma_text_const(g4, name@);
        },
        _ => {},
    }
}

/// The receiver is worked out, then the other arguments: how many steps each
/// took.
#[verifier::spinoff_prover]
proof fn lemma_receiver(
    q: Sums,
    n: nat,
    f: Map<u16, Cell>,
    g2: Gen,
    e: Expr,
    recv: u16,
    m: Mach,
) -> (r: (nat, nat))
    requires
        is_sum(e),
        e is Method,
        recv + 1 == g2.free,
        came_to(g2, codegen::g_expr(g2, (*e->Method_0), recv)),
        operand_came(
            codegen::g_expr(g2, (*e->Method_0), recv),
            codegen::g_args(codegen::g_expr(g2, (*e->Method_0), recv), e->Method_2@).0,
        ),
        codegen::g_expr(g2, (*e->Method_0), recv).bad is None,
        ready(m, g2, codegen::g_args(codegen::g_expr(g2, (*e->Method_0), recv), e->Method_2@).0, f),
        meaning::t_expr(q, n, f, (*e->Method_0)) is Num,
        meaning::t_exprs(q, n, f, e->Method_2@) is Many,
        g2.n_slots <= recv,
    ensures
        ({
            let g3 = codegen::g_expr(g2, (*e->Method_0), recv);
            let m1 = after(q, m, r.0);
            let m2 = after(q, m, r.0 + r.1);
            &&& wrote(
                m,
                m1,
                g2.free,
                recv,
                meaning::t_expr(q, n, f, (*e->Method_0))->Num_0,
                g3.code.len() as int,
            )
            &&& laid(
                m1,
                m2,
                g3.free,
                codegen::g_args(g3, e->Method_2@).0,
                meaning::t_exprs(q, n, f, e->Method_2@)->Many_0,
            )
            &&& meaning::t_exprs(q, n, f, e->Method_2@)->Many_0.len() == e->Method_2@.len()
        }),
    decreases e, 0int,
{
    let obj = *e->Method_0;
    let es = e->Method_2@;
    let g3 = codegen::g_expr(g2, obj, recv);
    let g4 = codegen::g_args(g3, es).0;
    lemma_code_first(machine::cur(m), g2, g3, g4);
    let j = lemma_runs(q, n, f, g2, obj, recv, m);
    let m1 = after(q, m, j);
    lemma_still_ready(m, m1, g2, g3, g4, f);
    let l = lemma_runs_args(q, n, f, g3, es, m1);
    lemma_after(q, m, j, l);
    (j, l)
}

#[verifier::spinoff_prover]
#[verifier::rlimit(30)]
proof fn lemma_window_of_method(
    q: Sums,
    n: nat,
    f: Map<u16, Cell>,
    g: Gen,
    e: Expr,
    dst: u16,
    nres: u16,
    m: Mach,
) -> (r: (nat, Mach, Seq<char>, Seq<Val>))
    requires
        at_window(q, n, f, g, e, dst, nres, m),
        e is Method,
    ensures
        windowed(q, n, f, g, e, dst, nres, m, r),
    decreases e, 1int,
{
    let (g1, base) = window_start(g, dst);
    let p = machine::cur(m);
    lemma_method_parts(g, e, dst, nres);
    match e {
        Expr::Method(obj, name, es) => {
            let (g2, recv, g3, g4, g5, k) = method_parts(g, e, dst);
            assert(Gen { free: g4.free, ..g5 } =~= g5);
            lemma_code_first(p, g1, g4, g5);
            lemma_sum_is_quiet(*obj);
            faithful::lemma_quiet(q, n, f, *obj);
            let x = meaning::t_expr(q, n, f, *obj)->Num_0;
            assert(ready(m, g2, g4, f));
            let (j, l) = lemma_receiver(q, n, f, g2, e, recv, m);
            let m1 = after(q, m, j);
            let m2 = after(q, m, j + l);
            let ys = meaning::t_exprs(q, n, f, es@)->Many_0;
            let args = machine::window(m2, base + 1, (es@.len() + 1) as nat);
            assert(p.consts[k as int] == Val::Str(name@));
            let id = lemma_builtin(m, name@);
            lemma_method_is_next(m, m1, m2, g3, g4, base, dst, nres, id, k, name@, x, ys);
            (j + l, m2, name@, args)
        },
        _ => (0, m, Seq::empty(), Seq::empty()),
    }
}

/// The machine works a sum out to what it means.
#[verifier::spinoff_prover]
pub(super) proof fn lemma_runs(q: Sums, n: nat, f: Map<u16, Cell>, g: Gen, e: Expr, dst: u16, m: Mach) -> (k:
    nat)
    requires
        is_sum(e),
        ready(m, g, codegen::g_expr(g, e, dst), f),
        dst < g.n_slots || dst + 1 == g.free || (is_flat(e) && dst < g.free),
        meaning::t_expr(q, n, f, e) is Num,
    ensures
        wrote(
            m,
            after(q, m, k),
            g.free,
            dst,
            meaning::t_expr(q, n, f, e)->Num_0,
            codegen::g_expr(g, e, dst).code.len() as int,
        ),
    decreases e, 5int,
{
    let h = codegen::g_expr(g, e, dst);
    let p = machine::cur(m);
    lemma_of_expr(g, e, dst);
    lemma_added(g, e, dst);
    reveal(codegen::g_emit);
    reveal(codegen::g_slot);
    reveal(codegen::fail);
    match e {
        Expr::Num(x) => {
            lemma_const_ok(g, x, dst);
            lemma_const(g, x);
            let (g1, c) = codegen::g_const(g, Val::Num(x));
            assert(p.code[m.pc] == Op::Const { dst, k: c });
            assert(p.consts[c as int] == Val::Num(x));
            lemma_put(q, m, dst, x);
            1
        },
        Expr::Local(b, _) => {
            let x = meaning::t_expr(q, n, f, e)->Num_0;
            assert(f.contains_key(b.slot));
            assert(machine::reg(m, b.slot) == Val::Num(x));
            if b.slot != dst {
                assert(p.code[m.pc] == Op::Move { dst, src: b.slot });
                lemma_put(q, m, dst, x);
                1
            } else {
                0
            }
        },
        Expr::Un(_, a) => {
            let g1 = codegen::g_expr(g, *a, dst);
            lemma_added(g, *a, dst);
            let k = lemma_runs(q, n, f, g, *a, dst, m);
            let m1 = after(q, m, k);
            let x = meaning::t_expr(q, n, f, *a)->Num_0;
            assert(p.code[m1.pc] == Op::Neg { dst, a: dst });
            lemma_put(q, m1, dst, num::negated(x));
            lemma_after(q, m, k, 1);
            k + 1
        },
        Expr::Call(..) | Expr::Method(..) => {
            lemma_runs_call(q, n, f, g, e, dst, m)
        },
        _ => {
            lemma_runs_binary(q, n, f, g, e, dst, m)
        },
    }
}

pub(super) proof fn lemma_runs_operand(q: Sums, n: nat, f: Map<u16, Cell>, g: Gen, e: Expr, m: Mach) -> (k: nat)
    requires
        is_sum(e),
        ready(m, g, codegen::g_operand(g, e).0, f),
        meaning::t_expr(q, n, f, e) is Num,
    ensures
        found(
            m,
            after(q, m, k),
            g.free,
            codegen::g_operand(g, e).0,
            codegen::g_operand(g, e).1,
            meaning::t_expr(q, n, f, e)->Num_0,
        ),
    decreases e, 6int,
{
    let (h, r) = codegen::g_operand(g, e);
    lemma_of_operand(g, e);
    lemma_added_operand(g, e);
    reveal(codegen::g_alloc);
    reveal(codegen::g_slot);
    reveal(codegen::fail);
    match codegen::plain_reg_of(e) {
        Some(slot) => {
            assert(f.contains_key(slot));
            assert(machine::reg(m, slot) == cell_val(f[slot]));
            assert(after(q, m, 0) == moved(m, m.stack, h.code.len() as int));
            0
        },
        None => {
            let (g1, _) = codegen::g_alloc(g);
            lemma_added(g1, e, r);
            lemma_runs(q, n, f, g1, e, r, m)
        },
    }
}

/// A number is in a register, and the registers below `free` are what they were.
pub open spec fn found(m: Mach, m2: Mach, free: u16, h: Gen, r: u16, v: u64) -> bool {
    &&& went(m, m2, h.code.len() as int)
    &&& m2.stack.len() == m.stack.len()
    &&& r < h.free <= h.max_regs
    &&& m2.stack[m.base + r] == Val::Num(v)
    &&& forall|i: int| 0 <= i < m.base + free ==> #[trigger] m2.stack[i] == m.stack[i]
}

#[verifier::spinoff_prover]
proof fn lemma_runs_binary(
    q: Sums,
    n: nat,
    f: Map<u16, Cell>,
    g: Gen,
    e: Expr,
    dst: u16,
    m: Mach,
) -> (k: nat)
    requires
        is_sum(e),
        e is Bin,
        ready(m, g, codegen::g_binary(g, e, dst), f),
        dst < g.free,
        meaning::t_expr(q, n, f, e) is Num,
    ensures
        wrote(
            m,
            after(q, m, k),
            g.free,
            dst,
            meaning::t_expr(q, n, f, e)->Num_0,
            codegen::g_binary(g, e, dst).code.len() as int,
        ),
    decreases e, 1int,
{
    let h = codegen::g_binary(g, e, dst);
    let p = machine::cur(m);
    lemma_parts(g, e, dst);
    lemma_of_binary(g, e, dst);
    match e {
        Expr::Bin(op, a, b) => {
            let (g1, ra, g2, c, g3, rb) = binary_parts(g, *a, *b);
            let kind = codegen::kind_of(op)->Some_0;
            lemma_sum_is_quiet(*a);
            lemma_sum_is_quiet(*b);
            faithful::lemma_quiet(q, n, f, *a);
            faithful::lemma_quiet(q, n, f, *b);
            let x = meaning::t_expr(q, n, f, *a)->Num_0;
            let y = meaning::t_expr(q, n, f, *b)->Num_0;
            assert(has_code(p, g, g1)) by {
                assert forall|i: int| g.code.len() <= i < g1.code.len() implies #[trigger] p.code[i]
                    == bytecode::specialised(g1.code[i]) by {
                    assert(h.code[i] == g1.code[i]);
                }
                assert forall|i: int| 0 <= i < g1.consts.len() implies #[trigger] p.consts[i]
                    == g1.consts[i] by {
                    assert(h.consts[i] == g1.consts[i]);
                }
            }
            let j = lemma_runs_operand(q, n, f, g, *a, m);
            let m1 = after(q, m, j);
            match c {
                Some(c) => {
                    assert(p.code[m1.pc] == bytecode::specialised(
                        Op::BinK { kind, dst, a: ra, k: c },
                    ));
                    assert(p.consts[c as int] == Val::Num(y));
                    lemma_summed(q, m1, kind, x, y, dst);
                    lemma_after(q, m, j, 1);
                    j + 1
                },
                None => {
                    assert(has_code(p, g2, g3)) by {
                        assert forall|i: int| g2.code.len() <= i < g3.code.len() implies
                            #[trigger] p.code[i] == bytecode::specialised(g3.code[i]) by {
                            assert(h.code[i] == g3.code[i]);
                        }
                        assert forall|i: int| 0 <= i < g3.consts.len() implies #[trigger] p.consts[i]
                            == g3.consts[i] by {
                            assert(h.consts[i] == g3.consts[i]);
                        }
                    }
                    assert(in_regs(m1, g2.n_slots, f));
                    let l = lemma_runs_operand(q, n, f, g2, *b, m1);
                    let m2 = after(q, m1, l);
                    lemma_after(q, m, j, l);
                    assert(p.code[m2.pc] == bytecode::specialised(
                        Op::Bin { kind, dst, a: ra, b: rb },
                    ));
                    assert(m2.stack[m.base + ra] == m1.stack[m.base + ra]);
                    lemma_summed(q, m2, kind, x, y, dst);
                    lemma_after(q, m, j + l, 1);
                    j + l + 1
                },
            }
        },
        _ => 0,
    }
}

} // verus!
