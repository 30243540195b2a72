//! The instruction set the machine runs.
//!
//! Registers are a window into one shared value stack. The resolver has
//! already given every local a slot, so slots `0..n_slots` are exactly the
//! locals and everything above them is scratch space the compiler hands out
//! for subexpressions.
use crate::ast::UpvalSrc;
use crate::value::{Val, Value};
use std::rc::Rc;
use vstd::prelude::*;

verus! {

/// A register index within the current frame.
pub type Reg = u16;

/// "As many values as there are", for calls and returns that pass along
/// whatever a callee produced.
pub const MULTI: u16 = 0xffff;

/// The method number of a call that is not a method call.
pub const NO_METHOD: u16 = 0xffff;

#[derive(Clone, Copy, Debug, PartialEq, Eq, Structural)]
pub enum BinKind {
    Add,
    Sub,
    Mul,
    Div,
    Rem,
    Eq,
    Ne,
    Lt,
    Le,
    Gt,
    Ge,
    /// An order that does not hold: not its opposite, where there is none.
    NotLt,
    NotLe,
    NotGt,
    NotGe,
}

#[derive(Clone, Copy, Debug, PartialEq, Eq, Structural)]
pub enum Op {
    /// `dst = consts[k]`
    Const { dst: Reg, k: u16 },
    Nil { dst: Reg },
    Move { dst: Reg, src: Reg },
    /// Two moves in one, the first before the second.
    Move2 { d0: Reg, s0: Reg, d1: Reg, s1: Reg },
    /// `dst = globals[g]`, where `g` indexes this chunk's global name table.
    GetGlobal { dst: Reg, g: u16 },
    SetGlobal { g: u16, src: Reg },
    GetUpval { dst: Reg, idx: u16 },
    SetUpval { idx: u16, src: Reg },
    /// Read through a captured local's cell.
    GetCell { dst: Reg, slot: Reg },
    SetCell { slot: Reg, src: Reg },
    /// Put a *fresh* cell in a slot: a closure made in a loop captures that
    /// iteration's variable, not the one next door.
    NewCell { slot: Reg, src: Reg },
    Bin { kind: BinKind, dst: Reg, a: Reg, b: Reg },
    /// The same, with a constant on the right: `i + 1`, `x < n`, `x % 5`.
    BinK { kind: BinKind, dst: Reg, a: Reg, k: u16 },
    /// The arithmetic that dominates every profile has opcodes of its own.
    Add { dst: Reg, a: Reg, b: Reg },
    Sub { dst: Reg, a: Reg, b: Reg },
    Mul { dst: Reg, a: Reg, b: Reg },
    Div { dst: Reg, a: Reg, b: Reg },
    AddK { dst: Reg, a: Reg, k: u16 },
    SubK { dst: Reg, a: Reg, k: u16 },
    MulK { dst: Reg, a: Reg, k: u16 },
    Neg { dst: Reg, a: Reg },
    Not { dst: Reg, a: Reg },
    /// Join the text of `parts` registers starting at `base`.
    Concat { dst: Reg, base: Reg, parts: u8 },
    Jump { to: u32 },
    JumpIfFalse { cond: Reg, to: u32 },
    JumpIfTrue { cond: Reg, to: u32 },
    /// Compare and branch in one: jump when `a <kind> b` is false.
    JumpIfNot { kind: BinKind, a: Reg, b: Reg, to: u32 },
    /// The same against a constant: `x == 0`, `t[i] == nil`.
    JumpIfNotK { kind: BinKind, a: Reg, k: u16, to: u32 },
    /// A loop's back edge: count the iteration for the JIT and jump. `exit` is
    /// where to continue if the JIT takes the loop over.
    JumpBack { to: u32, id: u32, hint: u16, exit: u32 },
    /// A counted loop's back edge: step, test against the limit, and jump back
    /// into the body if it still holds. Falling through is the loop's exit.
    ForLoop { counter: Reg, limit: Reg, to: u32, id: u32, hint: u16, le: bool },
    /// Callee at `base`, arguments at `base+1..base+1+nargs`. `nres` results
    /// land from `dst`, or all of them at `base` when it is [`MULTI`].
    Call { base: Reg, nargs: u16, nres: u16, dst: Reg },
    /// A call whose callee is a global: nothing sits at `base`.
    CallGlobal { base: Reg, g: u16, nargs: u16, nres: u16, dst: Reg },
    /// The same with one argument, taken from where it already is.
    CallGlobal1 { base: Reg, g: u16, a: Reg, nres: u16, dst: Reg },
    /// `obj.m(..)`: the receiver is at `base+1` and becomes the first argument.
    Method { base: Reg, name: u16, nargs: u16, nres: u16, dst: Reg },
    /// A call whose last argument was itself a call: the fixed arguments are
    /// followed by every value that call produced, as in `print(f())`.
    CallSpread { base: Reg, nargs: u16, nres: u16, method: u16 },
    /// Return `n` values starting at `base`, or the pending multi-value set.
    Ret { base: Reg, n: u16 },
    NewTable { dst: Reg },
    /// `dst = obj[key]`
    GetIndex { dst: Reg, obj: Reg, key: Reg },
    /// `dst = obj[k]` for a constant index: `t[3]`, `node.left`.
    GetIndexK { dst: Reg, obj: Reg, k: u16, ic: u16 },
    /// `obj[key] = val`
    SetIndex { obj: Reg, key: Reg, val: Reg },
    /// `obj[k] = val` for a constant index.
    SetIndexK { obj: Reg, k: u16, val: Reg },
    /// `t.push(v)`, for array literals.
    Append { obj: Reg, val: Reg },
    /// Append everything the last call produced, for `[a, f()]`.
    AppendMulti { obj: Reg },
    Closure { dst: Reg, proto: u16 },
    Range { dst: Reg, a: Reg, b: Reg, inclusive: bool },
    /// Turn a value into something `for` can pull from.
    IterInit { dst: Reg, src: Reg },
    /// Pull the next values into `base..base+count`, jumping to `exit` when
    /// the iterator is done.
    IterNext { iter: Reg, base: Reg, count: u16, exit: u32 },
    /// The back edge of a loop: the loop's id, a counter slot, and where to
    /// continue if the JIT takes the loop over.
    LoopHint { id: u32, hint: u16, exit: u32 },
}

/// A global name a chunk touches.
pub struct GlobalRef {
    pub name: String,
    /// The global's slot, once it has been looked up.
    pub slot: Option<u32>,
}

impl GlobalRef {
    pub fn new(name: String) -> (r: GlobalRef)
        ensures
            r.name == name,
            r.slot is None,
    {
        GlobalRef { name, slot: None }
    }
}

/// Where a parameter lands, and whether a closure captures it.
#[derive(Clone, Copy, Debug, PartialEq, Eq, Structural)]
pub struct ParamSlot {
    pub reg: Reg,
    pub cell: bool,
}

/// One compiled function: its code, and everything the code refers to.
pub struct Proto {
    pub name: String,
    /// The number of the definition this was compiled from.
    pub def_id: usize,
    pub code: Vec<Op>,
    /// One line number per instruction, for error messages.
    pub lines: Vec<u32>,
    pub consts: Vec<Value>,
    pub protos: Vec<Rc<Proto>>,
    /// Global names this function touches.
    pub globals: Vec<GlobalRef>,
    pub n_regs: usize,
    /// How many loops count their iterations.
    pub hints: usize,
    /// How many constant field reads remember where they found their field.
    pub caches: usize,
    /// Parameters, in order, with the register each lands in.
    pub params: Vec<ParamSlot>,
    /// No parameter is captured.
    pub plain_params: bool,
    /// Where a closure of this function finds its captured variables.
    pub upvals: Vec<UpvalSrc>,
}

/// The model of a compiled function.
#[verifier::ext_equal]
pub struct ProtoView {
    pub name: Seq<char>,
    pub def_id: usize,
    pub code: Seq<Op>,
    pub lines: Seq<u32>,
    pub consts: Seq<Val>,
    pub protos: Seq<ProtoView>,
    pub globals: Seq<Seq<char>>,
    pub n_regs: nat,
    pub hints: nat,
    pub caches: nat,
    pub params: Seq<ParamSlot>,
    pub plain_params: bool,
    pub upvals: Seq<UpvalSrc>,
}

/// The names of a run of global references.
pub open spec fn global_names_of(s: Seq<GlobalRef>) -> Seq<Seq<char>> {
    Seq::new(s.len(), |i: int| s[i].name@)
}

pub open spec fn proto_views(s: Seq<Rc<Proto>>) -> Seq<ProtoView>
    decreases s,
{
    if s.len() == 0 {
        Seq::empty()
    } else {
        proto_views(s.drop_last()).push(proto_view(*s.last()))
    }
}

pub open spec fn proto_view(p: Proto) -> ProtoView
    decreases p,
{
    ProtoView {
        name: p.name@,
        def_id: p.def_id,
        code: p.code@,
        lines: p.lines@,
        consts: crate::value::vals(p.consts@),
        protos: proto_views(p.protos@),
        globals: global_names_of(p.globals@),
        n_regs: p.n_regs as nat,
        hints: p.hints as nat,
        caches: p.caches as nat,
        params: p.params@,
        plain_params: p.plain_params,
        upvals: p.upvals@,
    }
}

/// The view of each nested function is the view at its place.
pub proof fn lemma_proto_views(s: Seq<Rc<Proto>>)
    ensures
        proto_views(s).len() == s.len(),
        forall|i: int| 0 <= i < s.len() ==> #[trigger] proto_views(s)[i] == proto_view(*s[i]),
    decreases s,
{
    if s.len() > 0 {
        lemma_proto_views(s.drop_last());
        assert forall|i: int| 0 <= i < s.len() implies #[trigger] proto_views(s)[i] == proto_view(
            *s[i],
        ) by {
            if i < s.len() - 1 {
                assert(s.drop_last()[i] == s[i]);
            }
        }
    }
}

/// Is this a comparison, the only thing a fused branch tests?
pub open spec fn compares(kind: BinKind) -> bool {
    match kind {
        BinKind::Add | BinKind::Sub | BinKind::Mul | BinKind::Div | BinKind::Rem => false,
        _ => true,
    }
}

/// What one instruction may refer to: registers below `n_regs`, constants,
/// globals, nested functions, counters, field caches and captured variables
/// that exist, and code below `len`.
pub open spec fn op_ok(
    op: Op,
    n_regs: nat,
    consts: Seq<Val>,
    n_globals: nat,
    n_protos: nat,
    hints: nat,
    caches: nat,
    n_upvals: nat,
    len: nat,
) -> bool {
    match op {
        Op::Const { dst, k } => dst < n_regs && k < consts.len(),
        Op::Nil { dst } => dst < n_regs,
        Op::Move { dst, src } => dst < n_regs && src < n_regs,
        Op::Move2 { d0, s0, d1, s1 } => d0 < n_regs && s0 < n_regs && d1 < n_regs && s1 < n_regs,
        Op::GetGlobal { dst, g } => dst < n_regs && g < n_globals,
        Op::SetGlobal { g, src } => g < n_globals && src < n_regs,
        Op::GetUpval { dst, idx } => dst < n_regs && idx < n_upvals,
        Op::SetUpval { idx, src } => idx < n_upvals && src < n_regs,
        Op::GetCell { dst, slot } => dst < n_regs && slot < n_regs,
        Op::SetCell { slot, src } => slot < n_regs && src < n_regs,
        Op::NewCell { slot, src } => slot < n_regs && src < n_regs,
        Op::Bin { kind, dst, a, b } => dst < n_regs && a < n_regs && b < n_regs,
        Op::BinK { kind, dst, a, k } => dst < n_regs && a < n_regs && k < consts.len(),
        Op::Add { dst, a, b } => dst < n_regs && a < n_regs && b < n_regs,
        Op::Sub { dst, a, b } => dst < n_regs && a < n_regs && b < n_regs,
        Op::Mul { dst, a, b } => dst < n_regs && a < n_regs && b < n_regs,
        Op::Div { dst, a, b } => dst < n_regs && a < n_regs && b < n_regs,
        Op::AddK { dst, a, k } => dst < n_regs && a < n_regs && k < consts.len(),
        Op::SubK { dst, a, k } => dst < n_regs && a < n_regs && k < consts.len(),
        Op::MulK { dst, a, k } => dst < n_regs && a < n_regs && k < consts.len(),
        Op::Neg { dst, a } => dst < n_regs && a < n_regs,
        Op::Not { dst, a } => dst < n_regs && a < n_regs,
        Op::Concat { dst, base, parts } => dst < n_regs && base + parts <= n_regs,
        Op::Jump { to } => to < len,
        Op::JumpIfFalse { cond, to } => cond < n_regs && to < len,
        Op::JumpIfTrue { cond, to } => cond < n_regs && to < len,
        Op::JumpIfNot { kind, a, b, to } => compares(kind) && a < n_regs && b < n_regs && to < len,
        Op::JumpIfNotK { kind, a, k, to } => compares(kind) && a < n_regs && k < consts.len() && to
            < len,
        Op::JumpBack { to, id, hint, exit } => to < len && hint < hints && exit < len,
        Op::LoopHint { id, hint, exit } => hint < hints && exit < len,
        Op::ForLoop { counter, limit, to, id, hint, le } => counter < n_regs && limit < n_regs && to
            < len && hint < hints,
        Op::Call { base, nargs, nres, dst } => base + nargs < n_regs && results_fit(
            base,
            nres,
            dst,
            n_regs,
        ),
        Op::CallGlobal { base, g, nargs, nres, dst } => base + nargs < n_regs && g < n_globals
            && results_fit(base, nres, dst, n_regs),
        Op::CallGlobal1 { base, g, a, nres, dst } => base < n_regs && a < n_regs && g < n_globals
            && results_fit(base, nres, dst, n_regs),
        Op::Method { base, name, nargs, nres, dst } => base + nargs + 1 < n_regs && name
            < consts.len() && consts[name as int] is Str && results_fit(base, nres, dst, n_regs),
        Op::CallSpread { base, nargs, nres, method } => base + nargs < n_regs && results_fit(
            base,
            nres,
            base,
            n_regs,
        ) && (method != NO_METHOD ==> nargs >= 1 && method < consts.len()
            && consts[method as int] is Str),
        Op::Ret { base, n } => n == MULTI || base + n <= n_regs,
        Op::NewTable { dst } => dst < n_regs,
        Op::GetIndex { dst, obj, key } => dst < n_regs && obj < n_regs && key < n_regs,
        Op::GetIndexK { dst, obj, k, ic } => dst < n_regs && obj < n_regs && k < consts.len() && ic
            < caches && !(consts[k as int] is Nil),
        Op::SetIndex { obj, key, val } => obj < n_regs && key < n_regs && val < n_regs,
        Op::SetIndexK { obj, k, val } => obj < n_regs && k < consts.len() && val < n_regs
            && !(consts[k as int] is Nil),
        Op::Append { obj, val } => obj < n_regs && val < n_regs,
        Op::AppendMulti { obj } => obj < n_regs,
        Op::Closure { dst, proto } => dst < n_regs && proto < n_protos,
        Op::Range { dst, a, b, inclusive } => dst < n_regs && a < n_regs && b < n_regs,
        Op::IterInit { dst, src } => dst < n_regs && src < n_regs,
        Op::IterNext { iter, base, count, exit } => iter < n_regs && base + count <= n_regs && exit
            < len,
    }
}

/// The registers a call's results land in exist.
pub open spec fn results_fit(base: u16, nres: u16, dst: u16, n_regs: nat) -> bool {
    if nres == MULTI || nres == 0 {
        base < n_regs
    } else {
        dst + nres <= n_regs && base < n_regs
    }
}

/// Every instruction of a function refers only to what exists, control never
/// runs off the end of its code, and every capture of a nested function names
/// a variable this one has.
pub open spec fn proto_ok(p: ProtoView) -> bool
    decreases p,
{
    &&& p.lines.len() == p.code.len()
    &&& 0 < p.code.len() <= u32::MAX
    &&& p.code.last() is Ret
    &&& forall|i: int|
        0 <= i < p.code.len() ==> #[trigger] op_ok(
            p.code[i],
            p.n_regs,
            p.consts,
            p.globals.len(),
            p.protos.len(),
            p.hints,
            p.caches,
            p.upvals.len(),
            p.code.len(),
        )
    &&& forall|i: int| 0 <= i < p.params.len() ==> (#[trigger] p.params[i]).reg < p.n_regs
    &&& forall|i: int| 0 <= i < p.protos.len() ==> proto_ok(#[trigger] p.protos[i])
    &&& forall|i: int|
        0 <= i < p.protos.len() ==> captures_ok(
            (#[trigger] p.protos[i]).upvals,
            p.n_regs,
            p.upvals.len(),
        )
}

/// What holds of a function holds of those defined inside it.
pub proof fn lemma_child_ok(p: ProtoView, i: int)
    requires
        proto_ok(p),
        0 <= i < p.protos.len(),
    ensures
        proto_ok(p.protos[i]),
        captures_ok(p.protos[i].upvals, p.n_regs, p.upvals.len()),
{
    assert(proto_ok(p.protos[i]));
}

/// Every capture is of a local or of a captured variable of the function that
/// makes the closure.
pub open spec fn captures_ok(upvals: Seq<UpvalSrc>, n_regs: nat, n_upvals: nat) -> bool {
    forall|i: int|
        0 <= i < upvals.len() ==> match #[trigger] upvals[i] {
            UpvalSrc::ParentLocal(s) => s < n_regs,
            UpvalSrc::ParentUpval(u) => u < n_upvals,
        }
}

/// The comparison that is true exactly when this one is false.
pub open spec fn inverted(kind: BinKind) -> BinKind {
    match kind {
        BinKind::Lt => BinKind::NotLt,
        BinKind::Le => BinKind::NotLe,
        BinKind::Gt => BinKind::NotGt,
        BinKind::Ge => BinKind::NotGe,
        BinKind::NotLt => BinKind::Lt,
        BinKind::NotLe => BinKind::Le,
        BinKind::NotGt => BinKind::Gt,
        BinKind::NotGe => BinKind::Ge,
        BinKind::Eq => BinKind::Ne,
        BinKind::Ne => BinKind::Eq,
        other => other,
    }
}

pub fn invert(kind: BinKind) -> (r: BinKind)
    ensures
        r == inverted(kind),
{
    match kind {
        BinKind::Lt => BinKind::NotLt,
        BinKind::Le => BinKind::NotLe,
        BinKind::Gt => BinKind::NotGt,
        BinKind::Ge => BinKind::NotGe,
        BinKind::NotLt => BinKind::Lt,
        BinKind::NotLe => BinKind::Le,
        BinKind::NotGt => BinKind::Gt,
        BinKind::NotGe => BinKind::Ge,
        BinKind::Eq => BinKind::Ne,
        BinKind::Ne => BinKind::Eq,
        other => other,
    }
}

/// What a comparison says of two numbers.
pub open spec fn compare_nums(kind: BinKind, x: u64, y: u64) -> bool {
    match kind {
        BinKind::Lt => crate::num::less(x, y),
        BinKind::Le => crate::num::less_or_equal(x, y),
        BinKind::Gt => crate::num::less(y, x),
        BinKind::Ge => crate::num::less_or_equal(y, x),
        BinKind::Eq => crate::num::equal(x, y),
        BinKind::Ne => !crate::num::equal(x, y),
        BinKind::NotLt => !crate::num::less(x, y),
        BinKind::NotLe => !crate::num::less_or_equal(x, y),
        BinKind::NotGt => !crate::num::less(y, x),
        BinKind::NotGe => !crate::num::less_or_equal(y, x),
        _ => false,
    }
}

/// Turning a comparison over twice leaves it alone.
pub proof fn lemma_invert_involutive(kind: BinKind)
    ensures
        inverted(inverted(kind)) == kind,
{
}

/// Of two numbers, a comparison fails exactly when its opposite holds, whether
/// or not there is an order between them.
pub proof fn lemma_invert_complements(kind: BinKind, x: u64, y: u64)
    requires
        compares(kind),
    ensures
        compare_nums(inverted(kind), x, y) == !compare_nums(kind, x, y),
{
}

/// The specialised form of an instruction, when it has one.
pub open spec fn specialised(op: Op) -> Op {
    match op {
        Op::Bin { kind: BinKind::Add, dst, a, b } => Op::Add { dst, a, b },
        Op::Bin { kind: BinKind::Sub, dst, a, b } => Op::Sub { dst, a, b },
        Op::Bin { kind: BinKind::Mul, dst, a, b } => Op::Mul { dst, a, b },
        Op::Bin { kind: BinKind::Div, dst, a, b } => Op::Div { dst, a, b },
        Op::BinK { kind: BinKind::Add, dst, a, k } => Op::AddK { dst, a, k },
        Op::BinK { kind: BinKind::Sub, dst, a, k } => Op::SubK { dst, a, k },
        Op::BinK { kind: BinKind::Mul, dst, a, k } => Op::MulK { dst, a, k },
        other => other,
    }
}

/// Turn the generic arithmetic instructions into their specialised forms.
pub fn specialise(code: Vec<Op>) -> (r: Vec<Op>)
    ensures
        r@ == code@.map_values(|op: Op| specialised(op)),
{
    let mut out: Vec<Op> = Vec::new();
    let mut i: usize = 0;
    while i < code.len()
        invariant
            i <= code@.len(),
            out@ == code@.take(i as int).map_values(|op: Op| specialised(op)),
        decreases code@.len() - i,
    {
        let op = match code[i] {
            Op::Bin { kind: BinKind::Add, dst, a, b } => Op::Add { dst, a, b },
            Op::Bin { kind: BinKind::Sub, dst, a, b } => Op::Sub { dst, a, b },
            Op::Bin { kind: BinKind::Mul, dst, a, b } => Op::Mul { dst, a, b },
            Op::Bin { kind: BinKind::Div, dst, a, b } => Op::Div { dst, a, b },
            Op::BinK { kind: BinKind::Add, dst, a, k } => Op::AddK { dst, a, k },
            Op::BinK { kind: BinKind::Sub, dst, a, k } => Op::SubK { dst, a, k },
            Op::BinK { kind: BinKind::Mul, dst, a, k } => Op::MulK { dst, a, k },
            other => other,
        };
        out.push(op);
        i = i + 1;
        assert(out@ =~= code@.take(i as int).map_values(|op: Op| specialised(op)));
    }
    assert(code@.take(code@.len() as int) == code@);
    out
}

} // verus!
