//! Syntax to bytecode.
//!
//! The resolver has already turned names into frame slots, so this pass is
//! mostly about laying out registers: locals keep their slots, and anything
//! else the compiler needs is a temporary above them.
use crate::ast::{BinOp, Binding, Expr, FuncDef, UpvalSrc};
use crate::bytecode;
use crate::bytecode::{BinKind, GlobalRef, Op, ParamSlot, Proto, MULTI};
use crate::codegen;
use crate::codegen::{Fault, Gen, LoopGen};
use crate::value;
use crate::value::{Val, Value};
use std::rc::Rc;
use vstd::prelude::*;

mod body;
mod call;
mod expr;
mod stat;

pub use body::compile_chunk;

verus! {

/// The jumps of one loop that wait for their target.
struct LoopCtx {
    breaks: Vec<usize>,
    continues: Vec<usize>,
}

/// One function on its way to bytecode.
pub struct FnCompiler {
    code: Vec<Op>,
    lines: Vec<u32>,
    consts: Vec<Value>,
    protos: Vec<Rc<Proto>>,
    globals: Vec<GlobalRef>,
    hints: usize,
    caches: usize,
    free: u16,
    max_regs: u16,
    loops: Vec<LoopCtx>,
    line: u32,
    bad: Option<Fault>,
    n_slots: u16,
    n_upvals: usize,
}

spec fn loop_views(s: Seq<LoopCtx>) -> Seq<LoopGen> {
    Seq::new(
        s.len(),
        |i: int| LoopGen { breaks: s[i].breaks@, continues: s[i].continues@ },
    )
}

impl View for FnCompiler {
    type V = Gen;

    closed spec fn view(&self) -> Gen {
        Gen {
            code: self.code@,
            lines: self.lines@,
            consts: value::vals(self.consts@),
            protos: bytecode::proto_views(self.protos@),
            globals: bytecode::global_names_of(self.globals@),
            hints: self.hints as nat,
            caches: self.caches as nat,
            free: self.free,
            max_regs: self.max_regs,
            loops: loop_views(self.loops@),
            line: self.line,
            bad: self.bad,
            n_slots: self.n_slots,
            n_upvals: self.n_upvals as nat,
        }
    }
}

// ---- what holds of a function being compiled --------------------------------------

/// The tables stay small enough to be numbered, and there is a line for every
/// instruction.
pub open spec fn sized(g: Gen) -> bool {
    &&& g.lines.len() == g.code.len()
    &&& g.code.len() <= u32::MAX
    &&& g.consts.len() <= MULTI
    &&& g.globals.len() <= MULTI
    &&& g.hints <= MULTI
    &&& g.caches <= MULTI
    &&& g.bad is None ==> g.n_slots <= g.free <= g.max_regs
}

/// One instruction refers only to what the function has.
pub open spec fn fits(op: Op, g: Gen, len: nat) -> bool {
    bytecode::op_ok(
        op,
        (g.max_regs + 1) as nat,
        g.consts,
        g.globals.len(),
        g.protos.len(),
        g.hints,
        g.caches,
        g.n_upvals,
        len,
    )
}

/// Every instruction so far refers only to what the function has, and jumps
/// at most `extra - 1` past the end.
#[verifier::opaque]
pub open spec fn sound(g: Gen, extra: nat) -> bool {
    g.bad is None ==> {
        &&& forall|i: int| 0 <= i < g.code.len() ==> fits(#[trigger] g.code[i], g, g.code.len() + extra)
        &&& forall|i: int| 0 <= i < g.protos.len() ==> bytecode::proto_ok(#[trigger] g.protos[i])
        &&& forall|i: int|
            0 <= i < g.protos.len() ==> bytecode::captures_ok(
                (#[trigger] g.protos[i]).upvals,
                (g.max_regs + 1) as nat,
                g.n_upvals,
            )
    }
}

/// Compiling only adds, and as many loops are under way after as before.
pub open spec fn grows(a: Gen, b: Gen) -> bool {
    adds(a, b) && a.loops.len() == b.loops.len()
}

/// Compiling only adds: what was there keeps its number.
pub open spec fn adds(a: Gen, b: Gen) -> bool {
    &&& a.n_slots == b.n_slots
    &&& a.n_upvals == b.n_upvals
    &&& a.max_regs <= b.max_regs
    &&& a.hints <= b.hints
    &&& a.caches <= b.caches
    &&& a.globals.len() <= b.globals.len()
    &&& a.protos.len() <= b.protos.len()
    &&& a.code.len() <= b.code.len()
    &&& a.consts.len() <= b.consts.len()
    &&& a.bad is Some ==> b.bad == a.bad
    &&& forall|k: int| 0 <= k < a.consts.len() ==> #[trigger] b.consts[k] == a.consts[k]
}

proof fn lemma_fits_grows(op: Op, a: Gen, b: Gen, m: nat, n: nat)
    requires
        fits(op, a, m),
        adds(a, b),
        m <= n,
    ensures
        fits(op, b, n),
{
}

/// Nothing but the tables and the registers in use changed.
proof fn lemma_sound_grows(a: Gen, b: Gen, extra: nat)
    requires
        sound(a, extra),
        adds(a, b),
        a.code == b.code,
        a.protos == b.protos,
    ensures
        sound(b, extra),
{
    reveal(sound);
    if b.bad is None {
        assert forall|i: int| 0 <= i < b.code.len() implies fits(
            #[trigger] b.code[i],
            b,
            b.code.len() + extra,
        ) by {
            lemma_fits_grows(a.code[i], a, b, a.code.len() + extra, b.code.len() + extra);
        }
        assert forall|i: int| 0 <= i < b.protos.len() implies bytecode::captures_ok(
            (#[trigger] b.protos[i]).upvals,
            (b.max_regs + 1) as nat,
            b.n_upvals,
        ) by {
            assert(bytecode::captures_ok(a.protos[i].upvals, (a.max_regs + 1) as nat, a.n_upvals));
        }
    }
}

proof fn lemma_sound_weaker(g: Gen)
    requires
        sound(g, 0),
    ensures
        sound(g, 1),
{
    reveal(sound);
    if g.bad is None {
        assert forall|i: int| 0 <= i < g.code.len() implies fits(
            #[trigger] g.code[i],
            g,
            g.code.len() + 1,
        ) by {
            lemma_fits_grows(g.code[i], g, g, g.code.len(), g.code.len() + 1);
        }
    }
}

proof fn lemma_sound_emit(a: Gen, op: Op)
    requires
        sound(a, 1),
        sized(a),
        a.bad is None ==> fits(op, a, a.code.len() + 1),
    ensures
        sound(codegen::g_emit(a, op), 0),
        sound(codegen::g_emit(a, op), 1),
        sized(codegen::g_emit(a, op)),
        grows(a, codegen::g_emit(a, op)),
{
    reveal(codegen::g_emit);
    reveal(codegen::fail);
    reveal(sound);
    let b = codegen::g_emit(a, op);
    if b.bad is None {
        assert forall|i: int| 0 <= i < b.code.len() implies fits(
            #[trigger] b.code[i],
            b,
            b.code.len(),
        ) by {
            if i < a.code.len() {
                lemma_fits_grows(a.code[i], a, b, a.code.len() + 1, b.code.len());
            } else {
                lemma_fits_grows(op, a, b, a.code.len() + 1, b.code.len());
            }
        }
    }
    lemma_sound_weaker(b);
}

proof fn lemma_sound_patch(a: Gen, at: usize, t: u32)
    requires
        sound(a, 1),
        t <= a.code.len(),
    ensures
        sound(codegen::g_patch_to(a, at, t), 1),
        grows(a, codegen::g_patch_to(a, at, t)),
{
    reveal(codegen::g_patch_to);
    reveal(sound);
    let b = codegen::g_patch_to(a, at, t);
    if b.bad is None && at < a.code.len() {
        assert forall|i: int| 0 <= i < b.code.len() implies fits(
            #[trigger] b.code[i],
            b,
            b.code.len() + 1,
        ) by {
            assert(fits(a.code[i], a, a.code.len() + 1));
        }
    }
}

proof fn lemma_sound_patch_hint(a: Gen, at: nat)
    requires
        sound(a, 1),
        sized(a),
    ensures
        sound(codegen::g_patch_hint(a, at), 1),
        sized(codegen::g_patch_hint(a, at)),
        grows(a, codegen::g_patch_hint(a, at)),
{
    reveal(codegen::g_patch_hint);
    reveal(sound);
    let b = codegen::g_patch_hint(a, at);
    if b.bad is None && at < a.code.len() {
        assert forall|i: int| 0 <= i < b.code.len() implies fits(
            #[trigger] b.code[i],
            b,
            b.code.len() + 1,
        ) by {
            assert(fits(a.code[i], a, a.code.len() + 1));
        }
    }
}

proof fn lemma_sound_patch_all(a: Gen, ats: Seq<usize>, t: u32)
    requires
        sound(a, 1),
        sized(a),
        t <= a.code.len(),
    ensures
        sound(codegen::g_patch_all_to(a, ats, t), 1),
        sized(codegen::g_patch_all_to(a, ats, t)),
        grows(a, codegen::g_patch_all_to(a, ats, t)),
        codegen::g_patch_all_to(a, ats, t).code.len() == a.code.len(),
        codegen::g_patch_all_to(a, ats, t) == (Gen {
            code: codegen::g_patch_all_to(a, ats, t).code,
            ..a
        }),
    decreases ats.len(),
{
    reveal(codegen::g_patch_all_to);
    reveal(codegen::g_patch_to);
    if ats.len() > 0 {
        lemma_sound_patch(a, ats[0], t);
        lemma_sound_patch_all(codegen::g_patch_to(a, ats[0], t), ats.drop_first(), t);
    }
}

/// What every part of the compiler keeps.
pub open spec fn good(g: Gen) -> bool {
    sized(g) && sound(g, 1)
}

/// A register the function has.
spec fn has_reg(g: Gen, r: u16) -> bool {
    g.bad is None ==> r <= g.max_regs
}

impl FnCompiler {
    // ---- registers and constants ---------------------------------------------------

    fn new(n_slots: usize, n_upvals: usize) -> (r: FnCompiler)
        ensures
            r@ == codegen::g_new(n_slots as nat, n_upvals as nat),
            good(r@),
            r@.n_upvals == n_upvals,
    {
        let (slots, bad) = if n_slots < 65535 {
            (n_slots as u16, None)
        } else {
            (0u16, Some(Fault::TooLarge))
        };
        let out = FnCompiler {
            code: Vec::new(),
            lines: Vec::new(),
            consts: Vec::new(),
            protos: Vec::new(),
            globals: Vec::new(),
            hints: 0,
            caches: 0,
            free: slots,
            max_regs: slots,
            loops: Vec::new(),
            line: 0,
            bad,
            n_slots: slots,
            n_upvals,
        };
        proof {
            reveal(sound);
            assert(out@ =~= codegen::g_new(n_slots as nat, n_upvals as nat));
        }
        out
    }

    /// The first register not in use.
    fn mark(&self) -> (r: u16)
        ensures
            r == self@.free,
    {
        self.free
    }

    /// How many slots the locals take.
    fn def_locals(&self) -> (r: u16)
        ensures
            r == self@.n_slots,
    {
        self.n_slots
    }

    /// How many variables are captured.
    fn captured(&self) -> (r: usize)
        ensures
            r == self@.n_upvals,
    {
        self.n_upvals
    }

    fn n_protos(&self) -> (r: usize)
        ensures
            r == self@.protos.len(),
    {
        proof {
            bytecode::lemma_proto_views(self.protos@);
        }
        self.protos.len()
    }

    fn fail(&mut self, f: Fault)
        requires
            good(old(self)@),
        ensures
            final(self)@ == codegen::fail(old(self)@, f),
            good(final(self)@),
            grows(old(self)@, final(self)@),
            final(self)@.bad is Some,
    {
        if self.bad.is_none() {
            self.bad = Some(f);
        }
        proof {
            reveal(sound);
            reveal(codegen::fail);
        }
    }

    fn take_reg(&mut self) -> (r: u16)
        requires
            good(old(self)@),
        ensures
            (final(self)@, r) == codegen::g_alloc(old(self)@),
            good(final(self)@),
            grows(old(self)@, final(self)@),
            r == old(self)@.free,
            final(self)@.code.len() == old(self)@.code.len(),
            final(self)@.bad is None ==> final(self)@.n_slots <= r < final(self)@.max_regs
                && final(self)@.free == old(self)@.free + 1,
    {
        proof {
            reveal(codegen::g_alloc);
        }
        let r: u16 = self.free;
        if r == 65535 {
            self.fail(Fault::TooLarge);
            proof {
                reveal(codegen::fail);
            }
            return r;
        }
        self.free = r + 1;
        if r + 1 > self.max_regs {
            self.max_regs = r + 1;
        }
        proof {
            lemma_sound_grows(old(self)@, self@, 1);
        }
        r
    }

    fn take_regs(&mut self, n: usize)
        requires
            good(old(self)@),
        ensures
            final(self)@ == codegen::g_allocs(old(self)@, n as nat),
            good(final(self)@),
            grows(old(self)@, final(self)@),
            final(self)@.code.len() == old(self)@.code.len(),
            final(self)@.bad is None ==> final(self)@.free == old(self)@.free + n,
    {
        proof {
            reveal(codegen::g_allocs);
        }
        let mut i: usize = 0;
        while i < n
            invariant
                i <= n,
                codegen::g_allocs(self@, (n - i) as nat) == codegen::g_allocs(old(self)@, n as nat),
                good(self@),
                grows(old(self)@, self@),
                self@.code.len() == old(self)@.code.len(),
                self@.bad is None ==> self@.free == old(self)@.free + i,
            decreases n - i,
        {
            proof {
                reveal(codegen::g_allocs);
            }
            self.take_reg();
            i = i + 1;
        }
    }

    fn release(&mut self, mark: u16)
        requires
            good(old(self)@),
            old(self)@.bad is None ==> old(self)@.n_slots <= mark <= old(self)@.max_regs,
        ensures
            final(self)@ == codegen::g_release(old(self)@, mark),
            good(final(self)@),
            grows(old(self)@, final(self)@),
            sound(old(self)@, 0) ==> sound(final(self)@, 0),
            final(self)@.free == mark,
            final(self)@.code == old(self)@.code,
            final(self)@.bad == old(self)@.bad,
    {
        proof {
            reveal(codegen::g_release);
        }
        self.free = mark;
        proof {
            lemma_sound_grows(old(self)@, self@, 1);
            if sound(old(self)@, 0) {
                lemma_sound_grows(old(self)@, self@, 0);
            }
        }
    }

    /// A local's slot has to be one of the frame's.
    fn slot(&mut self, slot: u16)
        requires
            good(old(self)@),
        ensures
            final(self)@ == codegen::g_slot(old(self)@, slot),
            good(final(self)@),
            grows(old(self)@, final(self)@),
            final(self)@.free == old(self)@.free,
            final(self)@.code == old(self)@.code,
            final(self)@.bad is None ==> slot < final(self)@.n_slots <= final(self)@.max_regs,
    {
        proof {
            reveal(codegen::g_slot);
            reveal(codegen::fail);
        }
        if slot >= self.n_slots {
            self.fail(Fault::Unresolved);
        }
    }

    fn upval(&mut self, i: u16)
        requires
            good(old(self)@),
        ensures
            final(self)@ == codegen::g_upval(old(self)@, i),
            good(final(self)@),
            grows(old(self)@, final(self)@),
            final(self)@.free == old(self)@.free,
            final(self)@.bad is None ==> i < final(self)@.n_upvals,
    {
        proof {
            reveal(codegen::g_upval);
            reveal(codegen::fail);
        }
        if i as usize >= self.n_upvals {
            self.fail(Fault::Unresolved);
        }
    }

    /// The instruction of an operator that does not branch.
    fn kind(&mut self, op: BinOp) -> (r: BinKind)
        requires
            good(old(self)@),
        ensures
            (final(self)@, r) == codegen::g_kind(old(self)@, op),
            good(final(self)@),
            grows(old(self)@, final(self)@),
            final(self)@.free == old(self)@.free,
    {
        proof {
            reveal(codegen::g_kind);
            reveal(codegen::fail);
        }
        match bin_kind(op) {
            Some(k) => k,
            None => {
                self.fail(Fault::Unresolved);
                BinKind::Add
            },
        }
    }

    fn count(&mut self, n: usize) -> (r: u16)
        requires
            good(old(self)@),
        ensures
            (final(self)@, r) == codegen::g_count(old(self)@, n as nat),
            good(final(self)@),
            grows(old(self)@, final(self)@),
            final(self)@.free == old(self)@.free,
            final(self)@.code == old(self)@.code,
            final(self)@.protos == old(self)@.protos,
            r <= n,
            final(self)@.bad is None ==> r == n && n < MULTI,
    {
        proof {
            reveal(codegen::g_count);
            reveal(codegen::fail);
        }
        if n < 65535 {
            n as u16
        } else {
            self.fail(Fault::TooLarge);
            0
        }
    }

    fn plus(&mut self, base: u16, i: usize) -> (r: u16)
        requires
            good(old(self)@),
        ensures
            (final(self)@, r) == codegen::g_plus(old(self)@, base, i as nat),
            good(final(self)@),
            grows(old(self)@, final(self)@),
            final(self)@.free == old(self)@.free,
            final(self)@.bad is None ==> r == base + i,
    {
        proof {
            reveal(codegen::g_plus);
            reveal(codegen::fail);
        }
        if i <= 65535 && base as usize + i <= 65535 {
            base + i as u16
        } else {
            self.fail(Fault::TooLarge);
            base
        }
    }

    fn constant(&mut self, v: Value) -> (r: u16)
        requires
            good(old(self)@),
        ensures
            (final(self)@, r) == codegen::g_const(old(self)@, v@),
            good(final(self)@),
            grows(old(self)@, final(self)@),
            final(self)@.free == old(self)@.free,
            final(self)@.bad is None ==> r < final(self)@.consts.len() && alike(
                final(self)@.consts[r as int],
                v@,
            ),
    {
        proof {
            reveal(codegen::g_const);
            reveal(codegen::fail);
            reveal(codegen::find_const);
        }
        let mut i: usize = 0;
        while i < self.consts.len()
            invariant
                *self == *old(self),
                good(self@),
                i <= self.consts@.len(),
                codegen::find_const(self@.consts, v@, i as nat) == codegen::find_const(
                    self@.consts,
                    v@,
                    0,
                ),
            decreases self.consts@.len() - i,
        {
            proof {
                reveal(codegen::g_const);
                reveal(codegen::find_const);
            }
            if self.consts[i].equals(&v) {
                return i as u16;
            }
            i = i + 1;
        }
        if self.consts.len() < 65535 {
            let n: u16 = self.consts.len() as u16;
            self.consts.push(v);
            proof {
                assert(self@.consts =~= old(self)@.consts.push(v@));
                lemma_sound_grows(old(self)@, self@, 1);
            }
            n
        } else {
            self.fail(Fault::TooLarge);
            0
        }
    }

    fn maybe_constant(&mut self, v: Option<Value>) -> (r: Option<u16>)
        requires
            good(old(self)@),
        ensures
            (final(self)@, r) == codegen::g_maybe_const(old(self)@, view_opt(v)),
            good(final(self)@),
            grows(old(self)@, final(self)@),
            final(self)@.free == old(self)@.free,
            v is Some <==> r is Some,
            final(self)@.bad is None ==> match (v, r) {
                (Some(v), Some(k)) => k < final(self)@.consts.len() && alike(
                    final(self)@.consts[k as int],
                    v@,
                ),
                _ => true,
            },
    {
        proof {
            reveal(codegen::g_maybe_const);
        }
        match v {
            Some(v) => Some(self.constant(v)),
            None => None,
        }
    }

    fn global(&mut self, name: &String) -> (r: u16)
        requires
            good(old(self)@),
        ensures
            (final(self)@, r) == codegen::g_global(old(self)@, name@),
            good(final(self)@),
            grows(old(self)@, final(self)@),
            final(self)@.bad is None ==> r < final(self)@.globals.len(),
            final(self)@.free == old(self)@.free,
    {
        proof {
            reveal(codegen::g_global);
            reveal(codegen::fail);
            reveal(codegen::find_global);
        }
        let mut i: usize = 0;
        while i < self.globals.len()
            invariant
                *self == *old(self),
                good(self@),
                i <= self.globals@.len(),
                codegen::find_global(self@.globals, name@, i as nat) == codegen::find_global(
                    self@.globals,
                    name@,
                    0,
                ),
            decreases self.globals@.len() - i,
        {
            proof {
                reveal(codegen::g_global);
                reveal(codegen::find_global);
            }
            if self.globals[i].name == *name {
                return i as u16;
            }
            i = i + 1;
        }
        if self.globals.len() < 65535 {
            let n: u16 = self.globals.len() as u16;
            self.globals.push(GlobalRef::new(name.clone()));
            proof {
                assert(self@.globals =~= old(self)@.globals.push(name@));
                lemma_sound_grows(old(self)@, self@, 1);
            }
            n
        } else {
            self.fail(Fault::TooLarge);
            0
        }
    }

    /// A fresh iteration counter for a loop.
    fn next_hint(&mut self) -> (r: u16)
        requires
            good(old(self)@),
        ensures
            (final(self)@, r) == codegen::g_hint(old(self)@),
            good(final(self)@),
            grows(old(self)@, final(self)@),
            final(self)@.free == old(self)@.free,
            final(self)@.bad is None ==> r < final(self)@.hints,
    {
        proof {
            reveal(codegen::g_hint);
            reveal(codegen::fail);
        }
        if self.hints < 65535 {
            let hint: u16 = self.hints as u16;
            self.hints = self.hints + 1;
            proof {
                lemma_sound_grows(old(self)@, self@, 1);
            }
            hint
        } else {
            self.fail(Fault::TooLarge);
            0
        }
    }

    /// A fresh inline cache for one constant field read.
    fn next_cache(&mut self) -> (r: u16)
        requires
            good(old(self)@),
        ensures
            (final(self)@, r) == codegen::g_cache(old(self)@),
            good(final(self)@),
            grows(old(self)@, final(self)@),
            final(self)@.free == old(self)@.free,
            final(self)@.bad is None ==> r < final(self)@.caches,
    {
        proof {
            reveal(codegen::g_cache);
            reveal(codegen::fail);
        }
        if self.caches < 65535 {
            let at: u16 = self.caches as u16;
            self.caches = self.caches + 1;
            proof {
                lemma_sound_grows(old(self)@, self@, 1);
            }
            at
        } else {
            self.fail(Fault::TooLarge);
            0
        }
    }

    // ---- instructions and jumps ------------------------------------------------------

    fn emit(&mut self, op: Op) -> (at: usize)
        requires
            good(old(self)@),
            old(self)@.bad is None ==> fits(op, old(self)@, old(self)@.code.len() + 1),
        ensures
            final(self)@ == codegen::g_emit(old(self)@, op),
            good(final(self)@),
            sound(final(self)@, 0),
            grows(old(self)@, final(self)@),
            final(self)@.free == old(self)@.free,
            at == old(self)@.code.len(),
            final(self)@.bad is None ==> final(self)@.code.len() == at + 1
                && final(self)@.code.last() == op,
    {
        let at: usize = self.code.len();
        proof {
            lemma_sound_emit(self@, op);
            reveal(codegen::g_emit);
            reveal(codegen::fail);
        }
        if at < 0xffff_ffff {
            self.code.push(op);
            let line: u32 = self.line;
            self.lines.push(line);
        } else {
            self.fail(Fault::TooLarge);
        }
        at
    }

    fn here(&self) -> (r: u32)
        requires
            sized(self@),
        ensures
            r == codegen::here(self@),
            r == self@.code.len(),
    {
        self.code.len() as u32
    }

    fn set_line(&mut self, line: u32)
        requires
            good(old(self)@),
        ensures
            final(self)@ == (Gen { line, ..old(self)@ }),
            good(final(self)@),
            grows(old(self)@, final(self)@),
    {
        self.line = line;
        proof {
            lemma_sound_grows(old(self)@, self@, 1);
        }
    }

    fn tail_line(&mut self, line: u32)
        requires
            good(old(self)@),
        ensures
            final(self)@ == codegen::g_tail_line(old(self)@, line),
            good(final(self)@),
            grows(old(self)@, final(self)@),
            final(self)@.free == old(self)@.free,
    {
        proof {
            reveal(codegen::g_tail_line);
        }
        if line > 0 {
            self.set_line(line);
        }
    }

    fn patch_to(&mut self, at: usize, t: u32)
        requires
            good(old(self)@),
            t <= old(self)@.code.len(),
        ensures
            final(self)@ == codegen::g_patch_to(old(self)@, at, t),
            good(final(self)@),
            grows(old(self)@, final(self)@),
            final(self)@.free == old(self)@.free,
            final(self)@.code.len() == old(self)@.code.len(),
    {
        proof {
            lemma_sound_patch(self@, at, t);
            reveal(codegen::g_patch_to);
        }
        if at < self.code.len() {
            let op = match self.code[at] {
                Op::Jump { to } => Op::Jump { to: t },
                Op::JumpIfFalse { cond, to } => Op::JumpIfFalse { cond, to: t },
                Op::JumpIfTrue { cond, to } => Op::JumpIfTrue { cond, to: t },
                Op::JumpIfNot { kind, a, b, to } => Op::JumpIfNot { kind, a, b, to: t },
                Op::JumpIfNotK { kind, a, k, to } => Op::JumpIfNotK { kind, a, k, to: t },
                Op::IterNext { iter, base, count, exit } => Op::IterNext {
                    iter,
                    base,
                    count,
                    exit: t,
                },
                other => other,
            };
            self.code.set(at, op);
        }
        assert(self@ =~= codegen::g_patch_to(old(self)@, at, t));
    }

    fn patch_all_to(&mut self, ats: &Vec<usize>, t: u32)
        requires
            good(old(self)@),
            t <= old(self)@.code.len(),
        ensures
            final(self)@ == codegen::g_patch_all_to(old(self)@, ats@, t),
            good(final(self)@),
            grows(old(self)@, final(self)@),
            final(self)@.free == old(self)@.free,
            final(self)@.bad == old(self)@.bad,
            final(self)@.code.len() == old(self)@.code.len(),
    {
        proof {
            lemma_sound_patch_all(self@, ats@, t);
            reveal(codegen::g_patch_all_to);
        }
        let mut i: usize = 0;
        assert(ats@.skip(0) == ats@);
        while i < ats.len()
            invariant
                i <= ats@.len(),
                good(self@),
                t <= self@.code.len(),
                codegen::g_patch_all_to(self@, ats@.skip(i as int), t) == codegen::g_patch_all_to(
                    old(self)@,
                    ats@,
                    t,
                ),
            decreases ats@.len() - i,
        {
            proof {
                reveal(codegen::g_patch_all_to);
            }
            self.patch_to(ats[i], t);
            assert(ats@.skip(i as int).drop_first() == ats@.skip(i + 1));
            i = i + 1;
        }
    }

    /// Point jumps at the next instruction.
    fn patch_all(&mut self, ats: &Vec<usize>)
        requires
            good(old(self)@),
        ensures
            final(self)@ == codegen::g_patch_all(old(self)@, ats@),
            good(final(self)@),
            grows(old(self)@, final(self)@),
            final(self)@.free == old(self)@.free,
            final(self)@.bad == old(self)@.bad,
            final(self)@.code.len() == old(self)@.code.len(),
    {
        proof {
            reveal(codegen::g_patch_all);
        }
        let t: u32 = self.here();
        self.patch_all_to(ats, t);
    }

    fn patch_hint(&mut self, at: usize)
        requires
            good(old(self)@),
        ensures
            final(self)@ == codegen::g_patch_hint(old(self)@, at as nat),
            good(final(self)@),
            grows(old(self)@, final(self)@),
            final(self)@.free == old(self)@.free,
            final(self)@.bad == old(self)@.bad,
    {
        proof {
            lemma_sound_patch_hint(self@, at as nat);
            reveal(codegen::g_patch_hint);
        }
        let t: u32 = self.here();
        if at < self.code.len() {
            let op = match self.code[at] {
                Op::JumpBack { to, id, hint, exit } => Op::JumpBack { to, id, hint, exit: t },
                other => other,
            };
            self.code.set(at, op);
        }
        assert(self@ =~= codegen::g_patch_hint(old(self)@, at as nat));
    }

    fn enter_loop(&mut self, breaks: Vec<usize>)
        requires
            good(old(self)@),
        ensures
            final(self)@ == codegen::g_enter(old(self)@, breaks@),
            good(final(self)@),
            adds(old(self)@, final(self)@),
            final(self)@.loops.len() == old(self)@.loops.len() + 1,
            final(self)@.free == old(self)@.free,
            final(self)@.code == old(self)@.code,
    {
        self.loops.push(LoopCtx { breaks, continues: Vec::new() });
        proof {
            reveal(codegen::g_enter);
            lemma_sound_grows(old(self)@, self@, 1);
            assert(self@.loops =~= codegen::g_enter(old(self)@, breaks@).loops);
        }
    }

    fn leave_loop(&mut self) -> (r: LoopCtx)
        requires
            good(old(self)@),
        ensures
            (final(self)@, LoopGen { breaks: r.breaks@, continues: r.continues@ })
                == codegen::g_leave(old(self)@),
            good(final(self)@),
            adds(old(self)@, final(self)@),
            old(self)@.loops.len() > 0 ==> final(self)@.loops.len() == old(self)@.loops.len() - 1,
            old(self)@.loops.len() == 0 ==> final(self)@.loops.len() == 0,
            final(self)@.free == old(self)@.free,
            final(self)@.code == old(self)@.code,
    {
        let top = self.loops.pop();
        proof {
            reveal(codegen::g_leave);
            lemma_sound_grows(old(self)@, self@, 1);
            assert(self@.loops =~= codegen::g_leave(old(self)@).0.loops);
        }
        match top {
            Some(c) => c,
            None => {
                let c = LoopCtx { breaks: Vec::new(), continues: Vec::new() };
                assert(c.breaks@ =~= Seq::empty());
                assert(c.continues@ =~= Seq::empty());
                c
            },
        }
    }

    /// `break`, or `continue`: a jump that waits for its loop to end, or for
    /// its next turn.
    fn jump_out(&mut self, leave: bool)
        requires
            good(old(self)@),
        ensures
            final(self)@ == if leave {
                codegen::g_break(old(self)@)
            } else {
                codegen::g_continue(old(self)@)
            },
            good(final(self)@),
            grows(old(self)@, final(self)@),
            final(self)@.free == old(self)@.free,
    {
        proof {
            reveal(codegen::g_break);
            reveal(codegen::g_continue);
        }
        if self.loops.len() == 0 {
            self.emit(Op::Nil { dst: 0 });
            return;
        }
        let at: usize = self.emit(Op::Jump { to: 0 });
        let ghost mid = self@;
        proof {
            reveal(codegen::g_emit);
            reveal(codegen::fail);
        }
        let top = self.loops.pop();
        match top {
            Some(mut c) => {
                if leave {
                    c.breaks.push(at);
                } else {
                    c.continues.push(at);
                }
                self.loops.push(c);
            },
            None => {},
        }
        proof {
            lemma_sound_grows(mid, self@, 1);
            assert(self@.loops =~= if leave {
                codegen::g_break(old(self)@).loops
            } else {
                codegen::g_continue(old(self)@).loops
            });
        }
    }

    fn add_proto(&mut self, proto: Proto, idx: u16)
        requires
            good(old(self)@),
            bytecode::proto_ok(bytecode::proto_view(proto)),
            bytecode::captures_ok(
                proto.upvals@,
                old(self)@.n_slots as nat,
                old(self)@.n_upvals,
            ),
            old(self)@.bad is None ==> idx == old(self)@.protos.len(),
        ensures
            final(self)@ == (Gen {
                protos: old(self)@.protos.push(bytecode::proto_view(proto)),
                ..old(self)@
            }),
            good(final(self)@),
            grows(old(self)@, final(self)@),
            final(self)@.bad is None ==> idx < final(self)@.protos.len(),
    {
        let ghost before = self.protos@;
        let ghost mid = self@;
        self.protos.push(Rc::new(proto));
        proof {
            assert(self.protos@.drop_last() =~= before);
            assert(self@.protos =~= mid.protos.push(bytecode::proto_view(proto)));
            reveal(sound);
            if self@.bad is None {
                assert forall|i: int| 0 <= i < self@.code.len() implies fits(
                    #[trigger] self@.code[i],
                    self@,
                    self@.code.len() + 1,
                ) by {
                    lemma_fits_grows(
                        mid.code[i],
                        mid,
                        self@,
                        mid.code.len() + 1,
                        self@.code.len() + 1,
                    );
                }
            }
        }
    }

    /// The finished function.
    fn finish(self, def: &FuncDef) -> (r: Result<Proto, Fault>)
        requires
            good(self@),
            sound(self@, 0),
            self@.bad is None ==> self@.n_upvals == def.upvals@.len() && self@.code.len() > 0
                && self@.code.last() is Ret,
            self@.bad is None ==> forall|k: int|
                0 <= k < def.param_bindings@.len() ==> (#[trigger] def.param_bindings@[k]).slot
                    < self@.n_slots,
        ensures
            match r {
                Ok(p) => self@.bad is None && bytecode::proto_view(p) == codegen::proto_of(
                    self@,
                    *def,
                ) && bytecode::proto_ok(bytecode::proto_view(p)),
                Err(why) => self@.bad == Some(why),
            },
    {
        match self.bad {
            Some(why) => Err(why),
            None => {
                let ghost g = self@;
                let (params, plain_params) = param_slots(&def.param_bindings);
                let FnCompiler {
                    code,
                    lines,
                    consts,
                    protos,
                    globals,
                    hints,
                    caches,
                    max_regs,
                    ..
                } = self;
                let p = Proto {
                    name: def.name.clone(),
                    def_id: def.id,
                    code: bytecode::specialise(code),
                    lines,
                    consts,
                    protos,
                    globals,
                    n_regs: max_regs as usize + 1,
                    hints,
                    caches,
                    params,
                    plain_params,
                    upvals: def.upvals.clone(),
                };
                proof {
                    lemma_finished(g, *def);
                    assert(p.upvals@ =~= def.upvals@);
                    assert(bytecode::proto_view(p) =~= codegen::proto_of(g, *def));
                }
                Ok(p)
            },
        }
    }
}

/// A constant the compiler found for a value is that value, or a number equal
/// to it.
spec fn alike(found: Val, v: Val) -> bool {
    v == found || value::same_val(found, v)
}

// ---- small questions about syntax ------------------------------------------------------

/// Is a register written once, and last, when this is worked out in it?
fn in_place(e: &Expr) -> (r: bool)
    ensures
        r == codegen::in_place(*e),
    decreases *e,
{
    match e {
        Expr::Nil | Expr::Bool(_) | Expr::Num(_) | Expr::Str(_) | Expr::Local(..) => true,
        Expr::Upval(..) | Expr::Global(..) | Expr::Index(..) | Expr::Range(..) => true,
        Expr::Call(..) | Expr::Method(..) => true,
        Expr::Un(_, a) => in_place(a),
        Expr::Bin(op, _, _) => *op != BinOp::And && *op != BinOp::Or,
        _ => false,
    }
}

/// The register a plain local already lives in. A captured one does not
/// count: it is read through its cell, which takes an instruction.
fn plain_reg(e: &Expr) -> (r: Option<u16>)
    ensures
        r == codegen::plain_reg_of(*e),
{
    match e {
        Expr::Local(b, _) => if b.cell {
            None
        } else {
            Some(b.slot)
        },
        _ => None,
    }
}

spec fn view_opt(v: Option<Value>) -> Option<Val> {
    match v {
        Some(v) => Some(v@),
        None => None,
    }
}

fn number_literal(e: &Expr) -> (r: Option<Value>)
    ensures
        view_opt(r) == codegen::num_literal(*e),
{
    match e {
        Expr::Num(n) => Some(Value::Num(*n)),
        _ => None,
    }
}

fn key_literal(e: &Expr) -> (r: Option<Value>)
    ensures
        view_opt(r) == codegen::key_literal(*e),
{
    match e {
        Expr::Num(n) => Some(Value::Num(*n)),
        Expr::Str(s) => Some(Value::str(s.as_str())),
        _ => None,
    }
}

fn any_literal(e: &Expr) -> (r: Option<Value>)
    ensures
        view_opt(r) == codegen::any_literal(*e),
{
    match e {
        Expr::Num(n) => Some(Value::Num(*n)),
        Expr::Str(s) => Some(Value::str(s.as_str())),
        Expr::Bool(b) => Some(Value::Bool(*b)),
        Expr::Nil => Some(Value::Nil),
        _ => None,
    }
}

fn bin_kind(op: BinOp) -> (r: Option<BinKind>)
    ensures
        r == codegen::kind_of(op),
{
    match op {
        BinOp::Add => Some(BinKind::Add),
        BinOp::Sub => Some(BinKind::Sub),
        BinOp::Mul => Some(BinKind::Mul),
        BinOp::Div => Some(BinKind::Div),
        BinOp::Rem => Some(BinKind::Rem),
        BinOp::Eq => Some(BinKind::Eq),
        BinOp::Ne => Some(BinKind::Ne),
        BinOp::Lt => Some(BinKind::Lt),
        BinOp::Le => Some(BinKind::Le),
        BinOp::Gt => Some(BinKind::Gt),
        BinOp::Ge => Some(BinKind::Ge),
        BinOp::And => None,
        BinOp::Or => None,
    }
}

/// The comparison this operator is, if it is one.
fn compare_kind(op: BinOp) -> (r: Option<BinKind>)
    ensures
        r == codegen::comparison(op),
{
    match op {
        BinOp::Lt => Some(BinKind::Lt),
        BinOp::Le => Some(BinKind::Le),
        BinOp::Gt => Some(BinKind::Gt),
        BinOp::Ge => Some(BinKind::Ge),
        BinOp::Eq => Some(BinKind::Eq),
        BinOp::Ne => Some(BinKind::Ne),
        _ => None,
    }
}

/// How many parts an interpolation has, if this is one.
fn concat_parts(e: &Expr) -> (r: Option<u8>)
    ensures
        match r {
            Some(n) => codegen::interpolates(*e) && n == codegen::spine_len(*e),
            None => !codegen::interpolates(*e),
        },
{
    let mut n: u64 = 1;
    let mut cur: &Expr = e;
    loop
        invariant
            1 <= n <= 256,
            n <= 255 ==> codegen::spine_len(*e) == codegen::spine_len(*cur) + n - 1,
            n == 256 ==> codegen::spine_len(*e) >= 256,
            codegen::spine_root(*e) == codegen::spine_root(*cur),
        ensures
            1 <= n <= 256,
            n <= 255 ==> codegen::spine_len(*e) == n,
            n == 256 ==> codegen::spine_len(*e) >= 256,
            codegen::spine_root(*e) == *cur,
        decreases *cur,
    {
        match cur {
            Expr::Bin(BinOp::Add, a, _) => {
                if n < 256 {
                    n = n + 1;
                }
                cur = a;
            },
            _ => {
                break;
            },
        }
    }
    match cur {
        Expr::Str(_) => if n >= 3 && n <= 255 {
            Some(n as u8)
        } else {
            None
        },
        _ => None,
    }
}

/// The registers in use after are those before, unless something went wrong.
pub open spec fn kept(a: Gen, b: Gen) -> bool {
    b.bad is None ==> b.free == a.free
}

/// The same for code that leaves a value in `dst`: a result on its way to a
/// local may leave scratch registers reserved.
spec fn kept_for(a: Gen, b: Gen, dst: u16) -> bool {
    b.bad is None ==> a.free <= b.free && (a.n_slots <= dst < a.free ==> b.free == a.free)
}

/// Every capture of a closure names a variable of the function that makes it.
fn captures_fit(upvals: &Vec<UpvalSrc>, n_slots: u16, n_upvals: usize) -> (r: bool)
    ensures
        r == bytecode::captures_ok(upvals@, n_slots as nat, n_upvals as nat),
{
    let mut i: usize = 0;
    while i < upvals.len()
        invariant
            i <= upvals@.len(),
            bytecode::captures_ok(upvals@.take(i as int), n_slots as nat, n_upvals as nat),
        decreases upvals@.len() - i,
    {
        let fine = match upvals[i] {
            UpvalSrc::ParentLocal(s) => s < n_slots,
            UpvalSrc::ParentUpval(u) => (u as usize) < n_upvals,
        };
        if !fine {
            let ghost bad = upvals@[i as int];
            return false;
        }
        proof {
            let longer = upvals@.take(i + 1);
            assert forall|k: int| 0 <= k < longer.len() implies match #[trigger] longer[k] {
                UpvalSrc::ParentLocal(s) => s < n_slots as nat,
                UpvalSrc::ParentUpval(u) => u < n_upvals as nat,
            } by {
                if k < i {
                    assert(upvals@.take(i as int)[k] == longer[k]);
                }
            }
        }
        i = i + 1;
    }
    assert(upvals@.take(upvals@.len() as int) == upvals@);
    true
}

fn param_slots(bs: &Vec<Binding>) -> (r: (Vec<ParamSlot>, bool))
    ensures
        r.0@ == codegen::param_slots(bs@),
        r.1 == (forall|i: int| 0 <= i < bs@.len() ==> !(#[trigger] bs@[i]).cell),
{
    let mut out: Vec<ParamSlot> = Vec::new();
    let mut plain = true;
    let mut i: usize = 0;
    while i < bs.len()
        invariant
            i <= bs@.len(),
            out@.len() == i,
            forall|k: int|
                0 <= k < i ==> #[trigger] out@[k] == (ParamSlot {
                    reg: bs@[k].slot,
                    cell: bs@[k].cell,
                }),
            plain == (forall|k: int| 0 <= k < i ==> !(#[trigger] bs@[k]).cell),
        decreases bs@.len() - i,
    {
        out.push(ParamSlot { reg: bs[i].slot, cell: bs[i].cell });
        if bs[i].cell {
            plain = false;
        }
        i = i + 1;
    }
    assert(out@ =~= codegen::param_slots(bs@));
    (out, plain)
}

proof fn lemma_finished(g: Gen, def: FuncDef)
    requires
        sized(g),
        sound(g, 0),
        g.bad is None,
        g.n_upvals == def.upvals@.len(),
        g.code.len() > 0,
        g.code.last() is Ret,
        forall|k: int|
            0 <= k < def.param_bindings@.len() ==> (#[trigger] def.param_bindings@[k]).slot
                < g.n_slots,
    ensures
        bytecode::proto_ok(codegen::proto_of(g, def)),
{
    reveal(sound);
    let p = codegen::proto_of(g, def);
    assert forall|i: int| 0 <= i < p.code.len() implies #[trigger] bytecode::op_ok(
        p.code[i],
        p.n_regs,
        p.consts,
        p.globals.len(),
        p.protos.len(),
        p.hints,
        p.caches,
        p.upvals.len(),
        p.code.len(),
    ) by {
        assert(fits(g.code[i], g, g.code.len()));
    }
    assert(p.code.last() == bytecode::specialised(g.code.last()));
}

} // verus!
