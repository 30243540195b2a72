//! The machine itself: its registers, its heap and its calls.
//!
//! The host drives it with [`Vm::step`] until a step ends in something other
//! than [`Outcome::Run`], and answers what it is asked with [`Vm::resume`].
use crate::bytecode::{Op, Proto, Reg};
use crate::machine;
use crate::machine::{ErrorView, Frame, FuncView, IterView, Mach, Out, Pending, Reply, Req};
use crate::table::{Table, TableView};
use crate::text;
use crate::value;
use crate::value::{Error, JitState, Key, KeyVal, RStr, Val, Value};
use std::collections::HashMap;
use std::rc::Rc;
use vstd::prelude::*;

mod api;
mod calls;
mod compiled;
mod ops;
mod step;

pub use api::MethodTable;
pub use compiled::Made;

verus! {

broadcast use vstd::std_specs::hash::group_hash_axioms;

/// A function value.
pub struct Function {
    pub proto: Rc<Proto>,
    /// The cells of its captured variables.
    pub upvals: Vec<usize>,
    /// How often it was called.
    pub hits: u32,
    pub state: JitState,
}

/// An iterator the machine makes for a loop.
pub enum Iter {
    Range { at: u64, fresh: bool, end: u64, inclusive: bool },
    Values { table: usize, keys: Vec<Key>, seen: usize },
}

/// What the machine asks of its host.
pub enum Request {
    Native { id: usize, args: Vec<Value> },
    Compute { kind: crate::bytecode::BinKind, x: u64, y: u64 },
    Read { text: RStr },
    Show { bits: u64 },
    Compiled { func: usize, args: Vec<Value> },
    Hot { which: u32 },
    Stale { name: String },
}

/// How a step ends.
pub enum Outcome {
    Run,
    Done(Vec<Value>),
    Fail(Error),
    Ask(Request),
}

/// What the host replies.
pub enum Event {
    Values(Vec<Value>),
    Fault(Error),
    Number(u64),
    Read(RStr, Option<u64>),
    Shown(u64, RStr),
    Took(Value),
    Declined,
    Ran(bool),
    Seen,
}

pub open spec fn func_view(f: Function) -> FuncView {
    FuncView {
        proto: crate::bytecode::proto_view(*f.proto),
        upvals: f.upvals@,
        hits: f.hits,
        state: f.state,
    }
}

pub open spec fn key_views(s: Seq<Key>) -> Seq<KeyVal> {
    Seq::new(s.len(), |i: int| s[i]@)
}

pub open spec fn iter_view(it: Iter) -> IterView {
    match it {
        Iter::Range { at, fresh, end, inclusive } => IterView::Range { at, fresh, end, inclusive },
        Iter::Values { table, keys, seen } => IterView::Values {
            table,
            keys: key_views(keys@),
            seen: seen as int,
        },
    }
}

pub open spec fn trace_view(s: Seq<(String, u32)>) -> Seq<(Seq<char>, u32)> {
    Seq::new(s.len(), |i: int| (s[i].0@, s[i].1))
}

pub open spec fn error_view(e: Error) -> ErrorView {
    ErrorView {
        message: e.message@,
        line: e.line,
        located: e.located,
        where_: match e.where_ {
            Some(w) => Some(w@),
            None => None,
        },
        trace: trace_view(e.trace@),
    }
}

pub open spec fn request_view(q: Request) -> Req {
    match q {
        Request::Native { id, args } => Req::Native { id, args: value::vals(args@) },
        Request::Compute { kind, x, y } => Req::Compute { kind, x, y },
        Request::Read { text } => Req::Read { text: text@ },
        Request::Show { bits } => Req::Show { bits },
        Request::Compiled { func, args } => Req::Compiled { func, args: value::vals(args@) },
        Request::Hot { which } => Req::Hot { which },
        Request::Stale { name } => Req::Stale { name: name@ },
    }
}

pub open spec fn outcome_view(o: Outcome) -> Out {
    match o {
        Outcome::Run => Out::Run,
        Outcome::Done(vals) => Out::Done(value::vals(vals@)),
        Outcome::Fail(e) => Out::Fail(error_view(e)),
        Outcome::Ask(q) => Out::Ask(request_view(q)),
    }
}

pub open spec fn event_view(e: Event) -> Reply {
    match e {
        Event::Values(vals) => Reply::Values(value::vals(vals@)),
        Event::Fault(e) => Reply::Fault(error_view(e)),
        Event::Number(n) => Reply::Number(n),
        Event::Read(s, n) => Reply::Read(s@, n),
        Event::Shown(b, s) => Reply::Shown(b, s@),
        Event::Took(v) => Reply::Took(v@),
        Event::Declined => Reply::Declined,
        Event::Ran(b) => Reply::Ran(b),
        Event::Seen => Reply::Seen,
    }
}

pub open spec fn global_views(s: Seq<(String, Value)>) -> Seq<(Seq<char>, Val)> {
    Seq::new(s.len(), |i: int| (s[i].0@, s[i].1@))
}

pub open spec fn name_views(s: Seq<String>) -> Seq<Seq<char>> {
    Seq::new(s.len(), |i: int| s[i]@)
}

pub open spec fn table_views(s: Seq<Table>) -> Seq<TableView> {
    Seq::new(s.len(), |i: int| s[i]@)
}

pub open spec fn func_views(s: Seq<Function>) -> Seq<FuncView> {
    Seq::new(s.len(), |i: int| func_view(s[i]))
}

pub open spec fn iter_views(s: Seq<Iter>) -> Seq<IterView> {
    Seq::new(s.len(), |i: int| iter_view(s[i]))
}

pub open spec fn read_views(s: Seq<(RStr, Option<u64>)>) -> Seq<(Seq<char>, Option<u64>)> {
    Seq::new(s.len(), |i: int| (s[i].0@, s[i].1))
}

pub open spec fn show_views(s: Seq<(u64, RStr)>) -> Seq<(u64, Seq<char>)> {
    Seq::new(s.len(), |i: int| (s[i].0, s[i].1@))
}

/// The machine.
pub struct Vm {
    globals: Vec<(String, Value)>,
    natives: Vec<String>,
    /// Every local lives here: one contiguous run of registers per call.
    stack: Vec<Value>,
    base: usize,
    /// One past the highest register in use, which is where the next frame
    /// starts. The stack's length is the high-water mark, not the top.
    top: usize,
    multi: Vec<Value>,
    reads: Vec<(RStr, Option<u64>)>,
    shows: Vec<(u64, RStr)>,
    declined: bool,
    line: u32,
    trace: Vec<(String, u32)>,
    frames: Vec<Frame>,
    func: usize,
    pc: usize,
    depth: usize,
    pending: Pending,
    tables: Vec<Table>,
    cells: Vec<Value>,
    funcs: Vec<Function>,
    iters: Vec<Iter>,
    strings: Option<usize>,
    maths: Option<usize>,
    lists: Option<usize>,
    ticks: HashMap<u32, u32>,
    jit: bool,
    threshold: u32,
}

impl View for Vm {
    type V = Mach;

    closed spec fn view(&self) -> Mach {
        Mach {
            globals: global_views(self.globals@),
            natives: name_views(self.natives@),
            stack: value::vals(self.stack@),
            base: self.base as int,
            top: self.top as int,
            multi: value::vals(self.multi@),
            reads: read_views(self.reads@),
            shows: show_views(self.shows@),
            declined: self.declined,
            line: self.line,
            trace: trace_view(self.trace@),
            frames: self.frames@,
            func: self.func,
            pc: self.pc as int,
            depth: self.depth as int,
            pending: self.pending,
            tables: table_views(self.tables@),
            cells: value::vals(self.cells@),
            funcs: func_views(self.funcs@),
            iters: iter_views(self.iters@),
            strings: self.strings,
            maths: self.maths,
            lists: self.lists,
            ticks: self.ticks@,
            jit: self.jit,
            threshold: self.threshold,
        }
    }
}

impl Vm {
    /// The register `r` of the running function.
    fn get(&self, r: Reg) -> (v: Value)
        requires
            machine::wf(self@),
            self@.frames.len() > 0,
            r < machine::cur(self@).n_regs,
        ensures
            v@ == machine::reg(self@, r),
    {
        self.stack[self.base + r as usize].clone()
    }

    fn put(&mut self, r: Reg, v: Value)
        requires
            machine::wf(old(self)@),
            old(self)@.frames.len() > 0,
            r < machine::cur(old(self)@).n_regs,
        ensures
            final(self)@ == machine::put(old(self)@, r, v@),
            machine::wf(final(self)@),
    {
        let at: usize = self.base + r as usize;
        let ghost was = self@;
        let ghost x = v@;
        self.stack.set(at, v);
        assert(self@ =~= machine::put(was, r, x));
    }

    /// Go to an instruction.
    fn go(&mut self, to: usize)
        requires
            machine::running(old(self)@),
            to < machine::cur(old(self)@).code.len(),
        ensures
            final(self)@ == machine::go(old(self)@, to as int),
            machine::running(final(self)@),
    {
        let ghost was = self@;
        self.pc = to;
        self.reads = Vec::new();
        self.shows = Vec::new();
        self.declined = false;
        assert(self@ =~= machine::go(was, to as int));
    }

    /// Go to the next instruction.
    fn next(&mut self)
        requires
            machine::running(old(self)@),
            machine::goes_on(machine::cur(old(self)@), old(self)@.pc),
        ensures
            final(self)@ == machine::next(old(self)@),
            machine::running(final(self)@),
    {
        proof {
            lemma_goes_on(self@);
        }
        let n: usize = self.code_len();
        assert(self.pc + 1 < n);
        let to: usize = self.pc + 1;
        self.go(to);
    }

    /// The constant `k` of the running function.
    fn konst(&self, k: u16) -> (v: Value)
        requires
            machine::wf(self@),
            self@.frames.len() > 0,
            k < machine::cur(self@).consts.len(),
        ensures
            v@ == machine::konst(self@, k),
    {
        self.funcs[self.func].proto.consts[k as usize].clone()
    }

    /// How many instructions the running function has.
    fn code_len(&self) -> (n: usize)
        requires
            machine::wf(self@),
            self@.frames.len() > 0,
        ensures
            n == machine::cur(self@).code.len(),
    {
        self.funcs[self.func].proto.code.len()
    }

    /// The instruction to run.
    fn op(&self) -> (op: Op)
        requires
            machine::wf(self@),
            self@.frames.len() > 0,
        ensures
            op == machine::cur(self@).code[self@.pc],
    {
        self.funcs[self.func].proto.code[self.pc]
    }
}

/// Every instruction but a return has one after it, and refers only to what
/// exists.
proof fn lemma_goes_on(m: Mach)
    requires
        machine::wf(m),
        m.frames.len() > 0,
    ensures
        machine::goes_on(machine::cur(m), m.pc) ==> m.pc + 1 < machine::cur(m).code.len(),
        crate::bytecode::proto_ok(machine::cur(m)),
{
    assert(machine::func_ok(m.funcs[m.func as int], m.cells.len()));
}

} // verus!
