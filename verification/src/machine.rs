//! What the machine does, as a function from one state to the next.
//!
//! Registers are a window into one value stack, starting at `base`, so a call
//! opens a window above the caller's and control flow is jumps. Tables,
//! captured variables, functions and iterators live in a heap and are named
//! by their place in it.
//!
//! The machine computes everything but numbers: where an instruction needs a
//! sum, the number a text reads as or the text of a fraction, where it calls
//! a builtin, and where compiled code might take over, it stops, says what it
//! wants of its host, and goes on when it is told.
use crate::ast::UpvalSrc;
use crate::bytecode;
use crate::bytecode::{BinKind, Op, ParamSlot, ProtoView, Reg, MULTI, NO_METHOD};
use crate::num;
use crate::table;
use crate::table::TableView;
use crate::text;
use crate::value;
use crate::value::{JitState, KeyVal, Val};
use vstd::prelude::*;

verus! {

/// How deep calls may nest.
pub const MAX_DEPTH: usize = 1000;

/// How many registers all calls together may take.
pub const STACK_MAX: usize = 0x7fff_ffff;

/// The number one.
pub const ONE: u64 = 0x3ff0_0000_0000_0000;

/// Iterations between checks on a running loop.
pub const LOOP_BATCH: u32 = 1000;

/// What the count of a loop is once compiled code has run it: from then on it
/// is asked for at every turn.
pub const HOT: u32 = 0xffff_ffff;

/// Where the values a call produces belong.
#[derive(Clone, Copy)]
pub enum Dest {
    /// Outside the machine: the host made the call.
    Host,
    /// `nres` registers from `dst`, or all values at `base`.
    Regs { base: Reg, nres: u16, dst: Reg },
    /// The variables of a loop, which ends at `exit` when there is no value.
    Iter { base: Reg, count: u16, exit: u32 },
}

/// What the machine waits for.
#[derive(Clone, Copy)]
pub enum Pending {
    /// Nothing: the next instruction can run.
    Idle,
    /// The values of a builtin, and the depth to go back to.
    Values { dest: Dest, depth: usize },
    /// A number for a register.
    Sum { dst: Reg },
    /// The next value of a loop counter.
    Step { counter: Reg, limit: Reg, to: u32, id: u32, le: bool },
    /// The next value of a range.
    Turn { iter: usize, dest: Dest },
    /// A fact about a text or a number; the instruction then runs again.
    Note,
    /// Whether compiled code took this call.
    Took { dest: Dest },
    /// Whether compiled code ran this loop to its end.
    Hot { which: u32, to: u32, exit: usize },
    /// That the host has seen a global change.
    Seen,
}

/// One suspended call: what to go back to when the callee returns.
#[derive(Clone, Copy)]
pub struct Frame {
    pub func: usize,
    pub base: usize,
    pub top: usize,
    /// The instruction that made the call.
    pub pc: usize,
    pub line: u32,
    pub depth: usize,
    /// How many calls the traceback named before this one.
    pub trace: usize,
    pub dest: Dest,
    /// What the caller was waiting for, when the host made the call.
    pub pending: Pending,
}

/// The model of a function value.
#[verifier::ext_equal]
pub struct FuncView {
    pub proto: ProtoView,
    /// The cells of its captured variables.
    pub upvals: Seq<usize>,
    /// How often it was called.
    pub hits: u32,
    pub state: JitState,
}

/// The model of an iterator.
pub enum IterView {
    Range { at: u64, fresh: bool, end: u64, inclusive: bool },
    Values { table: usize, keys: Seq<KeyVal>, seen: int },
}

/// The model of an error.
#[verifier::ext_equal]
pub struct ErrorView {
    pub message: Seq<char>,
    pub line: u32,
    pub located: bool,
    pub where_: Option<Seq<char>>,
    pub trace: Seq<(Seq<char>, u32)>,
}

/// What the machine asks of its host.
#[verifier::ext_equal]
pub enum Req {
    /// Call this builtin.
    Native { id: usize, args: Seq<Val> },
    /// Work this out.
    Compute { kind: BinKind, x: u64, y: u64 },
    /// The number this text reads as, if it does.
    Read { text: Seq<char> },
    /// How this number is written.
    Show { bits: u64 },
    /// Run this function's compiled code, if it has any and can take this.
    Compiled { func: usize, args: Seq<Val> },
    /// Run this loop's compiled code, if it has any and can take it.
    Hot { which: u32 },
    /// Throw away the compiled code that relied on this global.
    Stale { name: Seq<char> },
}

/// How a step ends.
#[verifier::ext_equal]
pub enum Out {
    /// There is more to run.
    Run,
    /// The call the host made has returned this.
    Done(Seq<Val>),
    /// The call the host made has failed.
    Fail(ErrorView),
    /// The machine waits for the host.
    Ask(Req),
}

/// What the host replies.
pub enum Reply {
    Values(Seq<Val>),
    Fault(ErrorView),
    Number(u64),
    Read(Seq<char>, Option<u64>),
    Shown(u64, Seq<char>),
    Took(Val),
    Declined,
    Ran(bool),
    Seen,
}

/// The state of the machine.
#[verifier::ext_equal]
pub struct Mach {
    /// The globals, in the order they were first met.
    pub globals: Seq<(Seq<char>, Val)>,
    /// The names of the builtins.
    pub natives: Seq<Seq<char>>,
    pub stack: Seq<Val>,
    pub base: int,
    /// One past the highest register in use.
    pub top: int,
    /// The values of the last call that produced as many as there are.
    pub multi: Seq<Val>,
    /// What the host has said of texts for this instruction.
    pub reads: Seq<(Seq<char>, Option<u64>)>,
    /// What the host has said of numbers for this instruction.
    pub shows: Seq<(u64, Seq<char>)>,
    /// The host has declined to run this call's compiled code.
    pub declined: bool,
    /// The line of the last call.
    pub line: u32,
    /// The calls under way, by name, and the line each was made from.
    pub trace: Seq<(Seq<char>, u32)>,
    pub frames: Seq<Frame>,
    pub func: usize,
    pub pc: int,
    pub depth: int,
    pub pending: Pending,
    pub tables: Seq<TableView>,
    pub cells: Seq<Val>,
    pub funcs: Seq<FuncView>,
    pub iters: Seq<IterView>,
    /// The method tables of strings, numbers and tables.
    pub strings: Option<usize>,
    pub maths: Option<usize>,
    pub lists: Option<usize>,
    /// How often each loop has gone round.
    pub ticks: Map<u32, u32>,
    /// May compiled code run, and after how many calls is it worth having?
    pub jit: bool,
    pub threshold: u32,
}

/// The state nothing has happened in yet.
pub open spec fn bare() -> Mach {
    Mach {
        globals: Seq::empty(),
        natives: Seq::empty(),
        stack: Seq::empty(),
        base: 0,
        top: 0,
        multi: Seq::empty(),
        reads: Seq::empty(),
        shows: Seq::empty(),
        declined: false,
        line: 0,
        trace: Seq::empty(),
        frames: Seq::empty(),
        func: 0,
        pc: 0,
        depth: 0,
        pending: Pending::Idle,
        tables: Seq::empty(),
        cells: Seq::empty(),
        funcs: Seq::empty(),
        iters: Seq::empty(),
        strings: None,
        maths: None,
        lists: None,
        ticks: Map::empty(),
        jit: false,
        threshold: u32::MAX,
    }
}

// ---- the pieces of a state ---------------------------------------------------------------

pub open spec fn proto_at(m: Mach, f: usize) -> ProtoView {
    m.funcs[f as int].proto
}

/// The function being run.
pub open spec fn cur(m: Mach) -> ProtoView {
    proto_at(m, m.func)
}

pub open spec fn reg(m: Mach, r: Reg) -> Val {
    m.stack[m.base + r]
}

pub open spec fn put(m: Mach, r: Reg, v: Val) -> Mach {
    Mach { stack: m.stack.update(m.base + r, v), ..m }
}

/// `n` registers from `r` on.
pub open spec fn window(m: Mach, r: int, n: nat) -> Seq<Val> {
    m.stack.subrange(m.base + r, m.base + r + n)
}

/// Go to an instruction, forgetting what was said for the last one.
pub open spec fn go(m: Mach, to: int) -> Mach {
    Mach { pc: to, reads: Seq::empty(), shows: Seq::empty(), declined: false, ..m }
}

pub open spec fn next(m: Mach) -> Mach {
    go(m, m.pc + 1)
}

pub open spec fn idle(m: Mach) -> Mach {
    Mach { pending: Pending::Idle, ..m }
}

pub open spec fn waits(m: Mach, p: Pending) -> Mach {
    Mach { pending: p, ..m }
}

pub open spec fn nth(vals: Seq<Val>, i: int) -> Val {
    if 0 <= i < vals.len() {
        vals[i]
    } else {
        Val::Nil
    }
}

/// `n` registers from `at` on hold these values, and nil after them.
pub open spec fn results(m: Mach, at: int, n: int, vals: Seq<Val>) -> Mach {
    Mach {
        stack: Seq::new(
            m.stack.len(),
            |i: int|
                if m.base + at <= i < m.base + at + n {
                    nth(vals, i - m.base - at)
                } else {
                    m.stack[i]
                },
        ),
        ..m
    }
}

// ---- errors ---------------------------------------------------------------------------------

pub open spec fn plain(message: Seq<char>) -> ErrorView {
    ErrorView { message, line: 0, located: false, where_: None, trace: Seq::empty() }
}

/// An error with the line, the function and the calls it happened in, unless
/// it has them already.
pub open spec fn located(m: Mach, e: ErrorView) -> ErrorView {
    if e.located {
        e
    } else {
        ErrorView {
            message: e.message,
            line: cur(m).lines[m.pc],
            located: true,
            where_: if m.trace.len() > 0 && m.trace.last().0.len() > 0 {
                Some(m.trace.last().0)
            } else {
                None
            },
            trace: m.trace,
        }
    }
}

/// The last call the host made.
pub open spec fn host_at(frames: Seq<Frame>) -> int
    decreases frames.len(),
{
    if frames.len() == 0 {
        0
    } else if frames.last().dest is Host {
        frames.len() - 1
    } else {
        host_at(frames.drop_last())
    }
}

/// The stack with a run of registers given back.
pub open spec fn cleared(stack: Seq<Val>, from: int, to: int) -> Seq<Val> {
    Seq::new(
        stack.len(),
        |i: int|
            if from <= i < to {
                Val::Nil
            } else {
                stack[i]
            },
    )
}

/// Back to what the machine was doing before the call that pushed frame `k`.
pub open spec fn leave(m: Mach, k: int) -> Mach {
    let f = m.frames[k];
    Mach {
        frames: m.frames.take(k),
        stack: cleared(m.stack, f.top as int, m.top),
        top: f.top as int,
        base: f.base as int,
        func: f.func,
        pc: f.pc as int,
        depth: f.depth as int,
        trace: m.trace.take(f.trace as int),
        pending: f.pending,
        line: if f.dest is Host {
            m.line
        } else {
            f.line
        },
        reads: Seq::empty(),
        shows: Seq::empty(),
        declined: false,
        ..m
    }
}

/// Fail: give every register back up to the call the host made.
pub open spec fn throw(m: Mach, e: ErrorView) -> (Mach, Out) {
    (leave(m, host_at(m.frames)), Out::Fail(located(m, e)))
}

pub open spec fn bad(m: Mach, message: Seq<char>) -> (Mach, Out) {
    throw(m, plain(message))
}

// ---- globals and methods ------------------------------------------------------------------------

/// The place of a global among those from `i` on, or their number.
pub open spec fn global_at(globals: Seq<(Seq<char>, Val)>, name: Seq<char>, i: nat) -> nat
    decreases globals.len() - i,
{
    if i >= globals.len() {
        globals.len()
    } else if globals[i as int].0 == name {
        i
    } else {
        global_at(globals, name, i + 1)
    }
}

/// The globals with this one among them: a new one is nil.
pub open spec fn with_global(globals: Seq<(Seq<char>, Val)>, name: Seq<char>) -> Seq<
    (Seq<char>, Val),
> {
    if global_at(globals, name, 0) < globals.len() {
        globals
    } else {
        globals.push((name, Val::Nil))
    }
}

/// What a global holds; one that was never met is nil.
pub open spec fn global_value(globals: Seq<(Seq<char>, Val)>, name: Seq<char>) -> Val {
    let i = global_at(globals, name, 0);
    if i < globals.len() {
        globals[i as int].1
    } else {
        Val::Nil
    }
}

pub open spec fn global_stored(globals: Seq<(Seq<char>, Val)>, name: Seq<char>, v: Val) -> Seq<
    (Seq<char>, Val),
> {
    let g = with_global(globals, name);
    g.update(global_at(globals, name, 0) as int, (name, v))
}

/// The member of a method table.
pub open spec fn lib_member(m: Mach, lib: Option<usize>, name: Seq<char>) -> Val {
    match lib {
        Some(t) => if t < m.tables.len() {
            table::t_get(m.tables[t as int], KeyVal::Str(name))
        } else {
            Val::Nil
        },
        None => Val::Nil,
    }
}

pub open spec fn a_value(prefix: Seq<char>, v: Val, suffix: Seq<char>) -> Seq<char> {
    prefix + value::type_text(v) + suffix
}

/// `o[k]`: a plain lookup. A string or a number has the members of its
/// method table.
pub open spec fn index(m: Mach, o: Val, k: Val) -> Result<Val, Seq<char>> {
    match o {
        Val::Table(t) => match value::key_of(k) {
            None => Err("table index is nil"@),
            Some(key) => if t < m.tables.len() {
                Ok(table::t_get(m.tables[t as int], key))
            } else {
                Ok(Val::Nil)
            },
        },
        Val::Str(_) => match k {
            Val::Str(name) => Ok(lib_member(m, m.strings, name)),
            _ => Ok(Val::Nil),
        },
        Val::Num(_) => match k {
            Val::Str(name) => Ok(lib_member(m, m.maths, name)),
            _ => Ok(Val::Nil),
        },
        _ => Err(a_value("cannot index a "@, o, " value"@)),
    }
}

/// A method of a type's own table.
pub open spec fn lib_method(m: Mach, o: Val, lib: Option<usize>, name: Seq<char>) -> Result<
    Val,
    Seq<char>,
> {
    let v = lib_member(m, lib, name);
    if v is Nil {
        Err(a_value("no method `"@ + name + "` on a "@, o, " value"@))
    } else {
        Ok(v)
    }
}

/// `o.name(..)`: the receiver's own field first, then its type's table.
pub open spec fn method(m: Mach, o: Val, name: Seq<char>) -> Result<Val, Seq<char>> {
    match o {
        Val::Table(t) => {
            let own = lib_member(m, Some(t), name);
            if own is Nil {
                lib_method(m, o, m.lists, name)
            } else {
                Ok(own)
            }
        },
        Val::Str(_) => lib_method(m, o, m.strings, name),
        Val::Num(_) => lib_method(m, o, m.maths, name),
        _ => Err(a_value("a "@, o, " value has no method `"@ + name + "`"@)),
    }
}

// ---- numbers and texts ------------------------------------------------------------------------------

/// What the host has said of a text.
pub open spec fn read_at(reads: Seq<(Seq<char>, Option<u64>)>, s: Seq<char>, i: nat) -> Option<
    Option<u64>,
>
    decreases reads.len() - i,
{
    if i >= reads.len() {
        None
    } else if reads[i as int].0 == s {
        Some(reads[i as int].1)
    } else {
        read_at(reads, s, i + 1)
    }
}

/// What the host has said of a number.
pub open spec fn show_at(shows: Seq<(u64, Seq<char>)>, b: u64, i: nat) -> Option<Seq<char>>
    decreases shows.len() - i,
{
    if i >= shows.len() {
        None
    } else if shows[i as int].0 == b {
        Some(shows[i as int].1)
    } else {
        show_at(shows, b, i + 1)
    }
}

/// What comes of asking for a number, a text or a value.
#[verifier::ext_equal]
pub enum Need<T> {
    Is(T),
    Ask(Req),
    Bad(Seq<char>),
}

/// A value as a number.
pub open spec fn num_of(m: Mach, v: Val) -> Need<u64> {
    match v {
        Val::Num(n) => Need::Is(n),
        Val::Str(s) => match read_at(m.reads, s, 0) {
            None => Need::Ask(Req::Read { text: s }),
            Some(Some(n)) => Need::Is(n),
            Some(None) => Need::Bad("cannot convert "@ + text::quoted(s) + " to a number"@),
        },
        _ => Need::Bad(a_value("attempt to use a "@, v, " as a number"@)),
    }
}

/// How a number is written.
pub open spec fn num_text(m: Mach, b: u64) -> Need<Seq<char>> {
    match num::whole_text(b) {
        Some(s) => Need::Is(s),
        None => match show_at(m.shows, b, 0) {
            Some(s) => Need::Is(s),
            None => Need::Ask(Req::Show { bits: b }),
        },
    }
}

/// How a value is written.
pub open spec fn text_of(m: Mach, v: Val) -> Need<Seq<char>> {
    match v {
        Val::Nil => Need::Is("nil"@),
        Val::Bool(b) => Need::Is(
            if b {
                "true"@
            } else {
                "false"@
            },
        ),
        Val::Num(b) => num_text(m, b),
        Val::Str(s) => Need::Is(s),
        Val::Table(t) => Need::Is("table: 0x"@ + text::hexadecimal(t as nat)),
        Val::Func(f) => Need::Is(
            "function: "@ + if f < m.funcs.len() {
                m.funcs[f as int].proto.name
            } else {
                Seq::<char>::empty()
            },
        ),
        Val::Native(n) => Need::Is(
            "function: builtin "@ + if n < m.natives.len() {
                m.natives[n as int]
            } else {
                Seq::<char>::empty()
            },
        ),
        Val::Ptr(p) => Need::Is("cdata: 0x"@ + text::hexadecimal(p as nat)),
        Val::Iter(i) => Need::Is(
            if i < m.iters.len() && m.iters[i as int] is Range {
                "function: builtin range"@
            } else {
                "function: builtin values"@
            },
        ),
        Val::Cell(_) => Need::Is("cell"@),
    }
}

/// The texts of a run of values, one after the other.
pub open spec fn all_text(m: Mach, vals: Seq<Val>) -> Need<Seq<char>>
    decreases vals.len(),
{
    if vals.len() == 0 {
        Need::Is(Seq::empty())
    } else {
        match all_text(m, vals.drop_last()) {
            Need::Is(s) => match text_of(m, vals.last()) {
                Need::Is(t) => Need::Is(s + t),
                other => other,
            },
            other => other,
        }
    }
}

/// Two numbers, and what is to be made of them.
pub open spec fn both_nums(m: Mach, l: Val, r: Val, made: spec_fn(u64, u64) -> Need<Val>) -> Need<
    Val,
> {
    match num_of(m, l) {
        Need::Is(x) => match num_of(m, r) {
            Need::Is(y) => made(x, y),
            Need::Ask(q) => Need::Ask(q),
            Need::Bad(e) => Need::Bad(e),
        },
        Need::Ask(q) => Need::Ask(q),
        Need::Bad(e) => Need::Bad(e),
    }
}

/// An order of two texts.
pub open spec fn text_order(kind: BinKind, a: Seq<char>, b: Seq<char>) -> bool {
    match kind {
        BinKind::Lt => text::before(a, b, 0),
        BinKind::Le => !text::before(b, a, 0),
        BinKind::Gt => text::before(b, a, 0),
        BinKind::NotLt => !text::before(a, b, 0),
        BinKind::NotLe => text::before(b, a, 0),
        BinKind::NotGt => !text::before(b, a, 0),
        BinKind::NotGe => text::before(a, b, 0),
        _ => !text::before(a, b, 0),
    }
}

/// The general form of a binary operator.
pub open spec fn arith(m: Mach, kind: BinKind, l: Val, r: Val) -> Need<Val> {
    match kind {
        BinKind::Add => if l is Str || r is Str {
            match all_text(m, seq![l, r]) {
                Need::Is(s) => Need::Is(Val::Str(s)),
                Need::Ask(q) => Need::Ask(q),
                Need::Bad(e) => Need::Bad(e),
            }
        } else {
            both_nums(m, l, r, |x: u64, y: u64| Need::Ask(Req::Compute { kind, x, y }))
        },
        BinKind::Sub | BinKind::Mul | BinKind::Div | BinKind::Rem => both_nums(
            m,
            l,
            r,
            |x: u64, y: u64| Need::Ask(Req::Compute { kind, x, y }),
        ),
        BinKind::Eq => Need::Is(Val::Bool(value::same_val(l, r))),
        BinKind::Ne => Need::Is(Val::Bool(!value::same_val(l, r))),
        _ => match (l, r) {
            (Val::Str(a), Val::Str(b)) => Need::Is(Val::Bool(text_order(kind, a, b))),
            _ => both_nums(
                m,
                l,
                r,
                |x: u64, y: u64|
                    if num::is_nan(x) || num::is_nan(y) {
                        Need::Bad("comparison with NaN"@)
                    } else {
                        Need::Is(Val::Bool(bytecode::compare_nums(kind, x, y)))
                    },
            ),
        },
    }
}

/// A binary operator: two numbers, or the general form.
pub open spec fn binary(m: Mach, kind: BinKind, l: Val, r: Val) -> Need<Val> {
    match (l, r) {
        (Val::Num(x), Val::Num(y)) => if bytecode::compares(kind) {
            Need::Is(Val::Bool(bytecode::compare_nums(kind, x, y)))
        } else {
            Need::Ask(Req::Compute { kind, x, y })
        },
        _ => arith(m, kind, l, r),
    }
}

/// Ask the host, waiting for a number or for a fact.
pub open spec fn ask(m: Mach, q: Req, number: Pending) -> (Mach, Out) {
    (
        waits(
            m,
            if q is Compute {
                number
            } else {
                Pending::Note
            },
        ),
        Out::Ask(q),
    )
}

/// Put what comes of an operator in a register.
pub open spec fn settle(m: Mach, v: Need<Val>, dst: Reg) -> (Mach, Out) {
    match v {
        Need::Is(x) => (next(put(m, dst, x)), Out::Run),
        Need::Ask(q) => ask(m, q, Pending::Sum { dst }),
        Need::Bad(e) => bad(m, e),
    }
}

/// Jump unless what comes of a comparison is true.
pub open spec fn branch(m: Mach, v: Need<Val>, to: u32) -> (Mach, Out) {
    match v {
        Need::Is(x) => (
            if value::is_true(x) {
                next(m)
            } else {
                go(m, to as int)
            },
            Out::Run,
        ),
        Need::Ask(q) => ask(m, q, Pending::Note),
        Need::Bad(e) => bad(m, e),
    }
}

// ---- calls ----------------------------------------------------------------------------------------------

/// Hand values to where they belong.
pub open spec fn deliver(m: Mach, dest: Dest, vals: Seq<Val>) -> (Mach, Out) {
    match dest {
        Dest::Host => (m, Out::Done(vals)),
        Dest::Regs { base, nres, dst } => (
            next(
                if nres == 0 {
                    m
                } else if nres == MULTI {
                    Mach { multi: vals, ..put(m, base, nth(vals, 0)) }
                } else {
                    results(m, dst as int, nres as int, vals)
                },
            ),
            Out::Run,
        ),
        Dest::Iter { base, count, exit } => (
            if nth(vals, 0) is Nil {
                go(m, exit as int)
            } else {
                next(results(m, base as int, count as int, vals))
            },
            Out::Run,
        ),
    }
}

/// Hand a value to where it belongs, a nil among a table's values too: it ends
/// no loop.
pub open spec fn give(m: Mach, dest: Dest, v: Val) -> (Mach, Out) {
    match dest {
        Dest::Iter { base, count, exit } => (
            next(results(m, base as int, count as int, seq![v])),
            Out::Run,
        ),
        _ => deliver(m, dest, seq![v]),
    }
}

/// A stack of at least `n` registers.
pub open spec fn grown(stack: Seq<Val>, n: int) -> Seq<Val> {
    if stack.len() >= n {
        stack
    } else {
        stack + Seq::new((n - stack.len()) as nat, |i: int| Val::Nil)
    }
}

/// The parameters from `i` on put in place: a captured one in a cell of its
/// own, and nil where there is no argument.
pub open spec fn bound(
    stack: Seq<Val>,
    cells: Seq<Val>,
    base: int,
    params: Seq<ParamSlot>,
    args: Seq<Val>,
    i: nat,
) -> (Seq<Val>, Seq<Val>)
    decreases params.len() - i,
{
    if i >= params.len() {
        (stack, cells)
    } else {
        let v = nth(args, i as int);
        let at = base + params[i as int].reg;
        if params[i as int].cell {
            bound(
                stack.update(at, Val::Cell(cells.len() as usize)),
                cells.push(v),
                base,
                params,
                args,
                i + 1,
            )
        } else {
            bound(stack.update(at, v), cells, base, params, args, i + 1)
        }
    }
}

/// Begin to run a function: a frame above everything, with its arguments in
/// their registers. `counts` says whether this is a call like any other, or
/// the start of a chunk, which is neither counted nor named in a traceback.
pub open spec fn enter(m: Mach, f: usize, args: Seq<Val>, dest: Dest, counts: bool) -> Mach {
    let p = proto_at(m, f);
    let end = m.top + p.n_regs;
    let (stack, cells) = bound(grown(m.stack, end), m.cells, m.top, p.params, args, 0);
    Mach {
        frames: m.frames.push(
            Frame {
                func: m.func,
                base: m.base as usize,
                top: m.top as usize,
                pc: m.pc as usize,
                line: m.line,
                depth: m.depth as usize,
                trace: m.trace.len() as usize,
                dest,
                pending: m.pending,
            },
        ),
        stack,
        cells,
        base: m.top,
        top: end,
        func: f,
        pc: 0,
        depth: if counts {
            m.depth + 1
        } else {
            m.depth
        },
        trace: if counts {
            m.trace.push((p.name, m.line))
        } else {
            m.trace
        },
        pending: Pending::Idle,
        reads: Seq::empty(),
        shows: Seq::empty(),
        declined: false,
        ..m
    }
}

/// Is there room for a call of this function?
pub open spec fn fits(m: Mach, f: usize) -> bool {
    m.depth < MAX_DEPTH && m.top + proto_at(m, f).n_regs <= STACK_MAX
}

pub open spec fn hit(f: FuncView) -> u32 {
    if f.hits == u32::MAX {
        f.hits
    } else {
        (f.hits + 1) as u32
    }
}

/// A function that was called once more. One that is worth compiling when
/// nothing may be compiled is not thought of again.
pub open spec fn counted(m: Mach, f: usize) -> Mach {
    let x = m.funcs[f as int];
    Mach {
        funcs: m.funcs.update(
            f as int,
            FuncView {
                hits: hit(x),
                state: if !m.jit && x.state == JitState::Cold && hit(x) >= m.threshold {
                    JitState::Blocked
                } else {
                    x.state
                },
                ..x
            },
        ),
        ..m
    }
}

/// Is compiled code to be offered this call?
pub open spec fn offers(m: Mach, callee: Val) -> bool {
    match callee {
        Val::Func(f) => f < m.funcs.len() && fits(m, f) && m.jit && !m.declined && {
            let x = m.funcs[f as int];
            x.state == JitState::Compiled || (x.state == JitState::Cold && hit(x) >= m.threshold)
        },
        _ => false,
    }
}

/// Call a value. `deep` says whether a builtin counts towards the depth.
pub open spec fn call(m: Mach, callee: Val, args: Seq<Val>, dest: Dest, deep: bool) -> (
    Mach,
    Out,
) {
    match callee {
        Val::Func(f) if f < m.funcs.len() => if fits(m, f) {
            (
                enter(
                    if m.declined {
                        m
                    } else {
                        counted(m, f)
                    },
                    f,
                    args,
                    dest,
                    true,
                ),
                Out::Run,
            )
        } else {
            bad(m, "stack overflow"@)
        },
        Val::Native(id) => if deep && m.depth >= MAX_DEPTH {
            bad(m, "stack overflow"@)
        } else {
            (
                Mach {
                    depth: if deep {
                        m.depth + 1
                    } else {
                        m.depth
                    },
                    pending: Pending::Values { dest, depth: m.depth as usize },
                    ..m
                },
                Out::Ask(Req::Native { id, args }),
            )
        },
        Val::Iter(i) if i < m.iters.len() => if deep && m.depth >= MAX_DEPTH {
            bad(m, "stack overflow"@)
        } else {
            turn(m, i, dest)
        },
        _ => if m.depth >= MAX_DEPTH {
            bad(m, "stack overflow"@)
        } else {
            bad(m, a_value("cannot call a "@, callee, " value"@))
        },
    }
}

/// Offer a call to compiled code, or make it: `after` is the state once the
/// arguments are taken.
pub open spec fn call_from(
    m: Mach,
    after: Mach,
    callee: Val,
    args: Seq<Val>,
    dest: Dest,
    deep: bool,
) -> (Mach, Out) {
    if offers(m, callee) {
        (
            waits(counted(m, callee->Func_0), Pending::Took { dest }),
            Out::Ask(Req::Compiled { func: callee->Func_0, args }),
        )
    } else {
        call(after, callee, args, dest, deep)
    }
}

/// The next value of a range that stands at `at`.
pub open spec fn range_value(at: u64, end: u64, inclusive: bool) -> Val {
    let done = if inclusive {
        num::less(end, at)
    } else {
        num::less_or_equal(end, at)
    };
    if done {
        Val::Nil
    } else {
        Val::Num(at)
    }
}

/// Take the next value from an iterator the machine made.
pub open spec fn turn(m: Mach, i: usize, dest: Dest) -> (Mach, Out) {
    match m.iters[i as int] {
        IterView::Range { at, fresh, end, inclusive } => if fresh {
            deliver(
                Mach {
                    iters: m.iters.update(
                        i as int,
                        IterView::Range { at, fresh: false, end, inclusive },
                    ),
                    ..m
                },
                dest,
                seq![range_value(at, end, inclusive)],
            )
        } else {
            ask(
                m,
                Req::Compute { kind: BinKind::Add, x: at, y: ONE },
                Pending::Turn { iter: i, dest },
            )
        },
        IterView::Values { table, keys, seen } => if 0 <= seen < keys.len() {
            give(
                Mach {
                    iters: m.iters.update(i as int, IterView::Values { table, keys, seen: seen + 1 }),
                    ..m
                },
                dest,
                if table < m.tables.len() {
                    table::t_get(m.tables[table as int], keys[seen])
                } else {
                    Val::Nil
                },
            )
        } else {
            deliver(m, dest, seq![Val::Nil])
        },
    }
}

/// A range has moved on to `n`.
pub open spec fn turned(m: Mach, i: usize, n: u64, dest: Dest) -> (Mach, Out) {
    match m.iters[i as int] {
        IterView::Range { at, fresh, end, inclusive } => deliver(
            Mach {
                iters: m.iters.update(
                    i as int,
                    IterView::Range { at: n, fresh: false, end, inclusive },
                ),
                ..m
            },
            dest,
            seq![range_value(n, end, inclusive)],
        ),
        _ => deliver(m, dest, seq![Val::Nil]),
    }
}

// ---- instructions -----------------------------------------------------------------------------------------

pub open spec fn at_line(m: Mach) -> Mach {
    Mach { line: cur(m).lines[m.pc], ..m }
}

/// `dst = global`.
pub open spec fn get_global(m: Mach, dst: Reg, name: Seq<char>) -> (Mach, Out) {
    (
        next(
            put(
                Mach { globals: with_global(m.globals, name), ..m },
                dst,
                global_value(m.globals, name),
            ),
        ),
        Out::Run,
    )
}

/// `global = src`. Compiled code may have relied on the function it held.
pub open spec fn set_global(m: Mach, name: Seq<char>, v: Val) -> (Mach, Out) {
    let m1 = next(Mach { globals: global_stored(m.globals, name, v), ..m });
    if !(v is Func && global_value(m.globals, name) == v) {
        (waits(m1, Pending::Seen), Out::Ask(Req::Stale { name }))
    } else {
        (m1, Out::Run)
    }
}

/// The cell of a captured variable of the running function.
pub open spec fn upval_cell(m: Mach, idx: u16) -> int {
    m.funcs[m.func as int].upvals[idx as int] as int
}

/// What a captured local holds.
pub open spec fn cell_value(m: Mach, v: Val) -> Val {
    match v {
        Val::Cell(c) if c < m.cells.len() => m.cells[c as int],
        other => other,
    }
}

pub open spec fn fresh_cell(m: Mach, slot: Reg, v: Val) -> Mach {
    Mach { cells: m.cells.push(v), ..put(m, slot, Val::Cell(m.cells.len() as usize)) }
}

pub open spec fn set_cell(m: Mach, slot: Reg, v: Val) -> Mach {
    match reg(m, slot) {
        Val::Cell(c) if c < m.cells.len() => Mach { cells: m.cells.update(c as int, v), ..m },
        _ => fresh_cell(m, slot, v),
    }
}

/// `o[k] = v`.
pub open spec fn set_index(m: Mach, o: Val, k: Val, v: Val) -> (Mach, Out) {
    match o {
        Val::Table(t) if t < m.tables.len() => match value::key_of(k) {
            None => bad(m, "table index is nil"@),
            Some(key) => if table::t_room(m.tables[t as int]) {
                (
                    next(
                        Mach {
                            tables: m.tables.update(
                                t as int,
                                table::t_set(m.tables[t as int], key, v),
                            ),
                            ..m
                        },
                    ),
                    Out::Run,
                )
            } else {
                bad(m, "table overflow"@)
            },
        },
        _ => bad(m, a_value("cannot index a "@, o, " value"@)),
    }
}

pub open spec fn get_index(m: Mach, dst: Reg, o: Val, k: Val) -> (Mach, Out) {
    match index(m, o, k) {
        Ok(v) => (next(put(m, dst, v)), Out::Run),
        Err(e) => bad(m, e),
    }
}

/// Append values to a table; anything else is left alone.
pub open spec fn append(m: Mach, o: Val, vals: Seq<Val>) -> (Mach, Out) {
    match o {
        Val::Table(t) if t < m.tables.len() => {
            let old_table = m.tables[t as int];
            if old_table.arr.len() + old_table.pairs.len() + vals.len() < table::LIMIT {
                (
                    next(
                        Mach {
                            tables: m.tables.update(t as int, table::t_appends(old_table, vals)),
                            ..m
                        },
                    ),
                    Out::Run,
                )
            } else {
                bad(m, "table overflow"@)
            }
        },
        _ => (next(m), Out::Run),
    }
}

/// The cells a closure captures, for the captures from `i` on: a captured
/// local is shared through its cell, and a captured variable of the running
/// function is passed straight down.
pub open spec fn captured(
    m: Mach,
    srcs: Seq<UpvalSrc>,
    i: nat,
    cells: Seq<Val>,
    found: Seq<usize>,
) -> (Seq<Val>, Seq<usize>)
    decreases srcs.len() - i,
{
    if i >= srcs.len() {
        (cells, found)
    } else {
        match srcs[i as int] {
            UpvalSrc::ParentLocal(slot) => match reg(m, slot) {
                Val::Cell(c) if c < m.cells.len() => captured(m, srcs, i + 1, cells, found.push(c)),
                other => captured(
                    m,
                    srcs,
                    i + 1,
                    cells.push(other),
                    found.push(cells.len() as usize),
                ),
            },
            UpvalSrc::ParentUpval(u) => captured(
                m,
                srcs,
                i + 1,
                cells,
                found.push(m.funcs[m.func as int].upvals[u as int]),
            ),
        }
    }
}

pub open spec fn closure(m: Mach, dst: Reg, p: ProtoView) -> Mach {
    let (cells, upvals) = captured(m, p.upvals, 0, m.cells, Seq::empty());
    Mach {
        cells,
        funcs: m.funcs.push(FuncView { proto: p, upvals, hits: 0, state: JitState::Cold }),
        ..put(m, dst, Val::Func(m.funcs.len() as usize))
    }
}

pub open spec fn range(m: Mach, dst: Reg, a: Val, b: Val, inclusive: bool) -> (Mach, Out) {
    match num_of(m, a) {
        Need::Is(at) => match num_of(m, b) {
            Need::Is(end) => (
                next(
                    Mach {
                        iters: m.iters.push(IterView::Range { at, fresh: true, end, inclusive }),
                        ..put(m, dst, Val::Iter(m.iters.len() as usize))
                    },
                ),
                Out::Run,
            ),
            Need::Ask(q) => ask(m, q, Pending::Note),
            Need::Bad(e) => bad(m, e),
        },
        Need::Ask(q) => ask(m, q, Pending::Note),
        Need::Bad(e) => bad(m, e),
    }
}

/// Something a loop can pull from: a table gives its values, in key order.
pub open spec fn iter_init(m: Mach, dst: Reg, v: Val) -> Mach {
    match v {
        Val::Table(t) if t < m.tables.len() => Mach {
            iters: m.iters.push(
                IterView::Values { table: t, keys: table::t_keys(m.tables[t as int]), seen: 0 },
            ),
            ..put(m, dst, Val::Iter(m.iters.len() as usize))
        },
        _ => put(m, dst, v),
    }
}

/// One more turn of a loop. The count of one that has code stands still: it
/// says so.
pub open spec fn ticked(seen: u32) -> u32 {
    if seen == HOT {
        HOT
    } else if seen == HOT - 1 {
        0
    } else {
        (seen + 1) as u32
    }
}

/// A back edge: count the iteration, and every so often ask whether compiled
/// code takes the loop over.
pub open spec fn tick(m: Mach, id: u32, to: u32, exit: int) -> (Mach, Out) {
    let seen = if m.ticks.contains_key(id) {
        m.ticks[id]
    } else {
        0
    };
    let n = ticked(seen);
    let m1 = Mach { ticks: m.ticks.insert(id, n), ..m };
    if (n == HOT || n % LOOP_BATCH == 0) && m.jit {
        (
            waits(m1, Pending::Hot { which: id, to, exit: exit as usize }),
            Out::Ask(Req::Hot { which: id }),
        )
    } else {
        (go(m1, to as int), Out::Run)
    }
}

/// A counted loop has stepped to `v`: go round again, or fall through.
pub open spec fn stepped(
    m: Mach,
    v: Val,
    counter: Reg,
    limit: Reg,
    to: u32,
    id: u32,
    le: bool,
) -> (Mach, Out) {
    let m1 = put(m, counter, v);
    let kind = if le {
        BinKind::Le
    } else {
        BinKind::Lt
    };
    match binary(m1, kind, v, reg(m1, limit)) {
        Need::Is(x) => if value::is_true(x) {
            tick(m1, id, to, m.pc + 1)
        } else {
            (next(m1), Out::Run)
        },
        Need::Ask(q) => ask(m, q, Pending::Note),
        Need::Bad(e) => bad(m, e),
    }
}

pub open spec fn for_loop(
    m: Mach,
    counter: Reg,
    limit: Reg,
    to: u32,
    id: u32,
    le: bool,
) -> (Mach, Out) {
    match binary(m, BinKind::Add, reg(m, counter), Val::Num(ONE)) {
        Need::Is(v) => stepped(m, v, counter, limit, to, id, le),
        Need::Ask(q) => ask(m, q, Pending::Step { counter, limit, to, id, le }),
        Need::Bad(e) => bad(m, e),
    }
}

/// Return from the running function.
pub open spec fn ret(m: Mach, base: Reg, n: u16) -> (Mach, Out) {
    let k = m.frames.len() - 1;
    let dest = m.frames[k].dest;
    if n == MULTI {
        deliver(leave(Mach { multi: Seq::empty(), ..m }, k), dest, m.multi)
    } else {
        deliver(leave(m, k), dest, window(m, base as int, n as nat))
    }
}

pub open spec fn call_op(m: Mach, callee: Val, args: Seq<Val>, dest: Dest) -> (Mach, Out) {
    let m1 = at_line(m);
    call_from(m1, m1, callee, args, dest, false)
}

pub open spec fn call_global(m: Mach, name: Seq<char>, args: Seq<Val>, dest: Dest) -> (
    Mach,
    Out,
) {
    call_op(
        Mach { globals: with_global(m.globals, name), ..m },
        global_value(m.globals, name),
        args,
        dest,
    )
}

pub open spec fn method_op(m: Mach, base: Reg, name: Seq<char>, nargs: u16, dest: Dest) -> (
    Mach,
    Out,
) {
    match method(m, m.stack[m.base + base + 1], name) {
        Ok(f) => call_op(m, f, window(m, base + 1, (nargs + 1) as nat), dest),
        Err(e) => bad(at_line(m), e),
    }
}

pub open spec fn spread_call(m: Mach, callee: Val, base: Reg, nargs: u16, nres: u16) -> (
    Mach,
    Out,
) {
    let m1 = at_line(m);
    call_from(
        m1,
        Mach { multi: Seq::empty(), ..m1 },
        callee,
        window(m, base + 1, nargs as nat) + m.multi,
        Dest::Regs { base, nres, dst: base },
        true,
    )
}

pub open spec fn spread_op(m: Mach, base: Reg, nargs: u16, nres: u16, method_name: u16) -> (
    Mach,
    Out,
) {
    if method_name == NO_METHOD {
        spread_call(m, reg(m, base), base, nargs, nres)
    } else {
        match method(m, m.stack[m.base + base + 1], cur(m).consts[method_name as int]->Str_0) {
            Ok(f) => spread_call(m, f, base, nargs, nres),
            Err(e) => bad(at_line(m), e),
        }
    }
}

pub open spec fn konst(m: Mach, k: u16) -> Val {
    cur(m).consts[k as int]
}

pub open spec fn global_name(m: Mach, g: u16) -> Seq<char> {
    cur(m).globals[g as int]
}

/// Run one instruction.
pub open spec fn exec_op(m: Mach, op: Op) -> (Mach, Out) {
    match op {
        Op::Const { dst, k } => (next(put(m, dst, konst(m, k))), Out::Run),
        Op::Nil { dst } => (next(put(m, dst, Val::Nil)), Out::Run),
        Op::Move { dst, src } => (next(put(m, dst, reg(m, src))), Out::Run),
        Op::Move2 { d0, s0, d1, s1 } => {
            let m1 = put(m, d0, reg(m, s0));
            (next(put(m1, d1, reg(m1, s1))), Out::Run)
        },
        Op::GetGlobal { dst, g } => get_global(m, dst, global_name(m, g)),
        Op::SetGlobal { g, src } => set_global(m, global_name(m, g), reg(m, src)),
        Op::GetUpval { dst, idx } => (next(put(m, dst, m.cells[upval_cell(m, idx)])), Out::Run),
        Op::SetUpval { idx, src } => (
            next(Mach { cells: m.cells.update(upval_cell(m, idx), reg(m, src)), ..m }),
            Out::Run,
        ),
        Op::GetCell { dst, slot } => (next(put(m, dst, cell_value(m, reg(m, slot)))), Out::Run),
        Op::SetCell { slot, src } => (next(set_cell(m, slot, reg(m, src))), Out::Run),
        Op::NewCell { slot, src } => (next(fresh_cell(m, slot, reg(m, src))), Out::Run),
        Op::Bin { kind, dst, a, b } => settle(m, binary(m, kind, reg(m, a), reg(m, b)), dst),
        Op::BinK { kind, dst, a, k } => settle(m, binary(m, kind, reg(m, a), konst(m, k)), dst),
        Op::Add { dst, a, b } => settle(m, binary(m, BinKind::Add, reg(m, a), reg(m, b)), dst),
        Op::Sub { dst, a, b } => settle(m, binary(m, BinKind::Sub, reg(m, a), reg(m, b)), dst),
        Op::Mul { dst, a, b } => settle(m, binary(m, BinKind::Mul, reg(m, a), reg(m, b)), dst),
        Op::Div { dst, a, b } => settle(m, binary(m, BinKind::Div, reg(m, a), reg(m, b)), dst),
        Op::AddK { dst, a, k } => settle(m, binary(m, BinKind::Add, reg(m, a), konst(m, k)), dst),
        Op::SubK { dst, a, k } => settle(m, binary(m, BinKind::Sub, reg(m, a), konst(m, k)), dst),
        Op::MulK { dst, a, k } => settle(m, binary(m, BinKind::Mul, reg(m, a), konst(m, k)), dst),
        Op::Neg { dst, a } => settle(
            m,
            match num_of(m, reg(m, a)) {
                Need::Is(n) => Need::Is(Val::Num(num::negated(n))),
                Need::Ask(q) => Need::Ask(q),
                Need::Bad(e) => Need::Bad(e),
            },
            dst,
        ),
        Op::Not { dst, a } => (
            next(put(m, dst, Val::Bool(!value::is_true(reg(m, a))))),
            Out::Run,
        ),
        Op::Concat { dst, base, parts } => settle(
            m,
            match all_text(m, window(m, base as int, parts as nat)) {
                Need::Is(s) => Need::Is(Val::Str(s)),
                Need::Ask(q) => Need::Ask(q),
                Need::Bad(e) => Need::Bad(e),
            },
            dst,
        ),
        Op::Jump { to } => (go(m, to as int), Out::Run),
        Op::JumpIfFalse { cond, to } => branch(m, Need::Is(reg(m, cond)), to),
        Op::JumpIfTrue { cond, to } => branch(
            m,
            Need::Is(Val::Bool(!value::is_true(reg(m, cond)))),
            to,
        ),
        Op::JumpIfNot { kind, a, b, to } => branch(m, binary(m, kind, reg(m, a), reg(m, b)), to),
        Op::JumpIfNotK { kind, a, k, to } => branch(
            m,
            binary(m, kind, reg(m, a), konst(m, k)),
            to,
        ),
        Op::JumpBack { to, id, hint, exit } => tick(m, id, to, exit as int),
        Op::LoopHint { id, hint, exit } => tick(m, id, (m.pc + 1) as u32, exit as int),
        Op::ForLoop { counter, limit, to, id, hint, le } => for_loop(
            m,
            counter,
            limit,
            to,
            id,
            le,
        ),
        Op::Call { base, nargs, nres, dst } => call_op(
            m,
            reg(m, base),
            window(m, base + 1, nargs as nat),
            Dest::Regs { base, nres, dst },
        ),
        Op::CallGlobal { base, g, nargs, nres, dst } => call_global(
            m,
            global_name(m, g),
            window(m, base + 1, nargs as nat),
            Dest::Regs { base, nres, dst },
        ),
        Op::CallGlobal1 { base, g, a, nres, dst } => call_global(
            m,
            global_name(m, g),
            seq![reg(m, a)],
            Dest::Regs { base, nres, dst },
        ),
        Op::Method { base, name, nargs, nres, dst } => method_op(
            m,
            base,
            konst(m, name)->Str_0,
            nargs,
            Dest::Regs { base, nres, dst },
        ),
        Op::CallSpread { base, nargs, nres, method } => spread_op(m, base, nargs, nres, method),
        Op::Ret { base, n } => ret(m, base, n),
        Op::NewTable { dst } => (
            next(
                Mach {
                    tables: m.tables.push(
                        TableView { arr: Seq::empty(), pairs: Seq::empty(), nums: None },
                    ),
                    ..put(m, dst, Val::Table(m.tables.len() as usize))
                },
            ),
            Out::Run,
        ),
        Op::GetIndex { dst, obj, key } => get_index(m, dst, reg(m, obj), reg(m, key)),
        Op::GetIndexK { dst, obj, k, ic } => get_index(m, dst, reg(m, obj), konst(m, k)),
        Op::SetIndex { obj, key, val } => set_index(m, reg(m, obj), reg(m, key), reg(m, val)),
        Op::SetIndexK { obj, k, val } => set_index(m, reg(m, obj), konst(m, k), reg(m, val)),
        Op::Append { obj, val } => append(m, reg(m, obj), seq![reg(m, val)]),
        Op::AppendMulti { obj } => append(
            Mach { multi: Seq::empty(), ..m },
            reg(m, obj),
            m.multi,
        ),
        Op::Closure { dst, proto } => (next(closure(m, dst, cur(m).protos[proto as int])), Out::Run),
        Op::Range { dst, a, b, inclusive } => range(m, dst, reg(m, a), reg(m, b), inclusive),
        Op::IterInit { dst, src } => (next(iter_init(m, dst, reg(m, src))), Out::Run),
        Op::IterNext { iter, base, count, exit } => call_from(
            m,
            m,
            reg(m, iter),
            Seq::empty(),
            Dest::Iter { base, count, exit },
            true,
        ),
    }
}

/// One step of the machine.
pub open spec fn step(m: Mach) -> (Mach, Out) {
    exec_op(m, cur(m).code[m.pc])
}

/// Go on with what the host replied.
pub open spec fn resume(m: Mach, reply: Reply) -> (Mach, Out) {
    match (m.pending, reply) {
        (Pending::Values { dest, depth }, Reply::Values(vals)) => deliver(
            Mach { depth: depth as int, ..idle(m) },
            dest,
            vals,
        ),
        (Pending::Values { dest, depth }, Reply::Fault(e)) => throw(
            Mach { depth: depth as int, ..idle(m) },
            e,
        ),
        (Pending::Sum { dst }, Reply::Number(n)) => (
            next(put(idle(m), dst, Val::Num(n))),
            Out::Run,
        ),
        (Pending::Step { counter, limit, to, id, le }, Reply::Number(n)) => stepped(
            idle(m),
            Val::Num(n),
            counter,
            limit,
            to,
            id,
            le,
        ),
        (Pending::Turn { iter, dest }, Reply::Number(n)) => turned(idle(m), iter, n, dest),
        (Pending::Note, Reply::Read(s, n)) => (
            Mach { reads: m.reads.push((s, n)), ..idle(m) },
            Out::Run,
        ),
        (Pending::Note, Reply::Shown(b, s)) => (
            Mach { shows: m.shows.push((b, s)), ..idle(m) },
            Out::Run,
        ),
        (Pending::Took { dest }, Reply::Took(v)) => deliver(idle(m), dest, seq![v]),
        (Pending::Took { dest }, Reply::Declined) => (
            Mach { declined: true, ..idle(m) },
            Out::Run,
        ),
        (Pending::Hot { which, to, exit }, Reply::Ran(ran)) => (
            go(
                Mach {
                    ticks: m.ticks.insert(
                        which,
                        if ran {
                            HOT
                        } else {
                            0
                        },
                    ),
                    ..idle(m)
                },
                if ran {
                    exit as int
                } else {
                    to as int
                },
            ),
            Out::Run,
        ),
        (Pending::Seen, Reply::Seen) => (idle(m), Out::Run),
        _ => bad(idle(m), "the host gave no answer to what it was asked"@),
    }
}

/// The function a chunk is.
pub open spec fn chunk_func(p: ProtoView) -> FuncView {
    FuncView { proto: p, upvals: Seq::empty(), hits: 0, state: JitState::Blocked }
}

pub open spec fn with_chunk(m: Mach, p: ProtoView) -> Mach {
    Mach { funcs: m.funcs.push(chunk_func(p)), ..m }
}

/// Begin a call from outside. A builtin, compiled code and the step of a range
/// are the host's own to run, and it says nothing of them to the machine but
/// where compiled code declines, and where a range has come to.
pub open spec fn call_in(m: Mach, f: Val, args: Seq<Val>) -> (Mach, Out) {
    if m.depth >= MAX_DEPTH {
        (m, Out::Fail(plain("stack overflow"@)))
    } else {
        match f {
            Val::Func(i) if i < m.funcs.len() => if !fits(m, i) {
                (m, Out::Fail(plain("stack overflow"@)))
            } else if offers(m, f) {
                (counted(m, i), Out::Ask(Req::Compiled { func: i, args }))
            } else {
                (enter(counted(m, i), i, args, Dest::Host, true), Out::Run)
            },
            Val::Native(id) => (m, Out::Ask(Req::Native { id, args })),
            Val::Iter(i) if i < m.iters.len() => match m.iters[i as int] {
                IterView::Range { at, fresh: false, end, inclusive } => (
                    m,
                    Out::Ask(Req::Compute { kind: BinKind::Add, x: at, y: ONE }),
                ),
                _ => turn(m, i, Dest::Host),
            },
            _ => (m, Out::Fail(plain(a_value("cannot call a "@, f, " value"@)))),
        }
    }
}

/// Begin a call from outside that compiled code declined.
pub open spec fn call_declined(m: Mach, f: Val, args: Seq<Val>) -> (Mach, Out) {
    match f {
        Val::Func(i) if i < m.funcs.len() && fits(m, i) => (
            enter(m, i, args, Dest::Host, true),
            Out::Run,
        ),
        _ => (m, Out::Fail(plain("stack overflow"@))),
    }
}

/// A range that was called from outside has come to `n`.
pub open spec fn call_turned(m: Mach, f: Val, n: u64) -> (Mach, Out) {
    match f {
        Val::Iter(i) if i < m.iters.len() => turned(m, i, n, Dest::Host),
        _ => (m, Out::Fail(plain(a_value("cannot call a "@, f, " value"@)))),
    }
}

/// At most `n` steps, up to the first that needs the host.
pub open spec fn steps(m: Mach, n: nat) -> (Mach, Out)
    decreases n,
{
    if n == 0 {
        (m, Out::Run)
    } else {
        let (m1, out) = step(m);
        if out is Run && m1.frames.len() > 0 && m1.pending is Idle {
            steps(m1, (n - 1) as nat)
        } else {
            (m1, out)
        }
    }
}

// ---- what every step keeps ------------------------------------------------------------------------------------

/// The registers a call's values belong in exist, and so does the code.
pub open spec fn dest_ok(d: Dest, p: ProtoView) -> bool {
    match d {
        Dest::Host => true,
        Dest::Regs { base, nres, dst } => bytecode::results_fit(base, nres, dst, p.n_regs),
        Dest::Iter { base, count, exit } => base + count <= p.n_regs && exit < p.code.len(),
    }
}

/// What is waited for can be put where it belongs.
pub open spec fn pending_ok(w: Pending, p: ProtoView, iters: nat) -> bool {
    match w {
        Pending::Idle | Pending::Note | Pending::Seen => true,
        Pending::Values { dest, depth } => !(dest is Host) && dest_ok(dest, p),
        Pending::Sum { dst } => dst < p.n_regs,
        Pending::Step { counter, limit, to, id, le } => counter < p.n_regs && limit < p.n_regs && to
            < p.code.len(),
        Pending::Turn { iter, dest } => iter < iters && !(dest is Host) && dest_ok(dest, p),
        Pending::Took { dest } => !(dest is Host) && dest_ok(dest, p),
        Pending::Hot { which, to, exit } => to < p.code.len() && exit < p.code.len(),
    }
}

/// Is there an instruction after the one at `pc`?
pub open spec fn goes_on(p: ProtoView, pc: int) -> bool {
    0 <= pc < p.code.len() && !(p.code[pc] is Ret)
}

/// A place in a function that the machine may run from.
pub open spec fn place_ok(m: Mach, func: usize, base: int, top: int, pc: int, w: Pending) -> bool {
    &&& func < m.funcs.len()
    &&& 0 <= base
    &&& base + proto_at(m, func).n_regs <= top
    &&& 0 <= pc < proto_at(m, func).code.len()
    &&& pending_ok(w, proto_at(m, func), m.iters.len())
    &&& (w is Idle || w is Seen || goes_on(proto_at(m, func), pc))
}

pub open spec fn frame_ok(m: Mach, f: Frame) -> bool {
    &&& place_ok(m, f.func, f.base as int, f.top as int, f.pc as int, f.pending)
    &&& dest_ok(f.dest, proto_at(m, f.func))
    &&& (f.dest is Host || (f.pending is Idle && goes_on(proto_at(m, f.func), f.pc as int)))
}

/// A function's code refers only to what exists, and its captures are there.
pub open spec fn func_ok(f: FuncView, cells: nat) -> bool {
    &&& bytecode::proto_ok(f.proto)
    &&& f.upvals.len() == f.proto.upvals.len()
    &&& forall|j: int| 0 <= j < f.upvals.len() ==> (#[trigger] f.upvals[j]) < cells
}

/// What holds of the machine between steps: every register, constant, capture
/// and jump of every call under way exists, every call gives back what it
/// took, and the registers above the top are nil.
pub open spec fn wf(m: Mach) -> bool {
    &&& 0 <= m.top <= m.stack.len()
    &&& 0 <= m.depth
    &&& forall|i: int| m.top <= i < m.stack.len() ==> (#[trigger] m.stack[i]) is Nil
    &&& m.frames.len() > 0 ==> place_ok(m, m.func, m.base, m.top, m.pc, m.pending)
    &&& m.frames.len() > 0 ==> m.frames[0].dest is Host && m.frames[0].pending is Idle
    &&& m.frames.len() == 0 ==> m.pending is Idle
    &&& forall|i: int| 1 <= i < m.frames.len() ==> frame_ok(m, #[trigger] m.frames[i])
    &&& forall|i: int|
        0 <= i < m.frames.len() ==> (#[trigger] m.frames[i]).top <= m.top && m.frames[i].trace
            <= m.trace.len()
    &&& forall|i: int, j: int|
        0 <= i < j < m.frames.len() ==> (#[trigger] m.frames[i]).top <= (#[trigger] m.frames[j]).top
            && m.frames[i].trace <= m.frames[j].trace
    &&& forall|i: int| 0 <= i < m.funcs.len() ==> func_ok(#[trigger] m.funcs[i], m.cells.len())
    &&& forall|i: int| 0 <= i < m.tables.len() ==> table::t_wf(#[trigger] m.tables[i])
}

/// The machine is in the middle of a call, with nothing to wait for.
pub open spec fn running(m: Mach) -> bool {
    wf(m) && m.frames.len() > 0 && m.pending is Idle
}

/// There is always a call the host made to go back to.
pub proof fn lemma_host_at(frames: Seq<Frame>)
    requires
        frames.len() > 0,
        frames[0].dest is Host,
    ensures
        0 <= host_at(frames) < frames.len(),
        frames[host_at(frames)].dest is Host,
        forall|i: int| host_at(frames) < i < frames.len() ==> !((#[trigger] frames[i]).dest is Host),
    decreases frames.len(),
{
    if !(frames.last().dest is Host) {
        lemma_host_at(frames.drop_last());
        assert forall|i: int| host_at(frames) < i < frames.len() implies !((
        #[trigger] frames[i]).dest is Host) by {
            if i < frames.len() - 1 {
                assert(frames.drop_last()[i] == frames[i]);
            }
        }
    }
}

// ---- laws ------------------------------------------------------------------------------------------------------

/// What a global was set to is what it holds.
pub proof fn lemma_global_round_trip(globals: Seq<(Seq<char>, Val)>, name: Seq<char>, v: Val)
    ensures
        global_value(global_stored(globals, name, v), name) == v,
{
    lemma_global_found(globals, name, 0);
    let g = global_stored(globals, name, v);
    let at = global_at(globals, name, 0);
    assert forall|j: int| 0 <= j < at implies (#[trigger] g[j]).0 != name by {
        assert(globals[j].0 != name);
    }
    lemma_global_is(g, name, 0, at);
}

/// Setting or meeting one global leaves every other where it was, holding
/// what it held: a place once given out is good for ever.
pub proof fn lemma_globals_stay(
    globals: Seq<(Seq<char>, Val)>,
    name: Seq<char>,
    v: Val,
    other: Seq<char>,
)
    requires
        other != name,
    ensures
        global_value(global_stored(globals, name, v), other) == global_value(globals, other),
        global_value(with_global(globals, name), other) == global_value(globals, other),
        global_at(globals, other, 0) < globals.len() ==> global_at(
            global_stored(globals, name, v),
            other,
            0,
        ) == global_at(globals, other, 0),
        global_stored(globals, name, v).len() >= globals.len(),
{
    lemma_global_found(globals, name, 0);
    lemma_global_found(globals, other, 0);
    let g = global_stored(globals, name, v);
    let w = with_global(globals, name);
    let at = global_at(globals, other, 0);
    lemma_global_found(g, other, 0);
    lemma_global_found(w, other, 0);
    if at < globals.len() {
        assert forall|j: int| 0 <= j < at implies (#[trigger] g[j]).0 != other by {
            assert(globals[j].0 != other);
        }
        assert forall|j: int| 0 <= j < at implies (#[trigger] w[j]).0 != other by {
            assert(globals[j].0 != other);
        }
        lemma_global_is(g, other, 0, at);
        lemma_global_is(w, other, 0, at);
    } else {
        let a = global_at(g, other, 0);
        if a < g.len() {
            if a < globals.len() && g[a as int].0 == other {
                assert(globals[a as int].0 == other);
            }
        }
        let b = global_at(w, other, 0);
        if b < w.len() {
            if b < globals.len() {
                assert(globals[b as int].0 != other);
            }
        }
    }
}

proof fn lemma_global_found(globals: Seq<(Seq<char>, Val)>, name: Seq<char>, i: nat)
    requires
        i <= globals.len(),
    ensures
        i <= global_at(globals, name, i) <= globals.len(),
        global_at(globals, name, i) < globals.len() ==> globals[global_at(
            globals,
            name,
            i,
        ) as int].0 == name,
        forall|j: int| i <= j < global_at(globals, name, i) ==> (#[trigger] globals[j]).0 != name,
    decreases globals.len() - i,
{
    if i < globals.len() && globals[i as int].0 != name {
        lemma_global_found(globals, name, i + 1);
    }
}

proof fn lemma_global_is(globals: Seq<(Seq<char>, Val)>, name: Seq<char>, i: nat, at: nat)
    requires
        i <= at < globals.len(),
        globals[at as int].0 == name,
        forall|j: int| i <= j < at ==> (#[trigger] globals[j]).0 != name,
    ensures
        global_at(globals, name, i) == at,
    decreases at - i,
{
    if i < at {
        lemma_global_is(globals, name, i + 1, at);
    }
}

/// What a call opens, leaving it closes: whatever the callee did to its own
/// registers, the caller is back where it was, with the registers it had.
pub proof fn lemma_leave_undoes_enter(
    m: Mach,
    f: usize,
    args: Seq<Val>,
    dest: Dest,
    counts: bool,
)
    requires
        wf(m),
        f < m.funcs.len(),
        m.top <= usize::MAX,
        0 <= m.base <= usize::MAX,
        0 <= m.pc <= usize::MAX,
        m.depth <= usize::MAX,
        m.trace.len() <= usize::MAX,
    ensures
        ({
            let r = leave(enter(m, f, args, dest, counts), m.frames.len() as int);
            &&& r.frames == m.frames
            &&& r.base == m.base
            &&& r.top == m.top
            &&& r.func == m.func
            &&& r.pc == m.pc
            &&& r.depth == m.depth
            &&& r.trace == m.trace
            &&& r.pending == m.pending
            &&& r.line == m.line
            &&& r.stack.len() >= m.stack.len()
            &&& forall|i: int| 0 <= i < m.stack.len() ==> #[trigger] r.stack[i] == m.stack[i]
            &&& forall|i: int| m.top <= i < r.stack.len() ==> (#[trigger] r.stack[i]) is Nil
        }),
{
    let e = enter(m, f, args, dest, counts);
    let r = leave(e, m.frames.len() as int);
    assert(func_ok(m.funcs[f as int], m.cells.len()));
    assert(e.frames.take(m.frames.len() as int) =~= m.frames);
    assert(e.trace.take(m.trace.len() as int) =~= m.trace);
    let p = proto_at(m, f);
    let end = m.top + p.n_regs;
    let g = grown(m.stack, end);
    lemma_bound_window(g, m.cells, m.top, p.params, args, 0, p.n_regs);
    assert forall|i: int| 0 <= i < m.stack.len() implies #[trigger] r.stack[i] == m.stack[i] by {
        if i >= m.top {
            assert(m.stack[i] is Nil);
        }
    }
    assert forall|i: int| m.top <= i < r.stack.len() implies (#[trigger] r.stack[i]) is Nil by {
        if i >= end {
            assert(e.stack[i] == g[i]);
            if i < m.stack.len() {
                assert(m.stack[i] is Nil);
            }
        }
    }
}

/// A call starts on nils: every register of a fresh frame that is no
/// parameter is nil, whatever ran there before.
pub proof fn lemma_fresh_registers(
    m: Mach,
    f: usize,
    args: Seq<Val>,
    dest: Dest,
    counts: bool,
    r: int,
)
    requires
        wf(m),
        f < m.funcs.len(),
        0 <= r < proto_at(m, f).n_regs,
        forall|k: int|
            0 <= k < proto_at(m, f).params.len() ==> (#[trigger] proto_at(m, f).params[k]).reg != r,
    ensures
        enter(m, f, args, dest, counts).stack[m.top + r] is Nil,
{
    let p = proto_at(m, f);
    let g = grown(m.stack, m.top + p.n_regs);
    assert(func_ok(m.funcs[f as int], m.cells.len()));
    lemma_bound_other(g, m.cells, m.top, p.params, args, 0, p.n_regs, m.top + r);
    if m.top + r < m.stack.len() {
        assert(m.stack[m.top + r] is Nil);
    }
}

proof fn lemma_bound_window(
    stack: Seq<Val>,
    cells: Seq<Val>,
    base: int,
    params: Seq<ParamSlot>,
    args: Seq<Val>,
    i: nat,
    n: nat,
)
    requires
        0 <= base,
        base + n <= stack.len(),
        forall|k: int| 0 <= k < params.len() ==> (#[trigger] params[k]).reg < n,
    ensures
        bound(stack, cells, base, params, args, i).0.len() == stack.len(),
        forall|k: int|
            0 <= k < stack.len() && !(base <= k < base + n) ==> #[trigger] bound(
                stack,
                cells,
                base,
                params,
                args,
                i,
            ).0[k] == stack[k],
    decreases params.len() - i,
{
    if i < params.len() {
        let v = nth(args, i as int);
        let at = base + params[i as int].reg;
        if params[i as int].cell {
            lemma_bound_window(
                stack.update(at, Val::Cell(cells.len() as usize)),
                cells.push(v),
                base,
                params,
                args,
                i + 1,
                n,
            );
        } else {
            lemma_bound_window(stack.update(at, v), cells, base, params, args, i + 1, n);
        }
    }
}

proof fn lemma_bound_other(
    stack: Seq<Val>,
    cells: Seq<Val>,
    base: int,
    params: Seq<ParamSlot>,
    args: Seq<Val>,
    i: nat,
    n: nat,
    at: int,
)
    requires
        0 <= base,
        base + n <= stack.len(),
        0 <= at < stack.len(),
        forall|k: int|
            0 <= k < params.len() ==> (#[trigger] params[k]).reg < n && base + params[k].reg != at,
    ensures
        bound(stack, cells, base, params, args, i).0[at] == stack[at],
    decreases params.len() - i,
{
    if i < params.len() {
        let v = nth(args, i as int);
        let to = base + params[i as int].reg;
        if params[i as int].cell {
            lemma_bound_other(
                stack.update(to, Val::Cell(cells.len() as usize)),
                cells.push(v),
                base,
                params,
                args,
                i + 1,
                n,
                at,
            );
        } else {
            lemma_bound_other(stack.update(to, v), cells, base, params, args, i + 1, n, at);
        }
    }
}

} // verus!
