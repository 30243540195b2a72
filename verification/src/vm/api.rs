//! The machine as its host sees it.
use super::{Function, Outcome, Request, Vm};
use crate::bytecode::{BinKind, Proto};
use crate::machine;
use crate::machine::{Dest, Mach, Pending, MAX_DEPTH, ONE, STACK_MAX};
use crate::table;
use crate::table::Table;
use crate::text;
use crate::value;
use crate::value::{JitState, Val, Value};
use std::collections::HashMap;
use std::rc::Rc;
use vstd::prelude::*;

verus! {

broadcast use vstd::std_specs::hash::group_hash_axioms;

/// The three types that carry methods.
#[derive(Clone, Copy, Debug, PartialEq, Eq, Structural)]
pub enum MethodTable {
    Str,
    Math,
    Table,
}

fn overflow() -> (r: Outcome)
    ensures
        super::outcome_view(r) == machine::Out::Fail(machine::plain("stack overflow"@)),
{
    let e = value::Error(text::owned("stack overflow"));
    assert(super::error_view(e) =~= machine::plain("stack overflow"@));
    Outcome::Fail(e)
}

fn no_call(f: &Value) -> (r: Outcome)
    ensures
        super::outcome_view(r) == machine::Out::Fail(
            machine::plain(machine::a_value("cannot call a "@, f@, " value"@)),
        ),
{
    let message = super::calls::a_value("cannot call a ", f, " value");
    let ghost m = message@;
    let e = value::Error(message);
    assert(super::error_view(e) =~= machine::plain(m));
    Outcome::Fail(e)
}

impl Vm {
    /// A machine with nothing in it.
    pub fn bare() -> (vm: Vm)
        ensures
            machine::wf(vm@),
            vm@ == machine::bare(),
    {
        let vm = Vm {
            globals: Vec::new(),
            natives: Vec::new(),
            stack: Vec::new(),
            base: 0,
            top: 0,
            multi: Vec::new(),
            reads: Vec::new(),
            shows: Vec::new(),
            declined: false,
            line: 0,
            trace: Vec::new(),
            frames: Vec::new(),
            func: 0,
            pc: 0,
            depth: 0,
            pending: Pending::Idle,
            tables: Vec::new(),
            cells: Vec::new(),
            funcs: Vec::new(),
            iters: Vec::new(),
            strings: None,
            maths: None,
            lists: None,
            ticks: HashMap::new(),
            jit: false,
            threshold: u32::MAX,
        };
        proof {
            let m = vm@;
            assert(m.globals =~= Seq::empty());
            assert(m.natives =~= Seq::empty());
            assert(m.stack =~= Seq::empty());
            assert(m.multi =~= Seq::empty());
            assert(m.reads =~= Seq::empty());
            assert(m.shows =~= Seq::empty());
            assert(m.trace =~= Seq::empty());
            assert(m.frames =~= Seq::empty());
            assert(m.tables =~= Seq::empty());
            assert(m.cells =~= Seq::empty());
            assert(m.funcs =~= Seq::empty());
            assert(m.iters =~= Seq::empty());
            assert(m.ticks =~= Map::empty());
        }
        vm
    }

    /// Let compiled code run, for functions called this often.
    pub fn set_jit(&mut self, on: bool, threshold: u32)
        requires
            machine::wf(old(self)@),
        ensures
            final(self)@ == (Mach { jit: on, threshold, ..old(self)@ }),
            machine::wf(final(self)@),
    {
        let ghost was = self@;
        self.jit = on;
        self.threshold = threshold;
        assert(self@ =~= (Mach { jit: on, threshold, ..was }));
        proof {
            super::calls::lemma_same_places(was, self@);
        }
    }

    /// Name a builtin: the value scripts call it by.
    pub fn native(&mut self, name: &str) -> (v: Value)
        requires
            machine::wf(old(self)@),
        ensures
            v@ == Val::Native(old(self)@.natives.len() as usize),
            final(self)@ == (Mach { natives: old(self)@.natives.push(name@), ..old(self)@ }),
            machine::wf(final(self)@),
    {
        let ghost was = self@;
        let id: usize = self.natives.len();
        self.natives.push(text::owned(name));
        assert(self@.natives =~= was.natives.push(name@));
        assert(self@ =~= (Mach { natives: was.natives.push(name@), ..was }));
        proof {
            super::calls::lemma_same_places(was, self@);
        }
        Value::Native(id)
    }

    /// Expose a builtin as a global.
    pub fn register(&mut self, name: &str) -> (id: usize)
        requires
            machine::wf(old(self)@),
        ensures
            id == old(self)@.natives.len(),
            final(self)@ == (Mach {
                natives: old(self)@.natives.push(name@),
                globals: machine::global_stored(old(self)@.globals, name@, Val::Native(id)),
                ..old(self)@
            }),
            machine::wf(final(self)@),
    {
        let id: usize = self.natives.len();
        let v = self.native(name);
        self.store_global(name, v);
        id
    }

    pub fn set_global(&mut self, name: &str, v: Value)
        requires
            machine::wf(old(self)@),
        ensures
            final(self)@ == (Mach {
                globals: machine::global_stored(old(self)@.globals, name@, v@),
                ..old(self)@
            }),
            machine::wf(final(self)@),
    {
        self.store_global(name, v);
    }

    /// Every global that has been met, in the order it was first.
    pub fn global_names(&self) -> (r: Vec<String>)
        ensures
            r@.len() == self@.globals.len(),
            forall|i: int| 0 <= i < r@.len() ==> (#[trigger] r@[i])@ == self@.globals[i].0,
    {
        let mut out: Vec<String> = Vec::new();
        let mut i: usize = 0;
        while i < self.globals.len()
            invariant
                i <= self.globals@.len(),
                out@.len() == i,
                forall|k: int| 0 <= k < i ==> (#[trigger] out@[k])@ == self.globals@[k].0@,
            decreases self.globals@.len() - i,
        {
            out.push(self.globals[i].0.clone());
            i = i + 1;
        }
        out
    }

    /// Remember a type's method table.
    pub fn set_method_table(&mut self, kind: MethodTable, t: usize)
        requires
            machine::wf(old(self)@),
        ensures
            final(self)@ == match kind {
                MethodTable::Str => (Mach { strings: Some(t), ..old(self)@ }),
                MethodTable::Math => (Mach { maths: Some(t), ..old(self)@ }),
                MethodTable::Table => (Mach { lists: Some(t), ..old(self)@ }),
            },
            machine::wf(final(self)@),
    {
        let ghost was = self@;
        match kind {
            MethodTable::Str => {
                self.strings = Some(t);
            },
            MethodTable::Math => {
                self.maths = Some(t);
            },
            MethodTable::Table => {
                self.lists = Some(t);
            },
        }
        proof {
            super::calls::lemma_same_places(was, self@);
        }
    }

    /// A table of the heap.
    pub fn table(&self, t: usize) -> (r: Option<&Table>)
        requires
            machine::wf(self@),
        ensures
            match r {
                Some(tab) => t < self@.tables.len() && tab@ == self@.tables[t as int]
                    && table::t_wf(tab@),
                None => t >= self@.tables.len(),
            },
    {
        if t < self.tables.len() {
            assert(table::t_wf(self@.tables[t as int]));
            Some(&self.tables[t])
        } else {
            None
        }
    }

    /// Put a table in the place of one of the heap, which is handed out.
    pub fn swap_table(&mut self, t: usize, with: Table) -> (r: Table)
        requires
            machine::wf(old(self)@),
            table::t_wf(with@),
        ensures
            t < old(self)@.tables.len() ==> r@ == old(self)@.tables[t as int] && final(self)@
                == (Mach { tables: old(self)@.tables.update(t as int, with@), ..old(self)@ }),
            t >= old(self)@.tables.len() ==> r@ == with@ && *final(self) == *old(self),
            table::t_wf(r@),
            machine::wf(final(self)@),
    {
        if t >= self.tables.len() {
            return with;
        }
        let ghost was = self@;
        let ghost to = with@;
        let mut tab = with;
        std::mem::swap(&mut tab, &mut self.tables[t]);
        assert(self@.tables =~= was.tables.update(t as int, to));
        assert(self@ =~= (Mach { tables: was.tables.update(t as int, to), ..was }));
        proof {
            assert(table::t_wf(was.tables[t as int]));
            assert forall|i: int| 0 <= i < self@.tables.len() implies table::t_wf(
                #[trigger] self@.tables[i],
            ) by {
                assert(table::t_wf(was.tables[i]));
            }
            super::calls::lemma_same_places(was, self@);
        }
        tab
    }

    /// Put other tables in the place of the whole heap, which is handed out:
    /// compiled code works on it while the machine waits.
    pub fn swap_tables(&mut self, with: Vec<Table>) -> (r: Vec<Table>)
        requires
            machine::wf(old(self)@),
            crate::tier::dirty::all_wf(super::table_views(with@)),
        ensures
            super::table_views(r@) == old(self)@.tables,
            crate::tier::dirty::all_wf(super::table_views(r@)),
            final(self)@ == (Mach { tables: super::table_views(with@), ..old(self)@ }),
            machine::wf(final(self)@),
    {
        let ghost was = self@;
        let ghost to = super::table_views(with@);
        let mut all = with;
        std::mem::swap(&mut all, &mut self.tables);
        assert(self@ =~= (Mach { tables: to, ..was }));
        proof {
            super::calls::lemma_same_places(was, self@);
        }
        all
    }

    /// What a local of the running call holds.
    pub fn local(&self, slot: u16) -> (r: Option<Value>)
        requires
            machine::wf(self@),
        ensures
            match r {
                Some(v) => self@.base + slot < self@.top && v@ == self@.stack[self@.base + slot],
                None => self@.base + slot >= self@.top,
            },
    {
        let slot: usize = slot as usize;
        if self.base < self.top && slot < self.top - self.base {
            Some(self.stack[self.base + slot].clone())
        } else {
            None
        }
    }

    /// Write a local of the running call, which compiled code changed.
    pub fn set_local(&mut self, slot: u16, v: Value) -> (r: bool)
        requires
            machine::wf(old(self)@),
            old(self)@.frames.len() > 0,
        ensures
            machine::wf(final(self)@),
            r == (old(self)@.base + slot < old(self)@.top),
            r ==> final(self)@ == (Mach {
                stack: old(self)@.stack.update(old(self)@.base + slot, v@),
                ..old(self)@
            }),
            !r ==> *final(self) == *old(self),
    {
        let ghost was = self@;
        let ghost at = self.base + slot;
        let ghost x = v@;
        let slot: usize = slot as usize;
        if self.base < self.top && slot < self.top - self.base {
            let i: usize = self.base + slot;
            self.stack.set(i, v);
            assert(self@.stack =~= was.stack.update(at, x));
            assert(self@ =~= (Mach { stack: was.stack.update(at, x), ..was }));
            proof {
                super::calls::lemma_window_write(was, self@, at, 1);
            }
            true
        } else {
            false
        }
    }

    /// A function of the heap.
    pub fn function(&self, f: usize) -> (r: Option<&Function>)
        ensures
            match r {
                Some(g) => f < self@.funcs.len() && super::func_view(*g) == self@.funcs[f as int],
                None => f >= self@.funcs.len(),
            },
    {
        if f < self.funcs.len() {
            Some(&self.funcs[f])
        } else {
            None
        }
    }

    /// How far the JIT has got with a function: what the host found out.
    pub fn set_jit_state(&mut self, f: usize, state: JitState)
        requires
            machine::wf(old(self)@),
            f < old(self)@.funcs.len(),
        ensures
            final(self)@ == (Mach {
                funcs: old(self)@.funcs.update(
                    f as int,
                    (machine::FuncView {
                        state,
                        hits: if state == JitState::Cold {
                            0
                        } else {
                            old(self)@.funcs[f as int].hits
                        },
                        ..old(self)@.funcs[f as int]
                    }),
                ),
                ..old(self)@
            }),
            machine::wf(final(self)@),
    {
        let ghost was = self@;
        self.funcs[f].state = state;
        if state == JitState::Cold {
            self.funcs[f].hits = 0;
        }
        let ghost now = machine::FuncView {
            state,
            hits: if state == JitState::Cold {
                0
            } else {
                was.funcs[f as int].hits
            },
            ..was.funcs[f as int]
        };
        assert(self@.funcs =~= was.funcs.update(f as int, now));
        assert(self@ =~= (Mach { funcs: was.funcs.update(f as int, now), ..was }));
        proof {
            lemma_same_code(was, self@);
        }
    }

    /// Start to run a chunk: a function of no arguments that captures
    /// nothing. It runs once, so it is never worth compiling as a whole.
    pub fn eval(&mut self, proto: Rc<Proto>) -> (r: Outcome)
        requires
            machine::wf(old(self)@),
            crate::bytecode::proto_ok(crate::bytecode::proto_view(*proto)),
            proto.upvals@.len() == 0,
        ensures
            machine::wf(final(self)@),
            ({
                let p = crate::bytecode::proto_view(*proto);
                let m = machine::with_chunk(old(self)@, p);
                if old(self)@.top + p.n_regs <= STACK_MAX {
                    &&& r is Run
                    &&& machine::running(final(self)@)
                    &&& final(self)@ == machine::enter(
                        m,
                        old(self)@.funcs.len() as usize,
                        Seq::empty(),
                        Dest::Host,
                        false,
                    )
                } else {
                    &&& final(self)@ == m
                    &&& super::outcome_view(r) == machine::Out::Fail(
                        machine::plain("stack overflow"@),
                    )
                }
            }),
    {
        let ghost was = self@;
        let f: usize = self.funcs.len();
        let n: usize = proto.n_regs;
        let made = Function { proto, upvals: Vec::new(), hits: 0, state: JitState::Blocked };
        let ghost view = super::func_view(made);
        let ghost p = view.proto;
        assert(view =~= machine::chunk_func(p));
        self.funcs.push(made);
        assert(self@.funcs =~= was.funcs.push(view));
        assert(self@ =~= machine::with_chunk(was, p));
        proof {
            lemma_one_more(was, self@, view);
        }
        if n > STACK_MAX || self.top > STACK_MAX - n {
            let e = value::Error(text::owned("stack overflow"));
            assert(super::error_view(e) =~= machine::plain("stack overflow"@));
            return Outcome::Fail(e);
        }
        let args: Vec<Value> = Vec::new();
        assert(value::vals(args@) =~= Seq::<Val>::empty());
        self.enter(f, &args, Dest::Host, false);
        Outcome::Run
    }

    /// Start to call a value from outside. A builtin, compiled code and the step
    /// of a range are the host's own to run; it goes on with `call_declined` where
    /// compiled code could not take the call, and with `call_turned` where a range
    /// has stepped.
    pub fn call_value(&mut self, f: &Value, args: Vec<Value>) -> (r: Outcome)
        requires
            machine::wf(old(self)@),
        ensures
            machine::wf(final(self)@),
            (final(self)@, super::outcome_view(r)) == machine::call_in(
                old(self)@,
                f@,
                value::vals(args@),
            ),
            r is Run ==> machine::running(final(self)@),
    {
        let ghost was = self@;
        if self.depth >= MAX_DEPTH {
            return overflow();
        }
        match f {
            Value::Func(i) => {
                let i: usize = *i;
                if i < self.funcs.len() {
                    if !self.fits(i) {
                        return overflow();
                    }
                    let offered: bool = self.offers(f);
                    self.count(i);
                    proof {
                        super::calls::lemma_counted(was, i);
                    }
                    if offered {
                        return Outcome::Ask(Request::Compiled { func: i, args });
                    }
                    self.enter(i, &args, Dest::Host, true);
                    return Outcome::Run;
                }
            },
            Value::Native(id) => {
                return Outcome::Ask(Request::Native { id: *id, args });
            },
            Value::Iter(i) => {
                let i: usize = *i;
                if i < self.iters.len() {
                    let (pulled, asks, more) = self.pull(i);
                    match asks {
                        Some(at) => {
                            assert(self@ =~= was);
                            return Outcome::Ask(
                                Request::Compute { kind: BinKind::Add, x: at, y: ONE },
                            );
                        },
                        None => {
                            let mut vals: Vec<Value> = Vec::new();
                            vals.push(pulled);
                            assert(value::vals(vals@) =~= seq![pulled@]);
                            assert(self@ =~= machine::turn(was, i, Dest::Host).0);
                            return Outcome::Done(vals);
                        },
                    }
                }
            },
            _ => {},
        }
        no_call(f)
    }

    /// Go on with a call from outside that compiled code could not take.
    pub fn call_declined(&mut self, f: &Value, args: Vec<Value>) -> (r: Outcome)
        requires
            machine::wf(old(self)@),
        ensures
            machine::wf(final(self)@),
            (final(self)@, super::outcome_view(r)) == machine::call_declined(
                old(self)@,
                f@,
                value::vals(args@),
            ),
            r is Run ==> machine::running(final(self)@),
    {
        match f {
            Value::Func(i) => {
                let i: usize = *i;
                if i < self.funcs.len() && self.fits(i) {
                    self.enter(i, &args, Dest::Host, true);
                    return Outcome::Run;
                }
            },
            _ => {},
        }
        overflow()
    }

    /// Go on with a range that was called from outside and has come to `n`.
    pub fn call_turned(&mut self, f: &Value, n: u64) -> (r: Outcome)
        requires
            machine::wf(old(self)@),
        ensures
            machine::wf(final(self)@),
            (final(self)@, super::outcome_view(r)) == machine::call_turned(old(self)@, f@, n),
    {
        match f {
            Value::Iter(i) => {
                let i: usize = *i;
                if i < self.iters.len() {
                    return Outcome::Done(self.stepped_to(i, n));
                }
            },
            _ => {},
        }
        no_call(f)
    }

    /// Is there an instruction to run?
    pub fn is_running(&self) -> (r: bool)
        requires
            machine::wf(self@),
        ensures
            r == machine::running(self@),
    {
        self.frames.len() > 0 && match self.pending {
            Pending::Idle => true,
            _ => false,
        }
    }

    /// Does the machine wait for a reply?
    pub fn is_waiting(&self) -> (r: bool)
        requires
            machine::wf(self@),
        ensures
            r == (self@.frames.len() > 0 && !(self@.pending is Idle)),
    {
        self.frames.len() > 0 && match self.pending {
            Pending::Idle => false,
            _ => true,
        }
    }

    /// Run at most `n` instructions, up to the first that needs the host.
    pub fn run(&mut self, n: u64) -> (r: Outcome)
        requires
            machine::running(old(self)@),
        ensures
            (final(self)@, super::outcome_view(r)) == machine::steps(old(self)@, n as nat),
            machine::wf(final(self)@),
    {
        let mut left: u64 = n;
        while left > 0
            invariant
                machine::running(self@),
                machine::steps(self@, left as nat) == machine::steps(old(self)@, n as nat),
            decreases left,
        {
            left = left - 1;
            match self.step() {
                Outcome::Run => {
                    if !self.is_running() {
                        return Outcome::Run;
                    }
                },
                other => {
                    return other;
                },
            }
        }
        Outcome::Run
    }

    /// How a value is written, or the number whose text the host has to
    /// supply.
    pub fn show(&self, v: &Value) -> (r: Result<String, u64>)
        ensures
            match r {
                Ok(s) => machine::text_of(self@, v@) == machine::Need::Is(s@),
                Err(b) => machine::text_of(self@, v@) == machine::Need::<Seq<char>>::Ask(
                    machine::Req::Show { bits: b },
                ),
            },
    {
        match self.text_of(v) {
            super::ops::Needs::Is(s) => Ok(s),
            super::ops::Needs::Ask(q) => match q {
                Request::Show { bits } => Err(bits),
                _ => Err(0),
            },
            super::ops::Needs::Bad(_) => Err(0),
        }
    }
}

/// A change that leaves all code alone keeps the machine sound.
proof fn lemma_same_code(was: Mach, m: Mach)
    requires
        machine::wf(was),
        m == (Mach { funcs: m.funcs, ..was }),
        m.funcs.len() == was.funcs.len(),
        forall|i: int|
            0 <= i < m.funcs.len() ==> (#[trigger] m.funcs[i]).proto == was.funcs[i].proto
                && m.funcs[i].upvals == was.funcs[i].upvals,
    ensures
        machine::wf(m),
{
    assert forall|i: int| 0 <= i < m.funcs.len() implies machine::func_ok(
        #[trigger] m.funcs[i],
        m.cells.len(),
    ) by {
        assert(machine::func_ok(was.funcs[i], was.cells.len()));
    }
    assert forall|g: usize| g < was.funcs.len() implies machine::proto_at(m, g)
        == #[trigger] machine::proto_at(was, g) by {}
    assert forall|i: int| 1 <= i < m.frames.len() implies machine::frame_ok(
        m,
        #[trigger] m.frames[i],
    ) by {
        assert(machine::frame_ok(was, was.frames[i]));
    }
}

/// One more function keeps the machine sound.
proof fn lemma_one_more(was: Mach, m: Mach, f: machine::FuncView)
    requires
        machine::wf(was),
        m == (Mach { funcs: was.funcs.push(f), ..was }),
        machine::func_ok(f, was.cells.len()),
    ensures
        machine::wf(m),
{
    assert forall|g: usize| g < was.funcs.len() implies machine::proto_at(m, g)
        == #[trigger] machine::proto_at(was, g) by {}
    assert forall|i: int| 1 <= i < m.frames.len() implies machine::frame_ok(
        m,
        #[trigger] m.frames[i],
    ) by {
        assert(machine::frame_ok(was, was.frames[i]));
    }
    assert forall|i: int| 0 <= i < m.funcs.len() implies machine::func_ok(
        #[trigger] m.funcs[i],
        m.cells.len(),
    ) by {
        if i < was.funcs.len() {
            assert(machine::func_ok(was.funcs[i], was.cells.len()));
        }
    }
}

} // verus!
