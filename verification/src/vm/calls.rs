//! Calls: opening and closing frames, handing values over, and failing.
use super::{Iter, Outcome, Request, Vm};
use crate::bytecode::{BinKind, ParamSlot, Reg, MULTI};
use crate::machine;
use crate::machine::{Dest, Frame, Mach, Pending, MAX_DEPTH, ONE, STACK_MAX};
use crate::num;
use crate::text;
use crate::value;
use crate::value::{Error, JitState, Val, Value};
use vstd::prelude::*;

verus! {

/// Putting parameters in place touches only the new window, and only adds
/// cells.
proof fn lemma_bound(
    stack: Seq<Val>,
    cells: Seq<Val>,
    base: int,
    params: Seq<ParamSlot>,
    args: Seq<Val>,
    i: nat,
    n: nat,
)
    requires
        0 <= base,
        base + n <= stack.len(),
        forall|k: int| 0 <= k < params.len() ==> (#[trigger] params[k]).reg < n,
    ensures
        ({
            let (s, c) = machine::bound(stack, cells, base, params, args, i);
            &&& s.len() == stack.len()
            &&& c.len() >= cells.len()
            &&& forall|k: int|
                0 <= k < s.len() && !(base <= k < base + n) ==> #[trigger] s[k] == stack[k]
        }),
    decreases params.len() - i,
{
    if i < params.len() {
        let v = machine::nth(args, i as int);
        let at = base + params[i as int].reg;
        if params[i as int].cell {
            lemma_bound(
                stack.update(at, Val::Cell(cells.len() as usize)),
                cells.push(v),
                base,
                params,
                args,
                i + 1,
                n,
            );
        } else {
            lemma_bound(stack.update(at, v), cells, base, params, args, i + 1, n);
        }
    }
}

/// Going back to before a call keeps the machine sound.
proof fn lemma_leave(m: Mach, k: int)
    requires
        machine::wf(m),
        0 <= k < m.frames.len(),
    ensures
        machine::wf(machine::leave(m, k)),
{
    let r = machine::leave(m, k);
    assert(m.frames[k].top <= m.top);
    assert forall|i: int| r.top <= i < r.stack.len() implies (#[trigger] r.stack[i]) is Nil by {
        if i >= m.top {
            assert(m.stack[i] is Nil);
        }
    }
    if k >= 1 {
        assert(machine::frame_ok(m, m.frames[k]));
    }
    assert forall|i: int| 1 <= i < r.frames.len() implies machine::frame_ok(
        r,
        #[trigger] r.frames[i],
    ) by {
        assert(machine::frame_ok(m, m.frames[i]));
    }
    assert forall|i: int| 0 <= i < r.frames.len() implies (#[trigger] r.frames[i]).top <= r.top
        && r.frames[i].trace <= r.trace.len() by {
        assert(m.frames[i].top <= m.frames[k].top);
    }
}

/// A fresh frame keeps the machine sound.
proof fn lemma_enter(m: Mach, f: usize, args: Seq<Val>, dest: Dest, counts: bool)
    requires
        machine::wf(m),
        f < m.funcs.len(),
        m.frames.len() == 0 ==> dest is Host,
        !(dest is Host) ==> m.pending is Idle && machine::goes_on(machine::cur(m), m.pc)
            && machine::dest_ok(dest, machine::cur(m)),
        m.stack.len() <= usize::MAX,
        m.trace.len() <= usize::MAX,
        m.frames.len() > 0 ==> machine::cur(m).code.len() <= usize::MAX,
    ensures
        machine::running(machine::enter(m, f, args, dest, counts)),
{
    let r = machine::enter(m, f, args, dest, counts);
    let p = machine::proto_at(m, f);
    let end = m.top + p.n_regs;
    assert(machine::func_ok(m.funcs[f as int], m.cells.len()));
    lemma_bound(
        machine::grown(m.stack, end),
        m.cells,
        m.top,
        p.params,
        args,
        0,
        p.n_regs,
    );
    let last = r.frames.last();
    if m.frames.len() > 0 {
        assert(last.base == m.base && last.pc == m.pc && last.top == m.top);
        assert(machine::frame_ok(r, last));
    }
    assert forall|i: int| 1 <= i < r.frames.len() implies machine::frame_ok(
        r,
        #[trigger] r.frames[i],
    ) by {
        if i < m.frames.len() {
            assert(machine::frame_ok(m, m.frames[i]));
        }
    }
    assert forall|i: int, j: int| 0 <= i < j < r.frames.len() implies (
    #[trigger] r.frames[i]).top <= (#[trigger] r.frames[j]).top && r.frames[i].trace
        <= r.frames[j].trace by {
        if j < m.frames.len() {
            assert(m.frames[i].top <= m.frames[j].top);
        } else {
            assert(m.frames[i].top <= m.top);
        }
    }
    assert forall|i: int| 0 <= i < r.frames.len() implies (#[trigger] r.frames[i]).top <= r.top
        && r.frames[i].trace <= r.trace.len() by {
        if i < m.frames.len() {
            assert(m.frames[i].top <= m.top);
        }
    }
    assert forall|i: int| 0 <= i < r.funcs.len() implies machine::func_ok(
        #[trigger] r.funcs[i],
        r.cells.len(),
    ) by {
        assert(machine::func_ok(m.funcs[i], m.cells.len()));
    }
    assert forall|i: int| r.top <= i < r.stack.len() implies (#[trigger] r.stack[i]) is Nil by {
        let g = machine::grown(m.stack, end);
        assert(r.stack[i] == g[i]);
        if i < m.stack.len() {
            assert(m.stack[i] is Nil);
        }
    }
}

fn is_host(d: Dest) -> (r: bool)
    ensures
        r == (d is Host),
{
    match d {
        Dest::Host => true,
        _ => false,
    }
}

/// Put the parameters of a call in place.
fn bind(
    stack: &mut Vec<Value>,
    cells: &mut Vec<Value>,
    base: usize,
    params: &Vec<ParamSlot>,
    args: &Vec<Value>,
)
    requires
        base <= old(stack)@.len(),
        forall|k: int|
            0 <= k < params@.len() ==> base + (#[trigger] params@[k]).reg < old(stack)@.len(),
    ensures
        (value::vals(final(stack)@), value::vals(final(cells)@)) == machine::bound(
            value::vals(old(stack)@),
            value::vals(old(cells)@),
            base as int,
            params@,
            value::vals(args@),
            0,
        ),
{
    let mut i: usize = 0;
    while i < params.len()
        invariant
            i <= params@.len(),
            stack@.len() == old(stack)@.len(),
            forall|k: int|
                0 <= k < params@.len() ==> base + (#[trigger] params@[k]).reg < stack@.len(),
            machine::bound(
                value::vals(stack@),
                value::vals(cells@),
                base as int,
                params@,
                value::vals(args@),
                i as nat,
            ) == machine::bound(
                value::vals(old(stack)@),
                value::vals(old(cells)@),
                base as int,
                params@,
                value::vals(args@),
                0,
            ),
        decreases params@.len() - i,
    {
        let v = if i < args.len() {
            args[i].clone()
        } else {
            Value::Nil
        };
        assert(v@ == machine::nth(value::vals(args@), i as int));
        let have: usize = stack.len();
        assert(base + params@[i as int].reg < have);
        let at: usize = base + params[i].reg as usize;
        let ghost s = value::vals(stack@);
        let ghost c = value::vals(cells@);
        if params[i].cell {
            let cell: usize = cells.len();
            cells.push(v);
            stack.set(at, Value::Cell(cell));
            assert(value::vals(cells@) =~= c.push(v@));
            assert(value::vals(stack@) =~= s.update(at as int, Val::Cell(cell)));
        } else {
            stack.set(at, v);
            assert(value::vals(stack@) =~= s.update(at as int, v@));
        }
        i = i + 1;
    }
}

impl Vm {
    /// Copy `n` registers from `r` on.
    pub(super) fn window(&self, r: usize, n: usize) -> (out: Vec<Value>)
        requires
            machine::wf(self@),
            self@.frames.len() > 0,
            r + n <= machine::cur(self@).n_regs,
        ensures
            value::vals(out@) == machine::window(self@, r as int, n as nat),
    {
        let mut out: Vec<Value> = Vec::new();
        let have: usize = self.stack.len();
        let start: usize = self.base + r;
        let mut i: usize = 0;
        while i < n
            invariant
                i <= n,
                start + n <= self.stack@.len() == have,
                out@.len() == i,
                forall|k: int| 0 <= k < i ==> #[trigger] out@[k] == self.stack@[start + k],
            decreases n - i,
        {
            out.push(self.stack[start + i].clone());
            i = i + 1;
        }
        assert(value::vals(out@) =~= machine::window(self@, r as int, n as nat));
        out
    }

    /// Put values in `n` registers from `at` on.
    fn place(&mut self, at: usize, n: usize, vals: &Vec<Value>)
        requires
            machine::wf(old(self)@),
            old(self)@.frames.len() > 0,
            at + n <= machine::cur(old(self)@).n_regs,
        ensures
            final(self)@ == machine::results(old(self)@, at as int, n as int, value::vals(vals@)),
            machine::wf(final(self)@),
    {
        let ghost was = self@;
        let have: usize = self.stack.len();
        let start: usize = self.base + at;
        let mut i: usize = 0;
        while i < n
            invariant
                i <= n,
                start == was.base + at,
                start + n <= was.stack.len() == have,
                self.stack@.len() == have,
                self@ =~= machine::results(was, at as int, i as int, value::vals(vals@)),
            decreases n - i,
        {
            let v = if i < vals.len() {
                vals[i].clone()
            } else {
                Value::Nil
            };
            let ghost before = self.stack@;
            self.stack.set(start + i, v);
            assert(value::vals(self.stack@) =~= value::vals(before).update(start + i, v@));
            i = i + 1;
            assert(self@ =~= machine::results(was, at as int, i as int, value::vals(vals@)));
        }
        assert(self@ =~= machine::results(was, at as int, n as int, value::vals(vals@)));
        assert(machine::wf(self@)) by {
            lemma_window_write(was, self@, was.base + at, n as int);
        }
    }

    /// Give a run of registers back, and cut the calls under way.
    fn leave(&mut self, k: usize)
        requires
            machine::wf(old(self)@),
            k < old(self)@.frames.len(),
        ensures
            final(self)@ == machine::leave(old(self)@, k as int),
            machine::wf(final(self)@),
    {
        let ghost was = self@;
        proof {
            lemma_leave(was, k as int);
        }
        let f: Frame = self.frames[k];
        let mut i: usize = f.top;
        while i < self.top
            invariant
                f.top <= i <= self.top <= self.stack@.len(),
                self.top == was.top,
                self@ =~= (Mach {
                    stack: machine::cleared(was.stack, f.top as int, i as int),
                    ..was
                }),
            decreases self.top - i,
        {
            let ghost before = self.stack@;
            self.stack.set(i, Value::Nil);
            assert(value::vals(self.stack@) =~= value::vals(before).update(i as int, Val::Nil));
            i = i + 1;
            assert(self@ =~= (Mach {
                stack: machine::cleared(was.stack, f.top as int, i as int),
                ..was
            }));
        }
        self.frames.truncate(k);
        self.trace.truncate(f.trace);
        self.top = f.top;
        self.base = f.base;
        self.func = f.func;
        self.pc = f.pc;
        self.depth = f.depth;
        self.pending = f.pending;
        match f.dest {
            Dest::Host => {},
            _ => {
                self.line = f.line;
            },
        }
        self.reads = Vec::new();
        self.shows = Vec::new();
        self.declined = false;
        assert(self@ =~= machine::leave(was, k as int));
    }

    /// Stamp an error with where it happened, once.
    fn locate(&self, e: Error) -> (r: Error)
        requires
            machine::wf(self@),
            self@.frames.len() > 0,
        ensures
            super::error_view(r) == machine::located(self@, super::error_view(e)),
    {
        if e.located {
            return e;
        }
        let n: usize = self.trace.len();
        let where_ = if n > 0 && !self.trace[n - 1].0.as_str().is_empty() {
            Some(self.trace[n - 1].0.clone())
        } else {
            None
        };
        proof {
            super::lemma_goes_on(self@);
        }
        let line: u32 = self.funcs[self.func].proto.lines[self.pc];
        let mut trace: Vec<(String, u32)> = Vec::new();
        let mut i: usize = 0;
        while i < n
            invariant
                i <= n == self.trace@.len(),
                trace@.len() == i,
                forall|k: int|
                    0 <= k < i ==> (#[trigger] trace@[k]).0@ == self.trace@[k].0@ && trace@[k].1
                        == self.trace@[k].1,
            decreases n - i,
        {
            trace.push((self.trace[i].0.clone(), self.trace[i].1));
            i = i + 1;
        }
        let r = Error { message: e.message, line, located: true, where_, trace };
        assert(super::error_view(r) =~= machine::located(self@, super::error_view(e)));
        r
    }

    /// Fail: go back to the last call the host made.
    pub(super) fn throw(&mut self, e: Error) -> (r: Outcome)
        requires
            machine::wf(old(self)@),
            old(self)@.frames.len() > 0,
        ensures
            (final(self)@, super::outcome_view(r)) == machine::throw(
                old(self)@,
                super::error_view(e),
            ),
            machine::wf(final(self)@),
    {
        let e = self.locate(e);
        proof {
            machine::lemma_host_at(self@.frames);
        }
        let mut k: usize = self.frames.len() - 1;
        while !is_host(self.frames[k].dest)
            invariant
                *self == *old(self),
                machine::wf(self@),
                k < self.frames@.len(),
                machine::host_at(self@.frames) <= k,
                0 <= machine::host_at(self@.frames) < self.frames@.len(),
                self.frames@[machine::host_at(self@.frames)].dest is Host,
                self.frames@ == self@.frames,
                forall|i: int|
                    machine::host_at(self@.frames) < i < self.frames@.len() ==> !((
                    #[trigger] self.frames@[i]).dest is Host),
            decreases k,
        {
            k = k - 1;
        }
        self.leave(k);
        Outcome::Fail(e)
    }

    /// Fail with a message.
    pub(super) fn bad(&mut self, message: String) -> (r: Outcome)
        requires
            machine::wf(old(self)@),
            old(self)@.frames.len() > 0,
        ensures
            (final(self)@, super::outcome_view(r)) == machine::bad(old(self)@, message@),
            machine::wf(final(self)@),
    {
        let e = value::Error(message);
        assert(super::error_view(e) =~= machine::plain(message@));
        self.throw(e)
    }

    /// Hand values to where they belong.
    pub(super) fn deliver(&mut self, dest: Dest, vals: Vec<Value>) -> (r: Outcome)
        requires
            machine::wf(old(self)@),
            !(dest is Host) ==> machine::running(old(self)@) && machine::goes_on(
                machine::cur(old(self)@),
                old(self)@.pc,
            ) && machine::dest_ok(dest, machine::cur(old(self)@)),
        ensures
            (final(self)@, super::outcome_view(r)) == machine::deliver(
                old(self)@,
                dest,
                value::vals(vals@),
            ),
            machine::wf(final(self)@),
    {
        let ghost was = self@;
        match dest {
            Dest::Host => Outcome::Done(vals),
            Dest::Regs { base, nres, dst } => {
                if nres == MULTI {
                    let first = first_of(&vals);
                    self.put(base, first);
                    let ghost mid = self@;
                    self.multi = vals;
                    assert(self@ =~= (Mach { multi: value::vals(vals@), ..mid }));
                } else if nres != 0 {
                    self.place(dst as usize, nres as usize, &vals);
                }
                self.next();
                Outcome::Run
            },
            Dest::Iter { base, count, exit } => {
                if first_of(&vals).is_nil() {
                    self.go(exit as usize);
                } else {
                    self.place(base as usize, count as usize, &vals);
                    self.next();
                }
                Outcome::Run
            },
        }
    }

    /// Hand a value to where it belongs, a nil among a table's values too.
    fn give(&mut self, dest: Dest, v: Value) -> (r: Outcome)
        requires
            machine::running(old(self)@),
            !(dest is Host),
            machine::goes_on(machine::cur(old(self)@), old(self)@.pc),
            machine::dest_ok(dest, machine::cur(old(self)@)),
        ensures
            (final(self)@, super::outcome_view(r)) == machine::give(old(self)@, dest, v@),
            machine::wf(final(self)@),
    {
        let mut vals: Vec<Value> = Vec::new();
        vals.push(v);
        assert(value::vals(vals@) =~= seq![v@]);
        match dest {
            Dest::Iter { base, count, exit } => {
                self.place(base as usize, count as usize, &vals);
                self.next();
                Outcome::Run
            },
            _ => self.deliver(dest, vals),
        }
    }

    /// Begin to run a function.
    pub(super) fn enter(&mut self, f: usize, args: &Vec<Value>, dest: Dest, counts: bool)
        requires
            machine::wf(old(self)@),
            f < old(self)@.funcs.len(),
            old(self)@.top + machine::proto_at(old(self)@, f).n_regs <= STACK_MAX,
            counts ==> old(self)@.depth < MAX_DEPTH,
            old(self)@.frames.len() == 0 ==> dest is Host,
            !(dest is Host) ==> old(self)@.pending is Idle && machine::goes_on(
                machine::cur(old(self)@),
                old(self)@.pc,
            ) && machine::dest_ok(dest, machine::cur(old(self)@)),
        ensures
            final(self)@ == machine::enter(old(self)@, f, value::vals(args@), dest, counts),
            machine::running(final(self)@),
    {
        let ghost was = self@;
        let ghost p = machine::proto_at(was, f);
        let n_stack: usize = self.stack.len();
        let n_trace: usize = self.trace.len();
        if self.frames.len() > 0 {
            let n_code: usize = self.code_len();
        }
        proof {
            lemma_enter(was, f, value::vals(args@), dest, counts);
            assert(machine::func_ok(was.funcs[f as int], was.cells.len()));
        }
        let proto = self.funcs[f].proto.clone();
        assert(crate::bytecode::proto_view(*proto) == p);
        let frame = Frame {
            func: self.func,
            base: self.base,
            top: self.top,
            pc: self.pc,
            line: self.line,
            depth: self.depth,
            trace: self.trace.len(),
            dest,
            pending: self.pending,
        };
        self.frames.push(frame);
        let end: usize = self.top + proto.n_regs;
        self.grow(end);
        assert(value::vals(self.stack@) == machine::grown(was.stack, end as int));
        bind(&mut self.stack, &mut self.cells, self.top, &proto.params, args);
        if counts {
            self.trace.push((proto.name.clone(), self.line));
            self.depth = self.depth + 1;
        }
        self.base = self.top;
        self.top = end;
        self.func = f;
        self.pc = 0;
        self.pending = Pending::Idle;
        self.reads = Vec::new();
        self.shows = Vec::new();
        self.declined = false;
        assert(self@ =~= machine::enter(was, f, value::vals(args@), dest, counts));
    }

    /// Make the stack at least `n` registers long.
    fn grow(&mut self, n: usize)
        ensures
            final(self)@ == (Mach { stack: machine::grown(old(self)@.stack, n as int), ..old(self)@ }),
    {
        let ghost was = self@;
        while self.stack.len() < n
            invariant
                self@ =~= (Mach { stack: self@.stack, ..was }),
                self@.stack =~= was.stack + Seq::new(
                    (self@.stack.len() - was.stack.len()) as nat,
                    |i: int| Val::Nil,
                ),
                self.stack@.len() == self@.stack.len() >= was.stack.len(),
                self.stack@.len() <= n || self.stack@.len() == was.stack.len(),
            decreases n - self.stack@.len(),
        {
            let ghost before = self@.stack;
            self.stack.push(Value::Nil);
            assert(self@.stack =~= before.push(Val::Nil));
        }
        assert(self@ =~= (Mach { stack: machine::grown(was.stack, n as int), ..was }));
    }

    /// Count a call of a function.
    pub(super) fn count(&mut self, f: usize)
        requires
            machine::wf(old(self)@),
            f < old(self)@.funcs.len(),
        ensures
            final(self)@ == machine::counted(old(self)@, f),
            machine::wf(final(self)@),
    {
        let ghost was = self@;
        let hits: u32 = self.hit(f);
        let state: JitState = self.funcs[f].state;
        let state: JitState = if !self.jit && state == JitState::Cold && hits >= self.threshold {
            JitState::Blocked
        } else {
            state
        };
        self.funcs[f].hits = hits;
        self.funcs[f].state = state;
        assert(self@.funcs =~= machine::counted(was, f).funcs);
        assert(self@ =~= machine::counted(was, f));
        proof {
            lemma_counted(was, f);
        }
    }

    fn hit(&self, f: usize) -> (r: u32)
        requires
            f < self@.funcs.len(),
        ensures
            r == machine::hit(self@.funcs[f as int]),
    {
        let hits: u32 = self.funcs[f].hits;
        if hits == u32::MAX {
            hits
        } else {
            hits + 1
        }
    }

    /// Is there room for a call of this function?
    pub(super) fn fits(&self, f: usize) -> (r: bool)
        requires
            f < self@.funcs.len(),
            0 <= self@.top,
        ensures
            r == machine::fits(self@, f),
    {
        let n: usize = self.funcs[f].proto.n_regs;
        self.depth < MAX_DEPTH && n <= STACK_MAX && self.top <= STACK_MAX - n
    }

    /// Call a value.
    pub(super) fn call(&mut self, callee: Value, args: Vec<Value>, dest: Dest, deep: bool) -> (r:
        Outcome)
        requires
            machine::running(old(self)@),
            !(dest is Host),
            machine::goes_on(machine::cur(old(self)@), old(self)@.pc),
            machine::dest_ok(dest, machine::cur(old(self)@)),
        ensures
            (final(self)@, super::outcome_view(r)) == machine::call(
                old(self)@,
                callee@,
                value::vals(args@),
                dest,
                deep,
            ),
            machine::wf(final(self)@),
    {
        let ghost was = self@;
        match callee {
            Value::Func(f) if f < self.funcs.len() => {
                if !self.fits(f) {
                    return self.bad(text::owned("stack overflow"));
                }
                if !self.declined {
                    self.count(f);
                    proof {
                        lemma_counted(was, f);
                    }
                }
                self.enter(f, &args, dest, true);
                Outcome::Run
            },
            Value::Native(id) => {
                if deep && self.depth >= MAX_DEPTH {
                    return self.bad(text::owned("stack overflow"));
                }
                let depth: usize = self.depth;
                if deep {
                    self.depth = depth + 1;
                }
                self.pending = Pending::Values { dest, depth };
                assert(self@ =~= machine::call(was, callee@, value::vals(args@), dest, deep).0);
                proof {
                    lemma_same_places(was, self@);
                }
                Outcome::Ask(Request::Native { id, args })
            },
            Value::Iter(i) if i < self.iters.len() => {
                if deep && self.depth >= MAX_DEPTH {
                    return self.bad(text::owned("stack overflow"));
                }
                self.turn(i, dest)
            },
            _ => {
                if self.depth >= MAX_DEPTH {
                    self.bad(text::owned("stack overflow"))
                } else {
                    let message = a_value("cannot call a ", &callee, " value");
                    self.bad(message)
                }
            },
        }
    }

    /// Is compiled code to be offered this call?
    pub(super) fn offers(&self, callee: &Value) -> (r: bool)
        requires
            0 <= self@.top,
        ensures
            r == machine::offers(self@, callee@),
    {
        match callee {
            Value::Func(f) => {
                let f: usize = *f;
                if f >= self.funcs.len() {
                    return false;
                }
                let state: JitState = self.funcs[f].state;
                self.fits(f) && self.jit && !self.declined && (state == JitState::Compiled || (state
                    == JitState::Cold && self.hit(f) >= self.threshold))
            },
            _ => false,
        }
    }

    /// Offer a call to compiled code, or make it. A spread call takes what
    /// the last call produced, once it is made.
    pub(super) fn call_from(
        &mut self,
        callee: Value,
        args: Vec<Value>,
        dest: Dest,
        deep: bool,
        spread: bool,
    ) -> (r: Outcome)
        requires
            machine::running(old(self)@),
            !(dest is Host),
            machine::goes_on(machine::cur(old(self)@), old(self)@.pc),
            machine::dest_ok(dest, machine::cur(old(self)@)),
        ensures
            (final(self)@, super::outcome_view(r)) == machine::call_from(
                old(self)@,
                if spread {
                    (Mach { multi: Seq::empty(), ..old(self)@ })
                } else {
                    old(self)@
                },
                callee@,
                value::vals(args@),
                dest,
                deep,
            ),
            machine::wf(final(self)@),
    {
        let ghost was = self@;
        if self.offers(&callee) {
            match callee {
                Value::Func(f) => {
                    self.count(f);
                    proof {
                        lemma_counted(was, f);
                    }
                    let ghost mid = self@;
                    self.pending = Pending::Took { dest };
                    assert(self@ =~= machine::waits(mid, Pending::Took { dest }));
                    proof {
                        lemma_same_places(mid, self@);
                    }
                    return Outcome::Ask(Request::Compiled { func: f, args });
                },
                _ => {},
            }
        }
        if spread {
            self.multi = Vec::new();
            assert(self@ =~= (Mach { multi: Seq::empty(), ..was }));
            proof {
                lemma_same_places(was, self@);
            }
        }
        self.call(callee, args, dest, deep)
    }

    /// Take the next value from an iterator the machine made.
    fn turn(&mut self, i: usize, dest: Dest) -> (r: Outcome)
        requires
            machine::running(old(self)@),
            i < old(self)@.iters.len(),
            !(dest is Host),
            machine::goes_on(machine::cur(old(self)@), old(self)@.pc),
            machine::dest_ok(dest, machine::cur(old(self)@)),
        ensures
            (final(self)@, super::outcome_view(r)) == machine::turn(old(self)@, i, dest),
            machine::wf(final(self)@),
    {
        let ghost was = self@;
        let (pulled, asks, more) = self.pull(i);
        if more {
            return self.give(dest, pulled);
        }
        match asks {
            Some(at) => {
                self.pending = Pending::Turn { iter: i, dest };
                assert(self@ =~= machine::waits(was, Pending::Turn { iter: i, dest }));
                proof {
                    lemma_same_places(was, self@);
                }
                Outcome::Ask(Request::Compute { kind: BinKind::Add, x: at, y: ONE })
            },
            None => {
                let mut vals: Vec<Value> = Vec::new();
                vals.push(pulled);
                assert(value::vals(vals@) =~= seq![pulled@]);
                self.deliver(dest, vals)
            },
        }
    }

    /// The next value of an iterator, or the number it has to step from
    /// first, and whether it is a value of a table.
    pub(super) fn pull(&mut self, i: usize) -> (r: (Value, Option<u64>, bool))
        requires
            machine::wf(old(self)@),
            i < old(self)@.iters.len(),
        ensures
            machine::wf(final(self)@),
            final(self)@ == (Mach { iters: final(self)@.iters, ..old(self)@ }),
            final(self)@.iters.len() == old(self)@.iters.len(),
            match old(self)@.iters[i as int] {
                machine::IterView::Range { at, fresh, end, inclusive } => if fresh {
                    &&& !r.2
                    &&& r.1 is None
                    &&& r.0@ == machine::range_value(at, end, inclusive)
                    &&& final(self)@.iters == old(self)@.iters.update(
                        i as int,
                        machine::IterView::Range { at, fresh: false, end, inclusive },
                    )
                } else {
                    !r.2 && r.1 == Some(at) && final(self)@.iters == old(self)@.iters
                },
                machine::IterView::Values { table, keys, seen } => {
                    &&& r.1 is None
                    &&& r.2 == (0 <= seen < keys.len())
                    &&& if 0 <= seen < keys.len() {
                        &&& final(self)@.iters == old(self)@.iters.update(
                            i as int,
                            machine::IterView::Values { table, keys, seen: seen + 1 },
                        )
                        &&& r.0@ == if table < old(self)@.tables.len() {
                            crate::table::t_get(old(self)@.tables[table as int], keys[seen])
                        } else {
                            Val::Nil
                        }
                    } else {
                        r.0@ is Nil && final(self)@.iters == old(self)@.iters
                    }
                },
            },
    {
        let ghost was = self@;
        let mut it = Iter::Range { at: 0, fresh: false, end: 0, inclusive: false };
        std::mem::swap(&mut it, &mut self.iters[i]);
        let ghost kind = super::iter_view(it);
        assert(kind == was.iters[i as int]);
        let (next, value, asks, more) = match it {
            Iter::Range { at, fresh, end, inclusive } => {
                if fresh {
                    (
                        Iter::Range { at, fresh: false, end, inclusive },
                        range_value(at, end, inclusive),
                        None,
                        false,
                    )
                } else {
                    (Iter::Range { at, fresh, end, inclusive }, Value::Nil, Some(at), false)
                }
            },
            Iter::Values { table, keys, seen } => {
                if seen < keys.len() {
                    let v = if table < self.tables.len() {
                        self.tables[table].get(&keys[seen])
                    } else {
                        Value::Nil
                    };
                    (Iter::Values { table, keys, seen: seen + 1 }, v, None, true)
                } else {
                    (Iter::Values { table, keys, seen }, Value::Nil, None, false)
                }
            },
        };
        let ghost now = super::iter_view(next);
        self.iters.set(i, next);
        assert(self@.iters =~= was.iters.update(i as int, now));
        assert(self@ =~= (Mach { iters: self@.iters, ..was }));
        assert(was.iters.update(i as int, kind) =~= was.iters);
        proof {
            lemma_same_places(was, self@);
        }
        (value, asks, more)
    }

    /// A range has moved on to `n`.
    pub(super) fn turned(&mut self, i: usize, n: u64, dest: Dest) -> (r: Outcome)
        requires
            machine::running(old(self)@),
            i < old(self)@.iters.len(),
            !(dest is Host),
            machine::goes_on(machine::cur(old(self)@), old(self)@.pc),
            machine::dest_ok(dest, machine::cur(old(self)@)),
        ensures
            (final(self)@, super::outcome_view(r)) == machine::turned(old(self)@, i, n, dest),
            machine::wf(final(self)@),
    {
        let vals = self.stepped_to(i, n);
        self.deliver(dest, vals)
    }

    /// A range has moved on: what it gives.
    pub(super) fn stepped_to(&mut self, i: usize, n: u64) -> (r: Vec<Value>)
        requires
            machine::wf(old(self)@),
            i < old(self)@.iters.len(),
        ensures
            machine::wf(final(self)@),
            (final(self)@, machine::Out::Done(value::vals(r@))) == machine::turned(
                old(self)@,
                i,
                n,
                Dest::Host,
            ),
            final(self)@ == (Mach { iters: final(self)@.iters, ..old(self)@ }),
            final(self)@.iters.len() == old(self)@.iters.len(),
    {
        let ghost was = self@;
        let mut vals: Vec<Value> = Vec::new();
        let v = match &self.iters[i] {
            Iter::Range { at, fresh, end, inclusive } => {
                let end: u64 = *end;
                let inclusive: bool = *inclusive;
                self.iters.set(i, Iter::Range { at: n, fresh: false, end, inclusive });
                assert(self@.iters =~= was.iters.update(
                    i as int,
                    machine::IterView::Range { at: n, fresh: false, end, inclusive },
                ));
                range_value(n, end, inclusive)
            },
            _ => Value::Nil,
        };
        assert(self@ =~= (Mach { iters: self@.iters, ..was }));
        vals.push(v);
        assert(value::vals(vals@) =~= seq![v@]);
        proof {
            lemma_same_places(was, self@);
        }
        vals
    }

    /// Return from the running function.
    pub(super) fn ret(&mut self, base: Reg, n: u16) -> (r: Outcome)
        requires
            machine::running(old(self)@),
            n == MULTI || base + n <= machine::cur(old(self)@).n_regs,
        ensures
            (final(self)@, super::outcome_view(r)) == machine::ret(old(self)@, base, n),
            machine::wf(final(self)@),
    {
        let ghost was = self@;
        let k: usize = self.frames.len() - 1;
        let dest: Dest = self.frames[k].dest;
        let vals: Vec<Value> = if n == MULTI {
            let mut vals: Vec<Value> = Vec::new();
            std::mem::swap(&mut vals, &mut self.multi);
            assert(self@ =~= (Mach { multi: Seq::empty(), ..was }));
            proof {
                lemma_same_places(was, self@);
            }
            vals
        } else {
            self.window(base as usize, n as usize)
        };
        if k > 0 {
            assert(machine::frame_ok(self@, self@.frames[k as int]));
        }
        self.leave(k);
        self.deliver(dest, vals)
    }
}

/// The first of some values, or nil.
fn first_of(vals: &Vec<Value>) -> (r: Value)
    ensures
        r@ == machine::nth(value::vals(vals@), 0),
{
    if vals.len() > 0 {
        vals[0].clone()
    } else {
        Value::Nil
    }
}

/// The value of a range that stands at `at`.
fn range_value(at: u64, end: u64, inclusive: bool) -> (r: Value)
    ensures
        r@ == machine::range_value(at, end, inclusive),
{
    let done: bool = if inclusive {
        num::num_lt(end, at)
    } else {
        num::num_le(end, at)
    };
    if done {
        Value::Nil
    } else {
        Value::Num(at)
    }
}

/// A message about a value's type.
pub(super) fn a_value(prefix: &str, v: &Value, suffix: &str) -> (r: String)
    ensures
        r@ == machine::a_value(prefix@, v@, suffix@),
{
    let mut out = text::owned(prefix);
    out.append(v.type_label());
    out.append(suffix);
    out
}

/// Counting a call changes no code.
pub(super) proof fn lemma_counted(m: Mach, f: usize)
    requires
        machine::wf(m),
        f < m.funcs.len(),
    ensures
        machine::wf(machine::counted(m, f)),
        machine::running(m) ==> machine::running(machine::counted(m, f)),
        forall|g: usize|
            g < m.funcs.len() ==> machine::proto_at(machine::counted(m, f), g)
                == #[trigger] machine::proto_at(m, g),
{
    let r = machine::counted(m, f);
    assert forall|i: int| 0 <= i < r.funcs.len() implies machine::func_ok(
        #[trigger] r.funcs[i],
        r.cells.len(),
    ) by {
        assert(machine::func_ok(m.funcs[i], m.cells.len()));
    }
    assert forall|i: int| 1 <= i < r.frames.len() implies machine::frame_ok(
        r,
        #[trigger] r.frames[i],
    ) by {
        assert(machine::frame_ok(m, m.frames[i]));
    }
}

/// What changes no code, no registers and no calls keeps the machine sound.
pub(super) proof fn lemma_same_places(was: Mach, m: Mach)
    requires
        machine::wf(was),
        m.stack == was.stack,
        m.top == was.top,
        0 <= m.depth,
        m.frames == was.frames,
        m.trace == was.trace,
        m.func == was.func,
        m.base == was.base,
        m.funcs == was.funcs,
        m.cells.len() >= was.cells.len(),
        m.iters.len() >= was.iters.len(),
        forall|i: int| 0 <= i < m.tables.len() ==> crate::table::t_wf(#[trigger] m.tables[i]),
        m.frames.len() > 0 ==> machine::place_ok(m, m.func, m.base, m.top, m.pc, m.pending),
        m.frames.len() == 0 ==> m.pending is Idle,
    ensures
        machine::wf(m),
{
    assert forall|i: int| 1 <= i < m.frames.len() implies machine::frame_ok(
        m,
        #[trigger] m.frames[i],
    ) by {
        assert(machine::frame_ok(was, was.frames[i]));
    }
    assert forall|i: int| 0 <= i < m.funcs.len() implies machine::func_ok(
        #[trigger] m.funcs[i],
        m.cells.len(),
    ) by {
        assert(machine::func_ok(was.funcs[i], was.cells.len()));
    }
}

/// Writing into a call's own registers keeps the machine sound.
pub(super) proof fn lemma_window_write(was: Mach, m: Mach, from: int, n: int)
    requires
        machine::wf(was),
        m == (Mach { stack: m.stack, ..was }),
        m.stack.len() == was.stack.len(),
        from + n <= was.top,
        forall|i: int|
            0 <= i < m.stack.len() && !(from <= i < from + n) ==> #[trigger] m.stack[i]
                == was.stack[i],
    ensures
        machine::wf(m),
{
    assert forall|i: int| m.top <= i < m.stack.len() implies (#[trigger] m.stack[i]) is Nil by {
        assert(was.stack[i] is Nil);
    }
    assert forall|i: int| 1 <= i < m.frames.len() implies machine::frame_ok(
        m,
        #[trigger] m.frames[i],
    ) by {
        assert(machine::frame_ok(was, was.frames[i]));
    }
}

} // verus!
