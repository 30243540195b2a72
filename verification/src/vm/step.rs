//! One instruction at a time.
use super::calls::a_value;
use super::ops::Needs;
use super::{Event, Function, Iter, Outcome, Request, Vm};
use crate::ast::UpvalSrc;
use crate::bytecode::{BinKind, Op, Proto, Reg, NO_METHOD};
use crate::machine;
use crate::machine::{Dest, Mach, Pending, HOT, LOOP_BATCH, ONE};
use crate::num;
use crate::table;
use crate::table::Table;
use crate::text;
use crate::value;
use crate::value::{JitState, Key, RStr, Val, Value};
use std::rc::Rc;
use vstd::prelude::*;

verus! {

broadcast use vstd::std_specs::hash::group_hash_axioms;

/// What a table of the heap becomes may be any sound table.
proof fn lemma_table_set(was: Mach, m: Mach, t: int, to: crate::table::TableView)
    requires
        machine::wf(was),
        0 <= t < was.tables.len(),
        table::t_wf(to),
        m == (Mach { tables: was.tables.update(t, to), ..was }),
    ensures
        machine::wf(m),
{
    assert forall|i: int| 0 <= i < m.tables.len() implies table::t_wf(#[trigger] m.tables[i]) by {
        assert(table::t_wf(was.tables[i]));
    }
    super::calls::lemma_same_places(was, m);
}

impl Vm {
    /// The place of a global.
    pub(super) fn find_global(&self, name: &str) -> (r: usize)
        ensures
            r == machine::global_at(self@.globals, name@, 0),
    {
        let mut i: usize = 0;
        while i < self.globals.len()
            invariant
                i <= self.globals@.len(),
                machine::global_at(self@.globals, name@, i as nat) == machine::global_at(
                    self@.globals,
                    name@,
                    0,
                ),
            decreases self.globals@.len() - i,
        {
            if text::same(self.globals[i].0.as_str(), name) {
                return i;
            }
            i = i + 1;
        }
        i
    }

    /// The place of a global, which is made if it was never met.
    pub(super) fn make_global(&mut self, name: &str) -> (r: usize)
        requires
            machine::wf(old(self)@),
        ensures
            r == machine::global_at(old(self)@.globals, name@, 0),
            r < final(self)@.globals.len(),
            final(self)@ == (Mach {
                globals: machine::with_global(old(self)@.globals, name@),
                ..old(self)@
            }),
            final(self)@.globals[r as int].1 == machine::global_value(old(self)@.globals, name@),
            machine::wf(final(self)@),
    {
        let ghost was = self@;
        let i: usize = self.find_global(name);
        proof {
            lemma_global_at(was.globals, name@, 0);
        }
        if i == self.globals.len() {
            self.globals.push((text::owned(name), Value::Nil));
            assert(self@.globals =~= was.globals.push((name@, Val::Nil)));
        }
        assert(self@ =~= (Mach { globals: machine::with_global(was.globals, name@), ..was }));
        proof {
            super::calls::lemma_same_places(was, self@);
        }
        i
    }

    /// Store a global.
    pub(super) fn store_global(&mut self, name: &str, v: Value)
        requires
            machine::wf(old(self)@),
        ensures
            final(self)@ == (Mach {
                globals: machine::global_stored(old(self)@.globals, name@, v@),
                ..old(self)@
            }),
            machine::wf(final(self)@),
    {
        let ghost was = self@;
        let ghost x = v@;
        let i: usize = self.make_global(name);
        let ghost mid = self@;
        let name_there = self.globals[i].0.clone();
        proof {
            lemma_global_at(was.globals, name@, 0);
            assert(mid.globals[i as int].0 == name@);
        }
        self.globals.set(i, (name_there, v));
        assert(self@.globals =~= mid.globals.update(i as int, (name@, x)));
        assert(self@ =~= (Mach {
            globals: machine::global_stored(was.globals, name@, x),
            ..was
        }));
        proof {
            super::calls::lemma_same_places(mid, self@);
        }
    }

    fn global_name(&self, g: u16) -> (r: String)
        requires
            machine::wf(self@),
            self@.frames.len() > 0,
            g < machine::cur(self@).globals.len(),
        ensures
            r@ == machine::global_name(self@, g),
    {
        self.funcs[self.func].proto.globals[g as usize].name.clone()
    }

    fn op_get_global(&mut self, dst: Reg, g: u16) -> (r: Outcome)
        requires
            machine::running(old(self)@),
            machine::goes_on(machine::cur(old(self)@), old(self)@.pc),
            dst < machine::cur(old(self)@).n_regs,
            g < machine::cur(old(self)@).globals.len(),
        ensures
            (final(self)@, super::outcome_view(r)) == machine::get_global(
                old(self)@,
                dst,
                machine::global_name(old(self)@, g),
            ),
            machine::wf(final(self)@),
    {
        let name = self.global_name(g);
        let i: usize = self.make_global(name.as_str());
        let v = self.globals[i].1.clone();
        self.put(dst, v);
        self.next();
        Outcome::Run
    }

    fn op_set_global(&mut self, g: u16, src: Reg) -> (r: Outcome)
        requires
            machine::running(old(self)@),
            machine::goes_on(machine::cur(old(self)@), old(self)@.pc),
            src < machine::cur(old(self)@).n_regs,
            g < machine::cur(old(self)@).globals.len(),
        ensures
            (final(self)@, super::outcome_view(r)) == machine::set_global(
                old(self)@,
                machine::global_name(old(self)@, g),
                machine::reg(old(self)@, src),
            ),
            machine::wf(final(self)@),
    {
        let ghost was = self@;
        let name = self.global_name(g);
        let v = self.get(src);
        let had = self.get_global(name.as_str());
        let kept: bool = match (&v, &had) {
            (Value::Func(a), Value::Func(b)) => *a == *b,
            _ => false,
        };
        self.store_global(name.as_str(), v);
        self.next();
        if !kept {
            let ghost mid = self@;
            self.pending = Pending::Seen;
            assert(self@ =~= machine::waits(mid, Pending::Seen));
            proof {
                super::calls::lemma_same_places(mid, self@);
            }
            Outcome::Ask(Request::Stale { name })
        } else {
            Outcome::Run
        }
    }

    /// What a global holds; one that was never met is nil.
    pub fn get_global(&self, name: &str) -> (r: Value)
        ensures
            r@ == machine::global_value(self@.globals, name@),
    {
        let i: usize = self.find_global(name);
        if i < self.globals.len() {
            self.globals[i].1.clone()
        } else {
            Value::Nil
        }
    }

    /// The cell of a captured variable of the running function.
    fn upval(&self, idx: u16) -> (r: usize)
        requires
            machine::wf(self@),
            self@.frames.len() > 0,
            idx < machine::cur(self@).upvals.len(),
        ensures
            r == machine::upval_cell(self@, idx),
            r < self@.cells.len(),
    {
        assert(machine::func_ok(self@.funcs[self.func as int], self@.cells.len()));
        self.funcs[self.func].upvals[idx as usize]
    }

    fn set_cell_at(&mut self, c: usize, v: Value)
        requires
            machine::running(old(self)@),
            c < old(self)@.cells.len(),
        ensures
            final(self)@ == (Mach {
                cells: old(self)@.cells.update(c as int, v@),
                ..old(self)@
            }),
            machine::running(final(self)@),
    {
        let ghost was = self@;
        let ghost x = v@;
        self.cells.set(c, v);
        assert(self@ =~= (Mach { cells: was.cells.update(c as int, x), ..was }));
        proof {
            super::calls::lemma_same_places(was, self@);
        }
    }

    fn fresh_cell(&mut self, slot: Reg, v: Value)
        requires
            machine::running(old(self)@),
            slot < machine::cur(old(self)@).n_regs,
        ensures
            final(self)@ == machine::fresh_cell(old(self)@, slot, v@),
            machine::running(final(self)@),
    {
        let ghost was = self@;
        let ghost x = v@;
        let c: usize = self.cells.len();
        self.put(slot, Value::Cell(c));
        let ghost mid = self@;
        self.cells.push(v);
        assert(self@ =~= (Mach { cells: mid.cells.push(x), ..mid }));
        proof {
            super::calls::lemma_same_places(mid, self@);
        }
    }

    fn cell_value(&self, v: Value) -> (r: Value)
        ensures
            r@ == machine::cell_value(self@, v@),
    {
        match v {
            Value::Cell(c) if c < self.cells.len() => self.cells[c].clone(),
            other => other,
        }
    }

    fn set_cell(&mut self, slot: Reg, v: Value)
        requires
            machine::running(old(self)@),
            slot < machine::cur(old(self)@).n_regs,
        ensures
            final(self)@ == machine::set_cell(old(self)@, slot, v@),
            machine::running(final(self)@),
    {
        match self.get(slot) {
            Value::Cell(c) if c < self.cells.len() => self.set_cell_at(c, v),
            _ => self.fresh_cell(slot, v),
        }
    }

    /// `o[k] = v`.
    fn set_index(&mut self, o: Value, k: Value, v: Value) -> (r: Outcome)
        requires
            machine::running(old(self)@),
            machine::goes_on(machine::cur(old(self)@), old(self)@.pc),
        ensures
            (final(self)@, super::outcome_view(r)) == machine::set_index(old(self)@, o@, k@, v@),
            machine::wf(final(self)@),
    {
        let ghost was = self@;
        let ghost x = v@;
        match o {
            Value::Table(t) if t < self.tables.len() => match Key::from_value(&k) {
                Err(e) => self.bad(e.message),
                Ok(key) => {
                    assert(table::t_wf(was.tables[t as int]));
                    if !self.tables[t].has_room() {
                        return self.bad(text::owned("table overflow"));
                    }
                    let ghost to = table::t_set(was.tables[t as int], key@, x);
                    self.tables[t].set(key, v);
                    assert(self@.tables =~= was.tables.update(t as int, to));
                    assert(self@ =~= (Mach { tables: was.tables.update(t as int, to), ..was }));
                    proof {
                        lemma_table_set(was, self@, t as int, to);
                    }
                    self.next();
                    Outcome::Run
                },
            },
            _ => {
                let message = a_value("cannot index a ", &o, " value");
                self.bad(message)
            },
        }
    }

    fn get_index(&mut self, dst: Reg, o: Value, k: Value) -> (r: Outcome)
        requires
            machine::running(old(self)@),
            machine::goes_on(machine::cur(old(self)@), old(self)@.pc),
            dst < machine::cur(old(self)@).n_regs,
        ensures
            (final(self)@, super::outcome_view(r)) == machine::get_index(old(self)@, dst, o@, k@),
            machine::wf(final(self)@),
    {
        match self.index(&o, &k) {
            Ok(v) => {
                self.put(dst, v);
                self.next();
                Outcome::Run
            },
            Err(e) => self.bad(e),
        }
    }

    /// Append values to a table; anything else is left alone.
    fn append(&mut self, o: Value, vals: Vec<Value>) -> (r: Outcome)
        requires
            machine::running(old(self)@),
            machine::goes_on(machine::cur(old(self)@), old(self)@.pc),
        ensures
            (final(self)@, super::outcome_view(r)) == machine::append(
                old(self)@,
                o@,
                value::vals(vals@),
            ),
            machine::wf(final(self)@),
    {
        let ghost was = self@;
        match o {
            Value::Table(t) if t < self.tables.len() => {
                assert(table::t_wf(was.tables[t as int]));
                if !self.tables[t].has_room_for(vals.len()) {
                    return self.bad(text::owned("table overflow"));
                }
                let ghost to = table::t_appends(was.tables[t as int], value::vals(vals@));
                self.tables[t].push_all(&vals);
                assert(self@.tables =~= was.tables.update(t as int, to));
                assert(self@ =~= (Mach { tables: was.tables.update(t as int, to), ..was }));
                proof {
                    lemma_table_set(was, self@, t as int, to);
                }
                self.next();
                Outcome::Run
            },
            _ => {
                self.next();
                Outcome::Run
            },
        }
    }

    /// Build a closure over the current frame.
    fn make_closure(&mut self, dst: Reg, proto: Rc<Proto>)
        requires
            machine::running(old(self)@),
            dst < machine::cur(old(self)@).n_regs,
            crate::bytecode::proto_ok(crate::bytecode::proto_view(*proto)),
            crate::bytecode::captures_ok(
                proto.upvals@,
                machine::cur(old(self)@).n_regs,
                machine::cur(old(self)@).upvals.len(),
            ),
        ensures
            final(self)@ == machine::closure(
                old(self)@,
                dst,
                crate::bytecode::proto_view(*proto),
            ),
            machine::running(final(self)@),
    {
        let ghost was = self@;
        let mut found: Vec<usize> = Vec::new();
        let n: usize = proto.upvals.len();
        let n_cells: usize = self.cells.len();
        assert(machine::func_ok(was.funcs[was.func as int], was.cells.len()));
        let mut i: usize = 0;
        while i < n
            invariant
                i <= n == proto.upvals@.len(),
                n_cells == was.cells.len(),
                machine::running(was),
                machine::func_ok(was.funcs[was.func as int], was.cells.len()),
                crate::bytecode::captures_ok(
                    proto.upvals@,
                    machine::cur(was).n_regs,
                    machine::cur(was).upvals.len(),
                ),
                self@ =~= (Mach { cells: self@.cells, ..was }),
                self@.cells.len() >= was.cells.len(),
                forall|j: int|
                    0 <= j < was.cells.len() ==> #[trigger] self@.cells[j] == was.cells[j],
                found@.len() == i,
                forall|j: int| 0 <= j < i ==> (#[trigger] found@[j]) < self@.cells.len(),
                machine::captured(was, proto.upvals@, i as nat, self@.cells, found@)
                    == machine::captured(was, proto.upvals@, 0, was.cells, Seq::empty()),
            decreases n - i,
        {
            let ghost cells = self@.cells;
            let ghost had = found@;
            let src: UpvalSrc = proto.upvals[i];
            match src {
                UpvalSrc::ParentLocal(slot) => {
                    assert(slot < machine::cur(was).n_regs);
                    let v = self.stack[self.base + slot as usize].clone();
                    assert(v@ == machine::reg(was, slot));
                    match v {
                        Value::Cell(c) if c < n_cells => {
                            found.push(c);
                        },
                        other => {
                            let c: usize = self.cells.len();
                            self.cells.push(other);
                            assert(self@.cells =~= cells.push(other@));
                            found.push(c);
                        },
                    }
                },
                UpvalSrc::ParentUpval(u) => {
                    let c: usize = self.funcs[self.func].upvals[u as usize];
                    found.push(c);
                },
            }
            i = i + 1;
        }
        let ghost cells = self@.cells;
        let ghost upvals = found@;
        let f: usize = self.funcs.len();
        assert(self@ =~= (Mach { cells, ..was }));
        proof {
            super::calls::lemma_same_places(was, self@);
        }
        self.put(dst, Value::Func(f));
        let ghost mid = self@;
        let made = Function { proto, upvals: found, hits: 0, state: JitState::Cold };
        let ghost view = super::func_view(made);
        self.funcs.push(made);
        assert(self@.funcs =~= mid.funcs.push(view));
        assert(self@ =~= (Mach { funcs: mid.funcs.push(view), ..mid }));
        assert(self@ =~= machine::closure(was, dst, crate::bytecode::proto_view(*proto)));
        proof {
            lemma_more_funcs(mid, self@, view);
        }
    }

    /// `a..b`.
    fn make_range(&mut self, dst: Reg, a: Value, b: Value, inclusive: bool) -> (r: Outcome)
        requires
            machine::running(old(self)@),
            machine::goes_on(machine::cur(old(self)@), old(self)@.pc),
            dst < machine::cur(old(self)@).n_regs,
        ensures
            (final(self)@, super::outcome_view(r)) == machine::range(
                old(self)@,
                dst,
                a@,
                b@,
                inclusive,
            ),
            machine::wf(final(self)@),
    {
        match self.num_of(&a) {
            Needs::Is(at) => match self.num_of(&b) {
                Needs::Is(end) => {
                    self.make_iter(dst, Iter::Range { at, fresh: true, end, inclusive });
                    self.next();
                    Outcome::Run
                },
                Needs::Ask(q) => self.ask(q, Pending::Note),
                Needs::Bad(e) => self.bad(e),
            },
            Needs::Ask(q) => self.ask(q, Pending::Note),
            Needs::Bad(e) => self.bad(e),
        }
    }

    fn make_iter(&mut self, dst: Reg, it: Iter)
        requires
            machine::running(old(self)@),
            dst < machine::cur(old(self)@).n_regs,
        ensures
            final(self)@ == (Mach {
                iters: old(self)@.iters.push(super::iter_view(it)),
                ..machine::put(old(self)@, dst, Val::Iter(old(self)@.iters.len() as usize))
            }),
            machine::running(final(self)@),
    {
        let i: usize = self.iters.len();
        let ghost view = super::iter_view(it);
        self.put(dst, Value::Iter(i));
        let ghost mid = self@;
        self.iters.push(it);
        assert(self@.iters =~= mid.iters.push(view));
        assert(self@ =~= (Mach { iters: mid.iters.push(view), ..mid }));
        proof {
            super::calls::lemma_same_places(mid, self@);
        }
    }

    /// Something a loop can pull from.
    fn iter_init(&mut self, dst: Reg, v: Value)
        requires
            machine::running(old(self)@),
            dst < machine::cur(old(self)@).n_regs,
        ensures
            final(self)@ == machine::iter_init(old(self)@, dst, v@),
            machine::running(final(self)@),
    {
        match v {
            Value::Table(t) if t < self.tables.len() => {
                let keys = self.tables[t].keys();
                assert(super::key_views(keys@) =~= table::t_keys(self@.tables[t as int]));
                self.make_iter(dst, Iter::Values { table: t, keys, seen: 0 });
            },
            other => self.put(dst, other),
        }
    }

    /// A back edge: count the iteration, and every so often ask whether
    /// compiled code takes the loop over.
    fn tick(&mut self, id: u32, to: u32, exit: usize) -> (r: Outcome)
        requires
            machine::running(old(self)@),
            machine::goes_on(machine::cur(old(self)@), old(self)@.pc),
            to < machine::cur(old(self)@).code.len(),
            exit < machine::cur(old(self)@).code.len(),
        ensures
            (final(self)@, super::outcome_view(r)) == machine::tick(
                old(self)@,
                id,
                to,
                exit as int,
            ),
            machine::wf(final(self)@),
    {
        let ghost was = self@;
        let seen: u32 = match self.ticks.get(&id) {
            Some(n) => *n,
            None => 0,
        };
        let n: u32 = if seen == HOT {
            HOT
        } else if seen == HOT - 1 {
            0
        } else {
            seen + 1
        };
        self.ticks.insert(id, n);
        assert(self@ =~= (Mach { ticks: was.ticks.insert(id, n), ..was }));
        proof {
            super::calls::lemma_same_places(was, self@);
        }
        if (n == HOT || n % LOOP_BATCH == 0) && self.jit {
            let ghost mid = self@;
            self.pending = Pending::Hot { which: id, to, exit };
            assert(self@ =~= machine::waits(mid, Pending::Hot { which: id, to, exit }));
            proof {
                super::calls::lemma_same_places(mid, self@);
            }
            Outcome::Ask(Request::Hot { which: id })
        } else {
            self.go(to as usize);
            Outcome::Run
        }
    }

    /// A counted loop has stepped: go round again, or fall through.
    fn stepped(&mut self, v: Value, counter: Reg, limit: Reg, to: u32, id: u32, le: bool) -> (r:
        Outcome)
        requires
            machine::running(old(self)@),
            machine::goes_on(machine::cur(old(self)@), old(self)@.pc),
            counter < machine::cur(old(self)@).n_regs,
            limit < machine::cur(old(self)@).n_regs,
            to < machine::cur(old(self)@).code.len(),
        ensures
            (final(self)@, super::outcome_view(r)) == machine::stepped(
                old(self)@,
                v@,
                counter,
                limit,
                to,
                id,
                le,
            ),
            machine::wf(final(self)@),
    {
        let ghost was = self@;
        let before = self.get(counter);
        self.put(counter, v.clone());
        let kind: BinKind = if le {
            BinKind::Le
        } else {
            BinKind::Lt
        };
        let last = self.get(limit);
        match self.binary(kind, &v, &last) {
            Needs::Is(x) => {
                if x.truthy() {
                    proof {
                        super::lemma_goes_on(self@);
                    }
                    let n: usize = self.code_len();
                    let exit: usize = self.pc + 1;
                    self.tick(id, to, exit)
                } else {
                    self.next();
                    Outcome::Run
                }
            },
            Needs::Ask(q) => {
                self.put(counter, before);
                assert(self@.stack =~= was.stack);
                assert(self@ =~= was);
                self.ask(q, Pending::Note)
            },
            Needs::Bad(e) => {
                self.put(counter, before);
                assert(self@.stack =~= was.stack);
                assert(self@ =~= was);
                self.bad(e)
            },
        }
    }

    fn for_loop(&mut self, counter: Reg, limit: Reg, to: u32, id: u32, le: bool) -> (r: Outcome)
        requires
            machine::running(old(self)@),
            machine::goes_on(machine::cur(old(self)@), old(self)@.pc),
            counter < machine::cur(old(self)@).n_regs,
            limit < machine::cur(old(self)@).n_regs,
            to < machine::cur(old(self)@).code.len(),
        ensures
            (final(self)@, super::outcome_view(r)) == machine::for_loop(
                old(self)@,
                counter,
                limit,
                to,
                id,
                le,
            ),
            machine::wf(final(self)@),
    {
        let at = self.get(counter);
        match self.binary(BinKind::Add, &at, &Value::Num(ONE)) {
            Needs::Is(v) => self.stepped(v, counter, limit, to, id, le),
            Needs::Ask(q) => self.ask(q, Pending::Step { counter, limit, to, id, le }),
            Needs::Bad(e) => self.bad(e),
        }
    }

    /// Remember the line of a call.
    fn at_line(&mut self)
        requires
            machine::running(old(self)@),
        ensures
            final(self)@ == machine::at_line(old(self)@),
            machine::running(final(self)@),
    {
        let ghost was = self@;
        proof {
            super::lemma_goes_on(was);
        }
        let line: u32 = self.funcs[self.func].proto.lines[self.pc];
        self.line = line;
        assert(self@ =~= machine::at_line(was));
        proof {
            super::calls::lemma_same_places(was, self@);
        }
    }

    fn call_op(&mut self, callee: Value, args: Vec<Value>, dest: Dest) -> (r: Outcome)
        requires
            machine::running(old(self)@),
            !(dest is Host),
            machine::goes_on(machine::cur(old(self)@), old(self)@.pc),
            machine::dest_ok(dest, machine::cur(old(self)@)),
        ensures
            (final(self)@, super::outcome_view(r)) == machine::call_op(
                old(self)@,
                callee@,
                value::vals(args@),
                dest,
            ),
            machine::wf(final(self)@),
    {
        self.at_line();
        self.call_from(callee, args, dest, false, false)
    }

    fn call_global(&mut self, g: u16, args: Vec<Value>, dest: Dest) -> (r: Outcome)
        requires
            machine::running(old(self)@),
            !(dest is Host),
            g < machine::cur(old(self)@).globals.len(),
            machine::goes_on(machine::cur(old(self)@), old(self)@.pc),
            machine::dest_ok(dest, machine::cur(old(self)@)),
        ensures
            (final(self)@, super::outcome_view(r)) == machine::call_global(
                old(self)@,
                machine::global_name(old(self)@, g),
                value::vals(args@),
                dest,
            ),
            machine::wf(final(self)@),
    {
        let name = self.global_name(g);
        let i: usize = self.make_global(name.as_str());
        let callee = self.globals[i].1.clone();
        self.call_op(callee, args, dest)
    }

    /// The name a method call goes by.
    fn method_name(&self, k: u16) -> (r: RStr)
        requires
            machine::wf(self@),
            self@.frames.len() > 0,
            k < machine::cur(self@).consts.len(),
            machine::cur(self@).consts[k as int] is Str,
        ensures
            r@ == machine::konst(self@, k)->Str_0,
    {
        match self.konst(k) {
            Value::Str(s) => s,
            _ => RStr::new(""),
        }
    }

    fn method_op(&mut self, base: Reg, name: u16, nargs: u16, dest: Dest) -> (r: Outcome)
        requires
            machine::running(old(self)@),
            !(dest is Host),
            base + nargs + 1 < machine::cur(old(self)@).n_regs,
            name < machine::cur(old(self)@).consts.len(),
            machine::cur(old(self)@).consts[name as int] is Str,
            machine::goes_on(machine::cur(old(self)@), old(self)@.pc),
            machine::dest_ok(dest, machine::cur(old(self)@)),
        ensures
            (final(self)@, super::outcome_view(r)) == machine::method_op(
                old(self)@,
                base,
                machine::konst(old(self)@, name)->Str_0,
                nargs,
                dest,
            ),
            machine::wf(final(self)@),
    {
        let name = self.method_name(name);
        let recv = self.stack[self.base + base as usize + 1].clone();
        match self.method(&recv, &name) {
            Ok(f) => {
                let args = self.window(base as usize + 1, nargs as usize + 1);
                self.call_op(f, args, dest)
            },
            Err(e) => {
                self.at_line();
                self.bad(e)
            },
        }
    }

    fn spread_call(&mut self, callee: Value, base: Reg, nargs: u16, nres: u16) -> (r: Outcome)
        requires
            machine::running(old(self)@),
            base + nargs < machine::cur(old(self)@).n_regs,
            machine::goes_on(machine::cur(old(self)@), old(self)@.pc),
            crate::bytecode::results_fit(base, nres, base, machine::cur(old(self)@).n_regs),
        ensures
            (final(self)@, super::outcome_view(r)) == machine::spread_call(
                old(self)@,
                callee@,
                base,
                nargs,
                nres,
            ),
            machine::wf(final(self)@),
    {
        let ghost was = self@;
        let mut args = self.window(base as usize + 1, nargs as usize);
        let ghost fixed = value::vals(args@);
        let mut i: usize = 0;
        while i < self.multi.len()
            invariant
                i <= self.multi@.len(),
                was == self@,
                value::vals(args@) =~= fixed + was.multi.take(i as int),
            decreases self.multi@.len() - i,
        {
            let v = self.multi[i].clone();
            let ghost before = value::vals(args@);
            assert(v@ == was.multi[i as int]);
            args.push(v);
            assert(value::vals(args@) =~= before.push(v@));
            assert(before.push(v@) =~= fixed + was.multi.take(i as int + 1));
            i = i + 1;
        }
        assert(value::vals(args@) =~= fixed + was.multi);
        self.at_line();
        self.call_from(callee, args, Dest::Regs { base, nres, dst: base }, true, true)
    }

    fn spread_op(&mut self, base: Reg, nargs: u16, nres: u16, method: u16) -> (r: Outcome)
        requires
            machine::running(old(self)@),
            base + nargs < machine::cur(old(self)@).n_regs,
            method != NO_METHOD ==> nargs >= 1 && method < machine::cur(
                old(self)@,
            ).consts.len() && machine::cur(old(self)@).consts[method as int] is Str,
            machine::goes_on(machine::cur(old(self)@), old(self)@.pc),
            crate::bytecode::results_fit(base, nres, base, machine::cur(old(self)@).n_regs),
        ensures
            (final(self)@, super::outcome_view(r)) == machine::spread_op(
                old(self)@,
                base,
                nargs,
                nres,
                method,
            ),
            machine::wf(final(self)@),
    {
        if method == NO_METHOD {
            let callee = self.get(base);
            return self.spread_call(callee, base, nargs, nres);
        }
        let name = self.method_name(method);
        let recv = self.stack[self.base + base as usize + 1].clone();
        match self.method(&recv, &name) {
            Ok(f) => self.spread_call(f, base, nargs, nres),
            Err(e) => {
                self.at_line();
                self.bad(e)
            },
        }
    }

    /// Run one instruction.
    #[verifier::rlimit(60)]
    pub fn step(&mut self) -> (r: Outcome)
        requires
            machine::running(old(self)@),
        ensures
            (final(self)@, super::outcome_view(r)) == machine::step(old(self)@),
            machine::wf(final(self)@),
    {
        let ghost was = self@;
        proof {
            super::lemma_goes_on(was);
            let p = machine::cur(was);
            assert(crate::bytecode::op_ok(
                p.code[was.pc],
                p.n_regs,
                p.consts,
                p.globals.len(),
                p.protos.len(),
                p.hints,
                p.caches,
                p.upvals.len(),
                p.code.len(),
            ));
        }
        let op: Op = self.op();
        match op {
            Op::Const { dst, k } => {
                let v = self.konst(k);
                self.load(dst, v)
            },
            Op::Nil { dst } => self.load(dst, Value::Nil),
            Op::Move { dst, src } => {
                let v = self.get(src);
                self.load(dst, v)
            },
            Op::Move2 { d0, s0, d1, s1 } => {
                let v = self.get(s0);
                self.put(d0, v);
                let v = self.get(s1);
                self.load(d1, v)
            },
            Op::GetGlobal { dst, g } => self.op_get_global(dst, g),
            Op::SetGlobal { g, src } => self.op_set_global(g, src),
            Op::GetUpval { dst, idx } => {
                let c: usize = self.upval(idx);
                let v = self.cells[c].clone();
                self.load(dst, v)
            },
            Op::SetUpval { idx, src } => {
                let c: usize = self.upval(idx);
                let v = self.get(src);
                self.set_cell_at(c, v);
                self.next();
                Outcome::Run
            },
            Op::GetCell { dst, slot } => {
                let v = self.get(slot);
                let v = self.cell_value(v);
                self.load(dst, v)
            },
            Op::SetCell { slot, src } => {
                let v = self.get(src);
                self.set_cell(slot, v);
                self.next();
                Outcome::Run
            },
            Op::NewCell { slot, src } => {
                let v = self.get(src);
                self.fresh_cell(slot, v);
                self.next();
                Outcome::Run
            },
            Op::Bin { kind, dst, a, b } => self.operate(kind, dst, a, b),
            Op::BinK { kind, dst, a, k } => self.operate_const(kind, dst, a, k),
            Op::Add { dst, a, b } => self.operate(BinKind::Add, dst, a, b),
            Op::Sub { dst, a, b } => self.operate(BinKind::Sub, dst, a, b),
            Op::Mul { dst, a, b } => self.operate(BinKind::Mul, dst, a, b),
            Op::Div { dst, a, b } => self.operate(BinKind::Div, dst, a, b),
            Op::AddK { dst, a, k } => self.operate_const(BinKind::Add, dst, a, k),
            Op::SubK { dst, a, k } => self.operate_const(BinKind::Sub, dst, a, k),
            Op::MulK { dst, a, k } => self.operate_const(BinKind::Mul, dst, a, k),
            Op::Neg { dst, a } => self.negate(dst, a),
            Op::Not { dst, a } => {
                let v = Value::Bool(!self.get(a).truthy());
                self.load(dst, v)
            },
            Op::Concat { dst, base, parts } => self.concat(dst, base, parts),
            Op::Jump { to } => {
                self.go(to as usize);
                Outcome::Run
            },
            Op::JumpIfFalse { cond, to } => {
                let v = self.get(cond);
                self.branch(Needs::Is(v), to)
            },
            Op::JumpIfTrue { cond, to } => {
                let v = Value::Bool(!self.get(cond).truthy());
                self.branch(Needs::Is(v), to)
            },
            Op::JumpIfNot { kind, a, b, to } => {
                let x = self.get(a);
                let y = self.get(b);
                let v = self.binary(kind, &x, &y);
                self.branch(v, to)
            },
            Op::JumpIfNotK { kind, a, k, to } => {
                let x = self.get(a);
                let y = self.konst(k);
                let v = self.binary(kind, &x, &y);
                self.branch(v, to)
            },
            Op::JumpBack { to, id, hint, exit } => self.tick(id, to, exit as usize),
            Op::LoopHint { id, hint, exit } => self.tick(
                id,
                (self.pc + 1) as u32,
                exit as usize,
            ),
            Op::ForLoop { counter, limit, to, id, hint, le } => self.for_loop(
                counter,
                limit,
                to,
                id,
                le,
            ),
            Op::Call { base, nargs, nres, dst } => {
                let callee = self.get(base);
                let args = self.window(base as usize + 1, nargs as usize);
                self.call_op(callee, args, Dest::Regs { base, nres, dst })
            },
            Op::CallGlobal { base, g, nargs, nres, dst } => {
                let args = self.window(base as usize + 1, nargs as usize);
                self.call_global(g, args, Dest::Regs { base, nres, dst })
            },
            Op::CallGlobal1 { base, g, a, nres, dst } => {
                let mut args: Vec<Value> = Vec::new();
                args.push(self.get(a));
                assert(value::vals(args@) =~= seq![machine::reg(was, a)]);
                self.call_global(g, args, Dest::Regs { base, nres, dst })
            },
            Op::Method { base, name, nargs, nres, dst } => self.method_op(
                base,
                name,
                nargs,
                Dest::Regs { base, nres, dst },
            ),
            Op::CallSpread { base, nargs, nres, method } => self.spread_op(
                base,
                nargs,
                nres,
                method,
            ),
            Op::Ret { base, n } => self.ret(base, n),
            Op::NewTable { dst } => {
                let t: usize = self.new_table();
                self.load(dst, Value::Table(t))
            },
            Op::GetIndex { dst, obj, key } => {
                let o = self.get(obj);
                let k = self.get(key);
                self.get_index(dst, o, k)
            },
            Op::GetIndexK { dst, obj, k, ic } => {
                let o = self.get(obj);
                let k = self.konst(k);
                self.get_index(dst, o, k)
            },
            Op::SetIndex { obj, key, val } => {
                let o = self.get(obj);
                let k = self.get(key);
                let v = self.get(val);
                self.set_index(o, k, v)
            },
            Op::SetIndexK { obj, k, val } => {
                let o = self.get(obj);
                let k = self.konst(k);
                let v = self.get(val);
                self.set_index(o, k, v)
            },
            Op::Append { obj, val } => {
                let o = self.get(obj);
                let mut vals: Vec<Value> = Vec::new();
                vals.push(self.get(val));
                assert(value::vals(vals@) =~= seq![machine::reg(was, val)]);
                self.append(o, vals)
            },
            Op::AppendMulti { obj } => {
                let o = self.get(obj);
                let vals = self.take_multi();
                self.append(o, vals)
            },
            Op::Closure { dst, proto } => {
                let child = self.child(proto);
                self.make_closure(dst, child);
                self.next();
                Outcome::Run
            },
            Op::Range { dst, a, b, inclusive } => {
                let x = self.get(a);
                let y = self.get(b);
                self.make_range(dst, x, y, inclusive)
            },
            Op::IterInit { dst, src } => {
                let v = self.get(src);
                self.iter_init(dst, v);
                self.next();
                Outcome::Run
            },
            Op::IterNext { iter, base, count, exit } => {
                let it = self.get(iter);
                let args: Vec<Value> = Vec::new();
                assert(value::vals(args@) =~= Seq::<Val>::empty());
                self.call_from(it, args, Dest::Iter { base, count, exit }, true, false)
            },
        }
    }

    /// Put a value in a register and go on.
    fn load(&mut self, dst: Reg, v: Value) -> (r: Outcome)
        requires
            machine::running(old(self)@),
            machine::goes_on(machine::cur(old(self)@), old(self)@.pc),
            dst < machine::cur(old(self)@).n_regs,
        ensures
            final(self)@ == machine::next(machine::put(old(self)@, dst, v@)),
            r is Run,
            machine::wf(final(self)@),
    {
        self.put(dst, v);
        self.next();
        Outcome::Run
    }

    fn operate(&mut self, kind: BinKind, dst: Reg, a: Reg, b: Reg) -> (r: Outcome)
        requires
            machine::running(old(self)@),
            machine::goes_on(machine::cur(old(self)@), old(self)@.pc),
            dst < machine::cur(old(self)@).n_regs,
            a < machine::cur(old(self)@).n_regs,
            b < machine::cur(old(self)@).n_regs,
        ensures
            (final(self)@, super::outcome_view(r)) == machine::settle(
                old(self)@,
                machine::binary(
                    old(self)@,
                    kind,
                    machine::reg(old(self)@, a),
                    machine::reg(old(self)@, b),
                ),
                dst,
            ),
            machine::wf(final(self)@),
    {
        let x = self.get(a);
        let y = self.get(b);
        let v = self.binary(kind, &x, &y);
        self.settle(v, dst)
    }

    fn operate_const(&mut self, kind: BinKind, dst: Reg, a: Reg, k: u16) -> (r: Outcome)
        requires
            machine::running(old(self)@),
            machine::goes_on(machine::cur(old(self)@), old(self)@.pc),
            dst < machine::cur(old(self)@).n_regs,
            a < machine::cur(old(self)@).n_regs,
            k < machine::cur(old(self)@).consts.len(),
        ensures
            (final(self)@, super::outcome_view(r)) == machine::settle(
                old(self)@,
                machine::binary(
                    old(self)@,
                    kind,
                    machine::reg(old(self)@, a),
                    machine::konst(old(self)@, k),
                ),
                dst,
            ),
            machine::wf(final(self)@),
    {
        let x = self.get(a);
        let y = self.konst(k);
        let v = self.binary(kind, &x, &y);
        self.settle(v, dst)
    }

    fn negate(&mut self, dst: Reg, a: Reg) -> (r: Outcome)
        requires
            machine::running(old(self)@),
            machine::goes_on(machine::cur(old(self)@), old(self)@.pc),
            dst < machine::cur(old(self)@).n_regs,
            a < machine::cur(old(self)@).n_regs,
        ensures
            (final(self)@, super::outcome_view(r)) == machine::exec_op(
                old(self)@,
                Op::Neg { dst, a },
            ),
            machine::wf(final(self)@),
    {
        let x = self.get(a);
        let v = match self.num_of(&x) {
            Needs::Is(n) => Needs::Is(Value::Num(num::num_neg(n))),
            Needs::Ask(q) => Needs::Ask(q),
            Needs::Bad(e) => Needs::Bad(e),
        };
        self.settle(v, dst)
    }

    fn concat(&mut self, dst: Reg, base: Reg, parts: u8) -> (r: Outcome)
        requires
            machine::running(old(self)@),
            machine::goes_on(machine::cur(old(self)@), old(self)@.pc),
            dst < machine::cur(old(self)@).n_regs,
            base + parts <= machine::cur(old(self)@).n_regs,
        ensures
            (final(self)@, super::outcome_view(r)) == machine::exec_op(
                old(self)@,
                Op::Concat { dst, base, parts },
            ),
            machine::wf(final(self)@),
    {
        let vals = self.window(base as usize, parts as usize);
        let v = match self.all_text(&vals) {
            Needs::Is(s) => Needs::Is(Value::str(s.as_str())),
            Needs::Ask(q) => Needs::Ask(q),
            Needs::Bad(e) => Needs::Bad(e),
        };
        self.settle(v, dst)
    }

    /// A new, empty table.
    pub fn new_table(&mut self) -> (t: usize)
        requires
            machine::wf(old(self)@),
        ensures
            t == old(self)@.tables.len(),
            final(self)@ == (Mach {
                tables: old(self)@.tables.push(
                    table::TableView { arr: Seq::empty(), pairs: Seq::empty(), nums: None },
                ),
                ..old(self)@
            }),
            machine::wf(final(self)@),
    {
        let ghost was = self@;
        let t: usize = self.tables.len();
        let fresh = Table::new();
        let ghost view = fresh@;
        assert(view =~= table::TableView { arr: Seq::empty(), pairs: Seq::empty(), nums: None });
        self.tables.push(fresh);
        assert(self@.tables =~= was.tables.push(view));
        assert(self@ =~= (Mach { tables: was.tables.push(view), ..was }));
        proof {
            assert forall|i: int| 0 <= i < self@.tables.len() implies table::t_wf(
                #[trigger] self@.tables[i],
            ) by {
                if i < was.tables.len() {
                    assert(table::t_wf(was.tables[i]));
                }
            }
            super::calls::lemma_same_places(was, self@);
        }
        t
    }

    fn take_multi(&mut self) -> (vals: Vec<Value>)
        requires
            machine::running(old(self)@),
        ensures
            value::vals(vals@) == old(self)@.multi,
            final(self)@ == (Mach { multi: Seq::empty(), ..old(self)@ }),
            machine::running(final(self)@),
    {
        let ghost was = self@;
        let mut vals: Vec<Value> = Vec::new();
        std::mem::swap(&mut vals, &mut self.multi);
        assert(self@ =~= (Mach { multi: Seq::empty(), ..was }));
        proof {
            super::calls::lemma_same_places(was, self@);
        }
        vals
    }

    /// A function defined inside the running one.
    fn child(&self, i: u16) -> (r: Rc<Proto>)
        requires
            machine::running(self@),
            i < machine::cur(self@).protos.len(),
        ensures
            crate::bytecode::proto_view(*r) == machine::cur(self@).protos[i as int],
            crate::bytecode::proto_ok(crate::bytecode::proto_view(*r)),
            crate::bytecode::captures_ok(
                r.upvals@,
                machine::cur(self@).n_regs,
                machine::cur(self@).upvals.len(),
            ),
    {
        proof {
            super::lemma_goes_on(self@);
            crate::bytecode::lemma_proto_views(self.funcs@[self.func as int].proto.protos@);
            crate::bytecode::lemma_child_ok(machine::cur(self@), i as int);
        }
        self.funcs[self.func].proto.protos[i as usize].clone()
    }

    /// Go on with what the host replied.
    pub fn resume(&mut self, event: Event) -> (r: Outcome)
        requires
            machine::wf(old(self)@),
            old(self)@.frames.len() > 0,
            !(old(self)@.pending is Idle),
        ensures
            (final(self)@, super::outcome_view(r)) == machine::resume(
                old(self)@,
                super::event_view(event),
            ),
            machine::wf(final(self)@),
    {
        let ghost was = self@;
        let pending: Pending = self.pending;
        self.pending = Pending::Idle;
        assert(self@ =~= machine::idle(was));
        proof {
            super::calls::lemma_same_places(was, self@);
        }
        match (pending, event) {
            (Pending::Values { dest, depth }, Event::Values(vals)) => {
                self.set_depth(depth);
                self.deliver(dest, vals)
            },
            (Pending::Values { dest, depth }, Event::Fault(e)) => {
                self.set_depth(depth);
                self.throw(e)
            },
            (Pending::Sum { dst }, Event::Number(n)) => self.load(dst, Value::Num(n)),
            (Pending::Step { counter, limit, to, id, le }, Event::Number(n)) => self.stepped(
                Value::Num(n),
                counter,
                limit,
                to,
                id,
                le,
            ),
            (Pending::Turn { iter, dest }, Event::Number(n)) => self.turned(iter, n, dest),
            (Pending::Note, Event::Read(s, n)) => {
                let ghost before = self@;
                self.reads.push((s, n));
                assert(self@.reads =~= before.reads.push((s@, n)));
                assert(self@ =~= (Mach { reads: before.reads.push((s@, n)), ..before }));
                proof {
                    super::calls::lemma_same_places(before, self@);
                }
                Outcome::Run
            },
            (Pending::Note, Event::Shown(b, s)) => {
                let ghost before = self@;
                self.shows.push((b, s));
                assert(self@.shows =~= before.shows.push((b, s@)));
                assert(self@ =~= (Mach { shows: before.shows.push((b, s@)), ..before }));
                proof {
                    super::calls::lemma_same_places(before, self@);
                }
                Outcome::Run
            },
            (Pending::Took { dest }, Event::Took(v)) => {
                let mut vals: Vec<Value> = Vec::new();
                vals.push(v);
                assert(value::vals(vals@) =~= seq![v@]);
                self.deliver(dest, vals)
            },
            (Pending::Took { dest }, Event::Declined) => {
                let ghost before = self@;
                self.declined = true;
                assert(self@ =~= (Mach { declined: true, ..before }));
                proof {
                    super::calls::lemma_same_places(before, self@);
                }
                Outcome::Run
            },
            (Pending::Hot { which, to, exit }, Event::Ran(ran)) => {
                let ghost mid = self@;
                let n: u32 = if ran {
                    HOT
                } else {
                    0
                };
                self.ticks.insert(which, n);
                assert(self@ =~= (Mach { ticks: mid.ticks.insert(which, n), ..mid }));
                proof {
                    super::calls::lemma_same_places(mid, self@);
                }
                if ran {
                    self.go(exit);
                } else {
                    self.go(to as usize);
                }
                Outcome::Run
            },
            (Pending::Seen, Event::Seen) => Outcome::Run,
            _ => self.bad(text::owned("the host gave no answer to what it was asked")),
        }
    }

    fn set_depth(&mut self, depth: usize)
        requires
            machine::running(old(self)@),
        ensures
            final(self)@ == (Mach { depth: depth as int, ..old(self)@ }),
            machine::running(final(self)@),
    {
        let ghost was = self@;
        self.depth = depth;
        assert(self@ =~= (Mach { depth: depth as int, ..was }));
        proof {
            super::calls::lemma_same_places(was, self@);
        }
    }
}

/// One more function whose captures are there keeps the machine sound.
proof fn lemma_more_funcs(was: Mach, m: Mach, f: machine::FuncView)
    requires
        machine::running(was),
        m == (Mach { funcs: was.funcs.push(f), ..was }),
        machine::func_ok(f, was.cells.len()),
    ensures
        machine::running(m),
{
    assert forall|g: usize| g < was.funcs.len() implies machine::proto_at(m, g)
        == #[trigger] machine::proto_at(was, g) by {}
    assert forall|i: int| 1 <= i < m.frames.len() implies machine::frame_ok(
        m,
        #[trigger] m.frames[i],
    ) by {
        assert(machine::frame_ok(was, was.frames[i]));
    }
    assert forall|i: int| 0 <= i < m.funcs.len() implies machine::func_ok(
        #[trigger] m.funcs[i],
        m.cells.len(),
    ) by {
        if i < was.funcs.len() {
            assert(machine::func_ok(was.funcs[i], was.cells.len()));
        }
    }
    assert(machine::place_ok(m, m.func, m.base, m.top, m.pc, m.pending));
}

/// Where a global is found it has that name.
pub(super) proof fn lemma_global_at(globals: Seq<(Seq<char>, Val)>, name: Seq<char>, i: nat)
    requires
        i <= globals.len(),
    ensures
        i <= machine::global_at(globals, name, i) <= globals.len(),
        machine::global_at(globals, name, i) < globals.len() ==> globals[machine::global_at(
            globals,
            name,
            i,
        ) as int].0 == name,
        forall|j: int|
            i <= j < machine::global_at(globals, name, i) ==> (#[trigger] globals[j]).0 != name,
    decreases globals.len() - i,
{
    if i < globals.len() && globals[i as int].0 != name {
        lemma_global_at(globals, name, i + 1);
    }
}

} // verus!
