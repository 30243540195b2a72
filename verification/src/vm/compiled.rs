//! What the machine knows that compiling one of its functions rests on.
use super::Vm;
use crate::ast::FuncDef;
use crate::jit::kinds::{Callable, Kind};
use crate::jit::unit;
use crate::jit::unit::SelfRef;
use crate::machine;
use crate::machine::Mach;
use crate::text;
use crate::value::{Val, Value};
use std::rc::Rc;
use vstd::prelude::*;

verus! {

/// A function that has compiled code.
pub struct Made {
    pub func: usize,
    /// What each parameter has to be.
    pub kinds: Vec<Kind>,
    /// It has no value.
    pub returns_nil: bool,
    /// Its value is a table it made.
    pub returns_table: bool,
    /// What it was compiled from.
    pub def: Rc<FuncDef>,
}

/// The place of a function among those that have code, or their number.
pub open spec fn made_at(made: Seq<Made>, f: usize, i: nat) -> nat
    decreases made.len() - i,
{
    if i < made.len() && made[i as int].func != f {
        made_at(made, f, i + 1)
    } else {
        i
    }
}

fn find_made(made: &Vec<Made>, f: usize) -> (r: Option<usize>)
    ensures
        match r {
            Some(i) => i < made@.len() && i == made_at(made@, f, 0),
            None => made_at(made@, f, 0) >= made@.len(),
        },
{
    let mut i: usize = 0;
    while i < made.len()
        invariant
            i <= made@.len(),
            made_at(made@, f, i as nat) == made_at(made@, f, 0),
        decreases made@.len() - i,
    {
        if made[i].func == f {
            return Some(i);
        }
        i = i + 1;
    }
    None
}

/// The captured variable, from place `i` on, that holds this very function.
pub open spec fn own_upval(m: Mach, f: usize, i: nat) -> Option<nat>
    decreases m.funcs[f as int].upvals.len() - i,
{
    let cells = m.funcs[f as int].upvals;
    if i >= cells.len() {
        None
    } else if m.cells[cells[i as int] as int] == Val::Func(f) {
        Some(i)
    } else {
        own_upval(m, f, i + 1)
    }
}

/// The number of that captured variable, as instructions write it.
pub open spec fn upval_number(at: Option<nat>) -> Option<u16> {
    match at {
        Some(i) => Some((i as usize) as u16),
        None => None,
    }
}

/// The global that holds this very function under its own name.
pub open spec fn own_global(m: Mach, f: usize) -> Option<Seq<char>> {
    let name = machine::proto_at(m, f).name;
    if machine::global_value(m.globals, name) == Val::Func(f) {
        Some(name)
    } else {
        None
    }
}

/// What a call needs to know of a function it jumps straight into.
pub open spec fn callable_view(c: Callable) -> (Seq<char>, Seq<Kind>, Option<Rc<FuncDef>>) {
    (c.name@, c.kinds@, c.def)
}

pub open spec fn callable_views(s: Seq<Callable>) -> Seq<(Seq<char>, Seq<Kind>, Option<Rc<FuncDef>>)> {
    Seq::new(s.len(), |i: int| callable_view(s[i]))
}

/// The globals that hold a function with code. A direct call reads a number
/// out of what it calls, so one whose value is a table is not among them.
pub open spec fn direct_calls(globals: Seq<(Seq<char>, Val)>, made: Seq<Made>) -> Seq<
    (Seq<char>, Seq<Kind>, Option<Rc<FuncDef>>),
>
    decreases globals.len(),
{
    if globals.len() == 0 {
        Seq::empty()
    } else {
        let front = direct_calls(globals.drop_last(), made);
        match globals.last().1 {
            Val::Func(g) => {
                let i = made_at(made, g, 0);
                if i < made.len() && !made[i as int].returns_table {
                    front.push((globals.last().0, made[i as int].kinds@, Some(made[i as int].def)))
                } else {
                    front
                }
            },
            _ => front,
        }
    }
}

fn copy_kinds(kinds: &Vec<Kind>) -> (r: Vec<Kind>)
    ensures
        r@ == kinds@,
{
    let mut out: Vec<Kind> = Vec::new();
    let mut i: usize = 0;
    while i < kinds.len()
        invariant
            i <= kinds@.len(),
            out@ == kinds@.take(i as int),
        decreases kinds@.len() - i,
    {
        out.push(kinds[i]);
        assert(out@ =~= kinds@.take(i as int + 1));
        i = i + 1;
    }
    assert(out@ =~= kinds@);
    out
}

impl Vm {
    /// How deep calls are nested, which compiled code goes on counting from.
    pub fn depth(&self) -> (r: usize)
        ensures
            r == self@.depth,
    {
        self.depth
    }

    /// The function that is running.
    pub fn running(&self) -> (r: Option<usize>)
        ensures
            r == (if self@.frames.len() > 0 {
                Some(self@.func)
            } else {
                None
            }),
    {
        if self.frames.len() > 0 {
            Some(self.func)
        } else {
            None
        }
    }

    /// The globals compiled code may call directly as they stand.
    pub fn compiled_globals(&self, made: &Vec<Made>) -> (r: Vec<Callable>)
        ensures
            callable_views(r@) == direct_calls(self@.globals, made@),
    {
        let mut out: Vec<Callable> = Vec::new();
        let mut i: usize = 0;
        assert(callable_views(out@) =~= direct_calls(self@.globals.take(0), made@));
        while i < self.globals.len()
            invariant
                i <= self.globals@.len(),
                self.globals@.len() == self@.globals.len(),
                callable_views(out@) == direct_calls(self@.globals.take(i as int), made@),
            decreases self.globals@.len() - i,
        {
            let ghost before = callable_views(out@);
            proof {
                assert(self@.globals.take(i as int + 1).drop_last() =~= self@.globals.take(i as int));
                assert(self@.globals.take(i as int + 1).last() == self@.globals[i as int]);
            }
            match &self.globals[i].1 {
                Value::Func(g) => {
                    match find_made(made, *g) {
                        Some(k) => {
                            if !made[k].returns_table {
                                let c = Callable {
                                    name: self.globals[i].0.clone(),
                                    kinds: copy_kinds(&made[k].kinds),
                                    def: Some(made[k].def.clone()),
                                };
                                let ghost v = callable_view(c);
                                out.push(c);
                                assert(callable_views(out@) =~= before.push(v));
                            }
                        },
                        None => {},
                    }
                },
                _ => {},
            }
            i = i + 1;
        }
        assert(self@.globals.take(i as int) =~= self@.globals);
        out
    }

    /// How a function can refer to itself, and what it can call, as things
    /// stand just before it is compiled.
    pub fn self_ref(&self, f: usize, made: &Vec<Made>) -> (r: SelfRef)
        requires
            machine::wf(self@),
            f < self@.funcs.len(),
        ensures
            r.upval == upval_number(own_upval(self@, f, 0)),
            unit::name_of(r.global) == own_global(self@, f),
            callable_views(r.compiled_globals@) == direct_calls(self@.globals, made@),
    {
        assert(machine::func_ok(self@.funcs[f as int], self@.cells.len()));
        let mut upval: Option<u16> = None;
        let mut i: usize = 0;
        let mut looking: bool = true;
        while looking && i < self.funcs[f].upvals.len()
            invariant
                f < self@.funcs.len(),
                machine::func_ok(self@.funcs[f as int], self@.cells.len()),
                i <= self.funcs@[f as int].upvals@.len(),
                self@.funcs[f as int].upvals == self.funcs@[f as int].upvals@,
                looking ==> upval is None && own_upval(self@, f, i as nat) == own_upval(self@, f, 0),
                !looking ==> upval == upval_number(own_upval(self@, f, 0)),
            decreases self.funcs@[f as int].upvals@.len() - i, looking as int,
        {
            let c: usize = self.funcs[f].upvals[i];
            let here: bool = match &self.cells[c] {
                Value::Func(g) => *g == f,
                _ => false,
            };
            assert(here == (self@.cells[c as int] == Val::Func(f)));
            if here {
                upval = Some(i as u16);
                looking = false;
            } else {
                i = i + 1;
            }
        }
        let name = text::owned(self.funcs[f].proto.name.as_str());
        assert(name@ == machine::proto_at(self@, f).name);
        let held: bool = match self.get_global(name.as_str()) {
            Value::Func(g) => g == f,
            _ => false,
        };
        let global: Option<String> = if held {
            Some(name)
        } else {
            None
        };
        SelfRef { upval, global, compiled_globals: self.compiled_globals(made) }
    }
}

} // verus!
