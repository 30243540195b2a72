//! A call of a function on numbers: the machine enters it, runs it as it was read,
//! and gives its caller what it comes to.
use super::either;
use super::meaning;
use super::meaning::{Cell, Sums};
use super::recursive;
use super::recursive::Family;
use super::running;
use super::sums;
use super::unit;
use super::walk;
use crate::ast::{Binding, FuncDef};
use crate::bytecode;
use crate::bytecode::{Op, ParamSlot, MULTI};
use crate::codegen;
use crate::machine;
use crate::machine::{Dest, Mach, Out, MAX_DEPTH, STACK_MAX};
use crate::value::Val;
use vstd::prelude::*;

verus! {

/// Every local is in its register.
spec fn holds(stack: Seq<Val>, base: int, f: Map<u16, Cell>) -> bool {
    forall|slot: u16| #[trigger]
        f.contains_key(slot) ==> base + slot < stack.len() && stack[base + slot] == sums::cell_val(
            f[slot],
        )
}

/// Parameters that are no cells are put in their registers.
proof fn lemma_bound(
    stack: Seq<Val>,
    cells: Seq<Val>,
    base: int,
    bs: Seq<Binding>,
    args: Seq<Val>,
    xs: Seq<u64>,
    i: nat,
    f: Map<u16, Cell>,
    n_regs: nat,
)
    requires
        0 <= base,
        base + n_regs <= stack.len(),
        args.len() == bs.len(),
        xs.len() == bs.len(),
        i <= bs.len(),
        forall|k: int| 0 <= k < xs.len() ==> args[k] == Val::Num(#[trigger] xs[k]),
        forall|k: int| 0 <= k < bs.len() ==> !(#[trigger] bs[k]).cell && bs[k].slot < n_regs,
        holds(stack, base, f),
    ensures
        ({
            let (st, cs) = machine::bound(stack, cells, base, codegen::param_slots(bs), args, i);
            let g = meaning::bound_all(
                f,
                walk::slots_of(bs).skip(i as int),
                Seq::new(xs.len(), |k: int| Cell::Num(xs[k])).skip(i as int),
            );
            &&& cs == cells
            &&& st.len() == stack.len()
            &&& holds(st, base, g)
            &&& forall|j: int| 0 <= j < base ==> #[trigger] st[j] == stack[j]
        }),
    decreases bs.len() - i,
{
    let slots = walk::slots_of(bs);
    let all = Seq::new(xs.len(), |k: int| Cell::Num(xs[k]));
    if i < bs.len() {
        let at = base + bs[i as int].slot;
        let c = Cell::Num(xs[i as int]);
        let st = stack.update(at, args[i as int]);
        let f1 = f.insert(bs[i as int].slot, c);
        assert(args[i as int] == Val::Num(xs[i as int]));
        assert(!bs[i as int].cell);
        assert(holds(st, base, f1)) by {
            assert forall|slot: u16| #[trigger] f1.contains_key(slot) implies base + slot < st.len()
                && st[base + slot] == sums::cell_val(f1[slot]) by {
                if slot != bs[i as int].slot {
                    assert(f.contains_key(slot));
                }
            }
        }
        lemma_bound(st, cells, base, bs, args, xs, i + 1, f1, n_regs);
        assert(slots.skip(i as int).drop_first() =~= slots.skip(i as int + 1));
        assert(all.skip(i as int).drop_first() =~= all.skip(i as int + 1));
        assert(codegen::param_slots(bs)[i as int] == (ParamSlot {
            reg: bs[i as int].slot,
            cell: false,
        }));
    }
}

/// The machine can be asked to go back to where it is.
pub open spec fn countable(m: Mach) -> bool {
    &&& 0 <= m.base <= usize::MAX
    &&& 0 <= m.top <= usize::MAX
    &&& 0 <= m.pc <= usize::MAX
    &&& 0 <= m.depth <= usize::MAX
    &&& m.trace.len() <= usize::MAX
}

/// A function on numbers that a machine has, called with numbers.
pub open spec fn calls(m: Mach, def: FuncDef, f: usize, args: Seq<Val>, xs: Seq<u64>) -> bool {
    &&& f < m.funcs.len()
    &&& m.funcs[f as int].proto == codegen::proto_of(codegen::g_function(def), def)
    &&& codegen::g_function(def).bad is None
    &&& args.len() == xs.len() == def.param_bindings@.len()
    &&& forall|k: int| 0 <= k < xs.len() ==> args[k] == Val::Num(#[trigger] xs[k])
    &&& forall|k: int|
        0 <= k < def.param_bindings@.len() ==> !(#[trigger] def.param_bindings@[k]).cell
}

/// The state in which a function has just been entered.
pub open spec fn inside(m: Mach, f: usize, args: Seq<Val>, dest: Dest) -> Mach {
    machine::enter(machine::counted(machine::at_line(m), f), f, args, dest, true)
}

proof fn lemma_entered(m: Mach, def: FuncDef, f: usize, args: Seq<Val>, xs: Seq<u64>, dest: Dest)
    requires
        machine::wf(m),
        countable(m),
        !m.jit,
        calls(m, def, f, args, xs),
        sums::clean(inside(m, f, args, dest)),
    ensures
        ({
            let m1 = inside(m, f, args, dest);
            &&& either::entered(m1, def, recursive::called_with(def.param_bindings@, xs))
            &&& m1.base == m.top
            &&& m1.cells == m.cells
            &&& m1.stack.len() >= m.stack.len()
            &&& bytecode::proto_ok(machine::cur(m1))
            &&& forall|j: int| 0 <= j < m.top ==> #[trigger] m1.stack[j] == m.stack[j]
        }),
{
    let m0 = machine::counted(machine::at_line(m), f);
    let m1 = inside(m, f, args, dest);
    let p = m.funcs[f as int].proto;
    assert(machine::func_ok(m.funcs[f as int], m.cells.len()));
    assert(machine::proto_at(m0, f) == p);
    let end = m.top + p.n_regs;
    let stack = machine::grown(m.stack, end);
    let bs = def.param_bindings@;
    assert forall|k: int| 0 <= k < bs.len() implies !(#[trigger] bs[k]).cell && bs[k].slot
        < p.n_regs by {
        assert(p.params[k].reg < p.n_regs);
    }
    lemma_bound(stack, m.cells, m.top, bs, args, xs, 0, Map::empty(), p.n_regs);
    let all = Seq::new(xs.len(), |k: int| Cell::Num(xs[k]));
    assert(walk::slots_of(bs).skip(0) =~= walk::slots_of(bs));
    assert(all.skip(0) =~= all);
    assert(machine::cur(m1) == p);
    let f0 = recursive::called_with(bs, xs);
    assert forall|slot: u16| #[trigger] f0.contains_key(slot) && slot < def.n_slots implies
        machine::reg(m1, slot) == sums::cell_val(f0[slot]) by {
        assert(m1.stack[m.top + slot] == sums::cell_val(f0[slot]));
    }
}

/// Back in the caller, with what the function came to.
proof fn lemma_left(m: Mach, f: usize, args: Seq<Val>, m2: Mach, base: u16, dst: u16, v: u64)
    requires
        machine::wf(m),
        countable(m),
        sums::clean(m),
        f < m.funcs.len(),
        0 <= m.base + dst < m.top,
        bytecode::proto_ok(machine::cur(inside(m, f, args, Dest::Regs { base, nres: 1, dst }))),
        inside(m, f, args, Dest::Regs { base, nres: 1, dst }).base == m.top,
        inside(m, f, args, Dest::Regs { base, nres: 1, dst }).cells == m.cells,
        inside(m, f, args, Dest::Regs { base, nres: 1, dst }).stack.len() >= m.stack.len(),
        m.top + machine::cur(inside(m, f, args, Dest::Regs { base, nres: 1, dst })).n_regs <= inside(
            m,
            f,
            args,
            Dest::Regs { base, nres: 1, dst },
        ).stack.len(),
        forall|j: int|
            0 <= j < m.top ==> #[trigger] inside(
                m,
                f,
                args,
                Dest::Regs { base, nres: 1, dst },
            ).stack[j] == m.stack[j],
        running::gives_back(inside(m, f, args, Dest::Regs { base, nres: 1, dst }), m2, Some(v)),
    ensures
        given_back(m, machine::step(m2).0, dst, v),
        machine::step(m2).1 is Run,
{
    let dest = Dest::Regs { base, nres: 1, dst };
    let m1 = inside(m, f, args, dest);
    let k = m2.frames.len() - 1;
    assert(m2.frames == m1.frames);
    assert(m1.frames.take(k) =~= m.frames);
    assert(m2.trace.take(m.trace.len() as int) =~= m.trace);
    match machine::cur(m1).code[m2.pc] {
        Op::Ret { base: b, n } => {
            assert(machine::cur(m2) == machine::cur(m1));
            let vals = seq![Val::Num(v)];
            if n == MULTI {
                let m3 = machine::leave(Mach { multi: Seq::empty(), ..m2 }, k);
                assert(machine::step(m2) == machine::deliver(m3, dest, m2.multi));
                assert(m3 =~= Mach {
                    stack: m3.stack,
                    funcs: m3.funcs,
                    ticks: m3.ticks,
                    line: m3.line,
                    multi: m3.multi,
                    ..m
                });
                lemma_given(m, m3, base, dst, v);
            } else {
                let m3 = machine::leave(m2, k);
                assert(bytecode::op_ok(
                    machine::cur(m1).code[m2.pc],
                    machine::cur(m1).n_regs,
                    machine::cur(m1).consts,
                    machine::cur(m1).globals.len(),
                    machine::cur(m1).protos.len(),
                    machine::cur(m1).hints,
                    machine::cur(m1).caches,
                    machine::cur(m1).upvals.len(),
                    machine::cur(m1).code.len(),
                ));
                assert(machine::window(m2, b as int, 1) =~= vals);
                assert(machine::step(m2) == machine::deliver(m3, dest, vals));
                assert(m3 =~= Mach {
                    stack: m3.stack,
                    funcs: m3.funcs,
                    ticks: m3.ticks,
                    line: m3.line,
                    multi: m3.multi,
                    ..m
                });
                lemma_given(m, m3, base, dst, v);
            }
        },
        _ => {},
    }
}

/// The machine is where it was but for what it was given, the turns its loops
/// took and how often functions were called.
pub open spec fn given_back(m: Mach, m3: Mach, dst: u16, v: u64) -> bool {
    &&& m3 == Mach {
        stack: m3.stack,
        funcs: m3.funcs,
        ticks: m3.ticks,
        line: m3.line,
        multi: m3.multi,
        pc: m.pc + 1,
        ..m
    }
    &&& m3.funcs.len() == m.funcs.len()
    &&& forall|j: int|
        0 <= j < m.funcs.len() ==> (#[trigger] m3.funcs[j]).proto == m.funcs[j].proto
    &&& m3.stack.len() >= m.stack.len()
    &&& m3.stack[m.base + dst] == Val::Num(v)
    &&& forall|j: int|
        0 <= j < m.top && j != m.base + dst ==> #[trigger] m3.stack[j] == m.stack[j]
}

proof fn lemma_given(m: Mach, m3: Mach, base: u16, dst: u16, v: u64)
    requires
        sums::clean(m),
        m3 == (Mach {
            stack: m3.stack,
            funcs: m3.funcs,
            ticks: m3.ticks,
            line: m3.line,
            multi: m3.multi,
            ..m
        }),
        m3.funcs.len() == m.funcs.len(),
        forall|j: int|
            0 <= j < m.funcs.len() ==> (#[trigger] m3.funcs[j]).proto == m.funcs[j].proto,
        m3.stack.len() >= m.stack.len() >= m.top,
        0 <= m.base + dst < m.top,
        forall|j: int| 0 <= j < m.top ==> #[trigger] m3.stack[j] == m.stack[j],
    ensures
        given_back(
            m,
            machine::deliver(m3, Dest::Regs { base, nres: 1, dst }, seq![Val::Num(v)]).0,
            dst,
            v,
        ),
{
    let vals = seq![Val::Num(v)];
    let m4 = machine::deliver(m3, Dest::Regs { base, nres: 1, dst }, vals).0;
    assert(m4 == machine::next(machine::results(m3, dst as int, 1, vals)));
    assert(m4 =~= Mach {
        stack: m4.stack,
        funcs: m3.funcs,
        ticks: m3.ticks,
        line: m3.line,
        multi: m3.multi,
        pc: m.pc + 1,
        ..m
    });
}

/// A call of a function on numbers is what the function means: the machine enters
/// it, runs its code to a return of the number it means, and is then back where
/// the call was made, with that number where it belongs and all else as it was.
pub proof fn lemma_a_call_is_its_body(
    q: Sums,
    n: nat,
    def: FuncDef,
    f: usize,
    args: Seq<Val>,
    xs: Seq<u64>,
    base: u16,
    dst: u16,
    v: u64,
    m: Mach,
)
    requires
        machine::wf(m),
        countable(m),
        sums::clean(m),
        !m.jit,
        m.depth < MAX_DEPTH,
        calls(m, def, f, args, xs),
        m.top + m.funcs[f as int].proto.n_regs <= STACK_MAX,
        0 <= m.base + dst < m.top,
        machine::step(m) == machine::call_op(
            m,
            Val::Func(f),
            args,
            Dest::Regs { base, nres: 1, dst },
        ),
        sums::clean(inside(m, f, args, Dest::Regs { base, nres: 1, dst })),
        either::plain_body(def.body),
        recursive::value_of(
            meaning::t_block(
                q,
                n,
                recursive::called_with(def.param_bindings@, xs),
                def.body,
                !unit::valueless(def.body),
            ),
        ) == Some(v),
    ensures
        machine::step(m) == (
            inside(m, f, args, Dest::Regs { base, nres: 1, dst }),
            Out::Run,
        ),
        exists|k: nat| #[trigger]
            comes_back(
                m,
                sums::after(q, inside(m, f, args, Dest::Regs { base, nres: 1, dst }), k),
                dst,
                v,
            ),
{
    let dest = Dest::Regs { base, nres: 1, dst };
    sums::lemma_enters(m, f, args, dest);
    let m1 = inside(m, f, args, dest);
    lemma_entered(m, def, f, args, xs, dest);
    let f0 = recursive::called_with(def.param_bindings@, xs);
    let a = meaning::t_block(q, n, f0, def.body, !unit::valueless(def.body));
    either::lemma_machine_means_the_same(q, n, def, f0, m1);
    let k = choose|k: nat| either::comes_to(m1, #[trigger] sums::after(q, m1, k), a);
    let m2 = sums::after(q, m1, k);
    assert(running::gives_back(m1, m2, Some(v)));
    lemma_left(m, f, args, m2, base, dst, v);
    assert(comes_back(m, m2, dst, v));
}

/// One step more, and the call has given this.
pub open spec fn comes_back(m: Mach, m2: Mach, dst: u16, v: u64) -> bool {
    machine::step(m2).1 is Run && given_back(m, machine::step(m2).0, dst, v)
}

/// A call of one of some functions that call each other, from the machine: what
/// comes back is what the compiled code of that function gives, within the same
/// depth of calls.
pub proof fn lemma_a_call_same_either_way(
    q: Sums,
    n: nat,
    p: Family,
    d: nat,
    name: Seq<char>,
    f: usize,
    args: Seq<Val>,
    xs: Seq<u64>,
    base: u16,
    dst: u16,
    m: Mach,
)
    requires
        recursive::all_compile(p),
        recursive::tree_gives(q, n, p, d, name, xs) is Some,
        either::plain_body(p.fns[name].body),
        machine::wf(m),
        countable(m),
        sums::clean(m),
        !m.jit,
        m.depth < MAX_DEPTH,
        calls(m, p.fns[name], f, args, xs),
        m.top + m.funcs[f as int].proto.n_regs <= STACK_MAX,
        0 <= m.base + dst < m.top,
        machine::step(m) == machine::call_op(
            m,
            Val::Func(f),
            args,
            Dest::Regs { base, nres: 1, dst },
        ),
        sums::clean(inside(m, f, args, Dest::Regs { base, nres: 1, dst })),
    ensures
        recursive::code_gives(q, n, p, d, name, xs) is Some,
        exists|k: nat| #[trigger]
            comes_back(
                m,
                sums::after(
                    recursive::answering(
                        q,
                        p,
                        name,
                        recursive::all_trees(q, n, p, (d - 1) as nat),
                    ),
                    inside(m, f, args, Dest::Regs { base, nres: 1, dst }),
                    k,
                ),
                dst,
                recursive::code_gives(q, n, p, d, name, xs)->Some_0,
            ),
{
    recursive::lemma_calls_mean_the_same(q, n, p, d, name, xs);
    let q1 = recursive::answering(q, p, name, recursive::all_trees(q, n, p, (d - 1) as nat));
    let v = recursive::tree_gives(q, n, p, d, name, xs)->Some_0;
    lemma_a_call_is_its_body(q1, n, p.fns[name], f, args, xs, base, dst, v, m);
}

} // verus!
