//! Functions that call themselves and each other: what they give is what their
//! compiled code gives, however deep the calls go.
use super::either;
use super::faithful;
use super::ir::{Cond, Ir, IrArgs, IrBlock, IrElse, IrIf, IrList, IrStat, IrStats, IrTail, IrValues};
use super::kinds;
use super::kinds::Callable;
use super::lowering;
use super::meaning;
use super::meaning::{Callee, Cell, Ends, Exit, Sums};
use super::running;
use super::sums;
use super::unit;
use super::walk;
use crate::ast::{Binding, FuncDef};
use crate::codegen;
use crate::machine::Mach;
use vstd::prelude::*;

verus! {

// ---- knowing more of what calls give -------------------------------------------------------

/// One knows of every call what the other knows of it.
pub open spec fn knows(q: Sums, p: Sums) -> bool {
    &&& q.bin == p.bin
    &&& q.math == p.math
    &&& forall|xs: Seq<u64>|
        match #[trigger] (q.own)(xs) {
            Some(v) => (p.own)(xs) == Some(v),
            None => true,
        }
    &&& forall|id: usize, xs: Seq<u64>|
        match #[trigger] (q.beside)(id, xs) {
            Some(v) => (p.beside)(id, xs) == Some(v),
            None => true,
        }
    &&& forall|i: usize, xs: Seq<u64>|
        match #[trigger] (q.through)(i, xs) {
            Some(v) => (p.through)(i, xs) == Some(v),
            None => true,
        }
}

/// An end that was reached is the same when more is known.
pub open spec fn stays(a: Ends<Map<u16, u64>>, b: Ends<Map<u16, u64>>) -> bool {
    a is Wrong || a is Late || b == a
}

proof fn lemma_num(q: Sums, p: Sums, n: nat, r: Map<u16, u64>, x: Ir)
    requires
        knows(q, p),
    ensures
        stays(meaning::i_num(q, n, r, x), meaning::i_num(p, n, r, x)),
    decreases n, x, 2int,
{
    match x {
        Ir::Neg(a) => lemma_num(q, p, n, r, *a),
        Ir::Bin(_, a, b) => {
            lemma_num(q, p, n, r, *a);
            match meaning::i_num(q, n, r, *a) {
                Ends::Num(_, r1) => lemma_num(q, p, n, r1, *b),
                _ => {},
            }
        },
        Ir::Math(_, a, rest) => {
            lemma_num(q, p, n, r, *a);
            match meaning::i_num(q, n, r, *a) {
                Ends::Num(_, r1) => lemma_list(q, p, n, r1, *rest),
                _ => {},
            }
        },
        Ir::Block(b) => lemma_block(q, p, n, r, *b),
        Ir::If(i) => lemma_if(q, p, n, r, *i),
        Ir::CallSelf(args) => {
            lemma_args(q, p, n, r, *args);
            match meaning::i_args(q, n, r, *args) {
                Ends::Many(vs, _) => {
                    assert((q.own)(vs) is Some ==> (p.own)(vs) == (q.own)(vs));
                },
                _ => {},
            }
        },
        Ir::CallBeside(id, args) => {
            lemma_args(q, p, n, r, *args);
            match meaning::i_args(q, n, r, *args) {
                Ends::Many(vs, _) => {
                    assert((q.beside)(id, vs) is Some ==> (p.beside)(id, vs) == (q.beside)(id, vs));
                },
                _ => {},
            }
        },
        Ir::CallThrough(i, args) => {
            lemma_args(q, p, n, r, *args);
            match meaning::i_args(q, n, r, *args) {
                Ends::Many(vs, _) => {
                    assert((q.through)(i, vs) is Some ==> (p.through)(i, vs) == (q.through)(i, vs));
                },
                _ => {},
            }
        },
        _ => {},
    }
}

proof fn lemma_args(q: Sums, p: Sums, n: nat, r: Map<u16, u64>, x: IrArgs)
    requires
        knows(q, p),
    ensures
        stays(meaning::i_args(q, n, r, x), meaning::i_args(p, n, r, x)),
    decreases n, x, 2int,
{
    match x {
        IrArgs::Num(a, rest) => {
            lemma_num(q, p, n, r, *a);
            match meaning::i_num(q, n, r, *a) {
                Ends::Num(_, r1) => lemma_args(q, p, n, r1, *rest),
                _ => {},
            }
        },
        IrArgs::Table(slot, rest) => match meaning::i_local(r, slot) {
            Ends::Num(_, r1) => lemma_args(q, p, n, r1, *rest),
            _ => {},
        },
        _ => {},
    }
}

proof fn lemma_list(q: Sums, p: Sums, n: nat, r: Map<u16, u64>, x: IrList)
    requires
        knows(q, p),
    ensures
        stays(meaning::i_list(q, n, r, x), meaning::i_list(p, n, r, x)),
    decreases n, x, 2int,
{
    match x {
        IrList::Item(a, rest) => {
            lemma_num(q, p, n, r, *a);
            match meaning::i_num(q, n, r, *a) {
                Ends::Num(_, r1) => lemma_list(q, p, n, r1, *rest),
                _ => {},
            }
        },
        _ => {},
    }
}

proof fn lemma_cond(q: Sums, p: Sums, n: nat, r: Map<u16, u64>, x: Cond)
    requires
        knows(q, p),
    ensures
        stays(meaning::i_cond(q, n, r, x), meaning::i_cond(p, n, r, x)),
    decreases n, x, 2int,
{
    match x {
        Cond::Compare(_, a, b) => {
            lemma_num(q, p, n, r, *a);
            match meaning::i_num(q, n, r, *a) {
                Ends::Num(_, r1) => lemma_num(q, p, n, r1, *b),
                _ => {},
            }
        },
        Cond::And(a, b) => {
            lemma_cond(q, p, n, r, *a);
            match meaning::i_cond(q, n, r, *a) {
                Ends::Truth(_, r1) => lemma_cond(q, p, n, r1, *b),
                _ => {},
            }
        },
        Cond::Or(a, b) => {
            lemma_cond(q, p, n, r, *a);
            match meaning::i_cond(q, n, r, *a) {
                Ends::Truth(_, r1) => lemma_cond(q, p, n, r1, *b),
                _ => {},
            }
        },
        Cond::Not(a) => lemma_cond(q, p, n, r, *a),
        _ => {},
    }
}

proof fn lemma_values(q: Sums, p: Sums, n: nat, r: Map<u16, u64>, x: IrValues)
    requires
        knows(q, p),
    ensures
        stays(meaning::i_values(q, n, r, x), meaning::i_values(p, n, r, x)),
    decreases n, x, 2int,
{
    match x {
        IrValues::Num(a, rest) => {
            lemma_num(q, p, n, r, *a);
            match meaning::i_num(q, n, r, *a) {
                Ends::Num(_, r1) => lemma_values(q, p, n, r1, *rest),
                _ => {},
            }
        },
        IrValues::Flag(c, rest) => {
            lemma_cond(q, p, n, r, *c);
            match meaning::i_cond(q, n, r, *c) {
                Ends::Truth(_, r1) => lemma_values(q, p, n, r1, *rest),
                _ => {},
            }
        },
        _ => {},
    }
}

proof fn lemma_stats(q: Sums, p: Sums, n: nat, r: Map<u16, u64>, x: IrStats)
    requires
        knows(q, p),
    ensures
        stays(meaning::i_stats(q, n, r, x), meaning::i_stats(p, n, r, x)),
    decreases n, x, 2int,
{
    match x {
        IrStats::Then(a, rest) => {
            lemma_stat(q, p, n, r, *a);
            match meaning::i_stat(q, n, r, *a) {
                Ends::Done(r1) => lemma_stats(q, p, n, r1, *rest),
                _ => {},
            }
        },
        _ => {},
    }
}

proof fn lemma_tail(q: Sums, p: Sums, n: nat, r: Map<u16, u64>, x: IrTail)
    requires
        knows(q, p),
    ensures
        stays(meaning::i_tail(q, n, r, x), meaning::i_tail(p, n, r, x)),
    decreases n, x, 2int,
{
    match x {
        IrTail::Value(a) => lemma_num(q, p, n, r, *a),
        IrTail::Unit(st) => lemma_stat(q, p, n, r, *st),
        _ => {},
    }
}

proof fn lemma_block(q: Sums, p: Sums, n: nat, r: Map<u16, u64>, x: IrBlock)
    requires
        knows(q, p),
    ensures
        stays(meaning::i_block(q, n, r, x), meaning::i_block(p, n, r, x)),
    decreases n, x, 2int,
{
    lemma_stats(q, p, n, r, x.stats);
    match meaning::i_stats(q, n, r, x.stats) {
        Ends::Done(r1) => lemma_tail(q, p, n, r1, x.tail),
        _ => {},
    }
}

proof fn lemma_if(q: Sums, p: Sums, n: nat, r: Map<u16, u64>, x: IrIf)
    requires
        knows(q, p),
    ensures
        stays(meaning::i_if(q, n, r, x), meaning::i_if(p, n, r, x)),
    decreases n, x, 2int,
{
    lemma_cond(q, p, n, r, x.cond);
    match meaning::i_cond(q, n, r, x.cond) {
        Ends::Truth(v, r1) => if v {
            lemma_block(q, p, n, r1, x.body);
        } else {
            lemma_else(q, p, n, r1, x.rest);
        },
        _ => {},
    }
}

proof fn lemma_else(q: Sums, p: Sums, n: nat, r: Map<u16, u64>, x: IrElse)
    requires
        knows(q, p),
    ensures
        stays(meaning::i_else(q, n, r, x), meaning::i_else(p, n, r, x)),
    decreases n, x, 2int,
{
    match x {
        IrElse::Block(b) => lemma_block(q, p, n, r, *b),
        IrElse::If(i) => lemma_if(q, p, n, r, *i),
        _ => {},
    }
}

proof fn lemma_while(q: Sums, p: Sums, n: nat, r: Map<u16, u64>, c: Option<Cond>, b: IrBlock)
    requires
        knows(q, p),
    ensures
        stays(meaning::i_while(q, n, r, c, b), meaning::i_while(p, n, r, c, b)),
    decreases n, b, 4int,
{
    if n > 0 {
        let m = (n - 1) as nat;
        let test = match c {
            Some(x) => meaning::i_cond(q, m, r, x),
            None => Ends::Truth(true, r),
        };
        match c {
            Some(x) => lemma_cond(q, p, m, r, x),
            None => {},
        }
        match test {
            Ends::Truth(v, r1) => if v {
                lemma_block(q, p, m, r1, b);
                match meaning::i_block(q, m, r1, b) {
                    Ends::Done(r2) => lemma_while(q, p, m, r2, c, b),
                    Ends::Out(_, r2) => lemma_while(q, p, m, r2, c, b),
                    _ => {},
                }
            },
            _ => {},
        }
    }
}

proof fn lemma_count(
    q: Sums,
    p: Sums,
    n: nat,
    r: Map<u16, u64>,
    slot: u16,
    end: u64,
    inclusive: bool,
    label: u32,
    b: IrBlock,
)
    requires
        knows(q, p),
    ensures
        stays(
            meaning::i_count(q, n, r, slot, end, inclusive, label, b),
            meaning::i_count(p, n, r, slot, end, inclusive, label, b),
        ),
    decreases n, b, 4int,
{
    if n > 0 {
        let m = (n - 1) as nat;
        lemma_block(q, p, m, r, b);
        match meaning::i_block(q, m, r, b) {
            Ends::Done(r1) => lemma_stepped(q, p, n, r1, slot, end, inclusive, label, b),
            Ends::Out(_, r1) => lemma_stepped(q, p, n, r1, slot, end, inclusive, label, b),
            _ => {},
        }
    }
}

proof fn lemma_stepped(
    q: Sums,
    p: Sums,
    n: nat,
    r: Map<u16, u64>,
    slot: u16,
    end: u64,
    inclusive: bool,
    label: u32,
    b: IrBlock,
)
    requires
        knows(q, p),
    ensures
        stays(
            meaning::i_stepped(q, n, r, slot, end, inclusive, label, b),
            meaning::i_stepped(p, n, r, slot, end, inclusive, label, b),
        ),
    decreases n, b, 3int,
{
    if n > 0 {
        match meaning::i_local(r, slot) {
            Ends::Num(v, _) => lemma_count(
                q,
                p,
                (n - 1) as nat,
                r.insert(slot, (q.bin)(crate::ast::BinOp::Add, v, crate::machine::ONE)),
                slot,
                end,
                inclusive,
                label,
                b,
            ),
            _ => {},
        }
    }
}

proof fn lemma_stat(q: Sums, p: Sums, n: nat, r: Map<u16, u64>, x: IrStat)
    requires
        knows(q, p),
    ensures
        stays(meaning::i_stat(q, n, r, x), meaning::i_stat(p, n, r, x)),
    decreases n, x, 2int,
{
    match x {
        IrStat::Let { values, .. } => lemma_values(q, p, n, r, values),
        IrStat::Assign { values, .. } => lemma_values(q, p, n, r, values),
        IrStat::Update(_, _, a) => lemma_num(q, p, n, r, a),
        IrStat::Return(Some(a)) => lemma_num(q, p, n, r, a),
        IrStat::While(c, b) => lemma_while(q, p, n, r, Some(c), b),
        IrStat::Loop(b) => lemma_while(q, p, n, r, None, b),
        IrStat::For { slot, start, end, inclusive, label, body } => {
            lemma_num(q, p, n, r, end);
            match meaning::i_num(q, n, r, end) {
                Ends::Num(w, r1) => {
                    lemma_num(q, p, n, r1, start);
                    match meaning::i_num(q, n, r1, start) {
                        Ends::Num(v, r2) => lemma_count(
                            q,
                            p,
                            n,
                            r2.insert(slot, v),
                            slot,
                            w,
                            inclusive,
                            label,
                            body,
                        ),
                        _ => {},
                    }
                },
                _ => {},
            }
        },
        IrStat::Discard(a) => lemma_num(q, p, n, r, a),
        IrStat::Block(b) => lemma_block(q, p, n, r, b),
        IrStat::If(i) => lemma_if(q, p, n, r, i),
        _ => {},
    }
}

// ---- depth by depth ------------------------------------------------------------------------

/// The number an end comes to.
pub open spec fn value_of<M>(a: Ends<M>) -> Option<u64> {
    match a {
        Ends::Num(v, _) => Some(v),
        Ends::Out(Exit::Return(Some(v)), _) => Some(v),
        _ => None,
    }
}

/// The locals of a function that has just been called with these.
pub open spec fn called_with(bs: Seq<Binding>, xs: Seq<u64>) -> Map<u16, Cell> {
    meaning::bound_all(
        Map::empty(),
        walk::slots_of(bs),
        Seq::new(xs.len(), |i: int| Cell::Num(xs[i])),
    )
}

/// Functions that call each other and themselves by their names, and what each
/// was told of the others when it was compiled.
pub ghost struct Family {
    pub fns: Map<Seq<char>, FuncDef>,
    pub told: Map<Seq<char>, Seq<Callable>>,
}

/// What one of them is compiled to.
pub open spec fn unit_named(p: Family, name: Seq<char>) -> Result<unit::UnitView, Seq<char>> {
    unit::unit_of(p.fns[name], None, Some(name), p.told[name])
}

/// May one of them call this?
pub open spec fn may_call(p: Family, name: Seq<char>, other: Seq<char>) -> bool {
    other == name || kinds::callable_at(p.told[name], other, 0) < p.told[name].len()
}

/// The name of what was compiled from a definition.
pub open spec fn name_of_id(cs: Seq<Callable>, id: usize) -> Option<Seq<char>> {
    if exists|i: int| 0 <= i < cs.len() && #[trigger] has_id(cs[i], id) {
        let i = choose|i: int| 0 <= i < cs.len() && #[trigger] has_id(cs[i], id);
        Some(cs[i].name@)
    } else {
        None
    }
}

pub open spec fn has_id(c: Callable, id: usize) -> bool {
    c.def matches Some(d) && d.id == id
}

/// Calls that one of them makes give this, by the name of what is called.
pub open spec fn answering(
    q: Sums,
    p: Family,
    name: Seq<char>,
    give: spec_fn(Seq<char>, Seq<u64>) -> Option<u64>,
) -> Sums {
    let direct = unit_named(p, name)->Ok_0.inlined;
    Sums {
        bin: q.bin,
        math: q.math,
        call: |c: Callee, ys: Seq<u64>|
            match c {
                Callee::Global(other) => if may_call(p, name, other) {
                    give(other, ys)
                } else {
                    None
                },
                Callee::Upval(_) => None,
            },
        own: |ys: Seq<u64>| give(name, ys),
        beside: |id: usize, ys: Seq<u64>|
            match name_of_id(p.told[name], id) {
                Some(other) => give(other, ys),
                None => None,
            },
        through: |i: usize, ys: Seq<u64>|
            if i < direct.len() {
                give(direct[i as int], ys)
            } else {
                None
            },
        direct,
    }
}

/// What one of them gives when it is called with numbers and calls go no deeper
/// than `d`.
pub open spec fn tree_gives(q: Sums, n: nat, p: Family, d: nat, name: Seq<char>, xs: Seq<u64>) -> Option<
    u64,
>
    decreases d, 0int,
{
    let def = p.fns[name];
    if d == 0 || !p.fns.contains_key(name) || xs.len() != def.param_bindings@.len() {
        None
    } else {
        value_of(
            meaning::t_block(
                answering(q, p, name, all_trees(q, n, p, (d - 1) as nat)),
                n,
                called_with(def.param_bindings@, xs),
                def.body,
                !unit::valueless(def.body),
            ),
        )
    }
}

/// The same, as a function of what is called and with what.
pub open spec fn all_trees(q: Sums, n: nat, p: Family, d: nat) -> spec_fn(Seq<char>, Seq<u64>) -> Option<u64>
    decreases d, 1int,
{
    |name: Seq<char>, ys: Seq<u64>| tree_gives(q, n, p, d, name, ys)
}

/// What the code one of them is compiled to gives, when calls go no deeper than
/// `d`.
pub open spec fn code_gives(q: Sums, n: nat, p: Family, d: nat, name: Seq<char>, xs: Seq<u64>) -> Option<
    u64,
>
    decreases d, 0int,
{
    let def = p.fns[name];
    if d == 0 || !p.fns.contains_key(name) || xs.len() != def.param_bindings@.len() {
        None
    } else {
        value_of(
            meaning::i_block(
                answering(q, p, name, all_codes(q, n, p, (d - 1) as nat)),
                n,
                meaning::carry(called_with(def.param_bindings@, xs)),
                unit_named(p, name)->Ok_0.code.body,
            ),
        )
    }
}

pub open spec fn all_codes(q: Sums, n: nat, p: Family, d: nat) -> spec_fn(Seq<char>, Seq<u64>) -> Option<u64>
    decreases d, 1int,
{
    |name: Seq<char>, ys: Seq<u64>| code_gives(q, n, p, d, name, ys)
}

/// One of them compiles: it is on numbers, its places are handed out soundly
/// however it is called, and a definition it was told of goes by one name.
pub open spec fn compiles(p: Family, name: Seq<char>) -> bool {
    let def = p.fns[name];
    let cs = p.told[name];
    let env = unit::function_env(def, None, Some(name), cs);
    let s = unit::function_start(def, env);
    &&& unit_named(p, name) is Ok
    &&& unit_named(p, name)->Ok_0.inlined.len() <= usize::MAX
    &&& faithful::numbers_only(env)
    &&& faithful::placed_block(s.known, s.flags, def.body)
    &&& forall|xs: Seq<u64>|
        xs.len() == def.param_bindings@.len() ==> faithful::held(
            s.known,
            s.flags,
            #[trigger] called_with(def.param_bindings@, xs),
        )
    &&& env.arity == Some(def.param_bindings@.len() as usize)
    &&& env.params.len() == def.param_bindings@.len()
    &&& forall|i: int, j: int, id: usize|
        0 <= i < cs.len() && 0 <= j < cs.len() && #[trigger] has_id(cs[i], id) && #[trigger] has_id(
            cs[j],
            id,
        ) ==> cs[i].name@ == cs[j].name@
}

/// All of them do, and none takes more than can be counted.
pub open spec fn all_compile(p: Family) -> bool {
    forall|name: Seq<char>| #[trigger]
        p.fns.contains_key(name) ==> compiles(p, name) && p.fns[name].param_bindings@.len()
            <= usize::MAX
}

proof fn lemma_callable_at(cs: Seq<Callable>, name: Seq<char>, i: nat)
    ensures
        ({
            let at = kinds::callable_at(cs, name, i);
            at < cs.len() ==> cs[at as int].name@ == name
        }),
    decreases cs.len() - i,
{
    if i < cs.len() && cs[i as int].name@ != name {
        lemma_callable_at(cs, name, i + 1);
    }
}

/// What a call gives is what stands for it in compiled code gives.
proof fn lemma_answers_tied(q: Sums, n: nat, p: Family, d: nat, name: Seq<char>)
    requires
        all_compile(p),
        p.fns.contains_key(name),
    ensures
        faithful::tied(
            answering(q, p, name, all_trees(q, n, p, d)),
            unit::function_env(p.fns[name], None, Some(name), p.told[name]),
        ),
{
    let q1 = answering(q, p, name, all_trees(q, n, p, d));
    let def = p.fns[name];
    let cs = p.told[name];
    let env = unit::function_env(def, None, Some(name), cs);
    assert(compiles(p, name));
    assert forall|c: Callee, ys: Seq<u64>| match #[trigger] meaning::called(q1, c, ys) {
        Some(v) => ys.len() <= usize::MAX && if faithful::own_callee(env, c) && env.arity == Some(
            ys.len() as usize,
        ) && env.params.len() == ys.len() {
            (q1.own)(ys) == Some(v)
        } else {
            c matches Callee::Global(other) && faithful::stands_for(q1, env, other, ys, v)
        },
        None => true,
    } by {
        match (c, meaning::called(q1, c, ys)) {
            (Callee::Global(other), Some(v)) => {
                assert(tree_gives(q, n, p, d, other, ys) == Some(v));
                assert(p.fns.contains_key(other));
                if other != name {
                    let at = kinds::callable_at(cs, other, 0);
                    lemma_callable_at(cs, other, 0);
                    if lowering::beside(cs[at as int], ys.len()) {
                        let id = cs[at as int].def->Some_0.id;
                        assert(has_id(cs[at as int], id));
                        let i = choose|i: int| 0 <= i < cs.len() && #[trigger] has_id(cs[i], id);
                        assert(cs[i].name@ == other);
                        assert(name_of_id(cs, id) == Some(other));
                        assert((q1.beside)(id, ys) == Some(v));
                    } else {
                        assert forall|i: int|
                            0 <= i < q1.direct.len() && #[trigger] q1.direct[i] == other implies (
                        q1.through)(i as usize, ys) == Some(v) by {}
                    }
                }
            },
            _ => {},
        }
    }
}

/// Functions that call each other give what their compiled code gives: whatever
/// one comes to within some depth of calls, the code it is compiled to comes to
/// within the same.
pub proof fn lemma_calls_mean_the_same(
    q: Sums,
    n: nat,
    p: Family,
    d: nat,
    name: Seq<char>,
    xs: Seq<u64>,
)
    requires
        all_compile(p),
        tree_gives(q, n, p, d, name, xs) is Some,
    ensures
        code_gives(q, n, p, d, name, xs) == tree_gives(q, n, p, d, name, xs),
    decreases d, 0int,
{
    let e = (d - 1) as nat;
    let q1 = answering(q, p, name, all_trees(q, n, p, e));
    let q2 = answering(q, p, name, all_codes(q, n, p, e));
    let def = p.fns[name];
    let f = called_with(def.param_bindings@, xs);
    assert(compiles(p, name));
    lemma_answers_tied(q, n, p, e, name);
    lemma_knows(q, n, p, e, name);
    faithful::lemma_function_means_the_same(q1, n, def, None, Some(name), p.told[name], f);
    lemma_block(q1, q2, n, meaning::carry(f), unit_named(p, name)->Ok_0.code.body);
}

proof fn lemma_knows(q: Sums, n: nat, p: Family, e: nat, name: Seq<char>)
    requires
        all_compile(p),
    ensures
        knows(
            answering(q, p, name, all_trees(q, n, p, e)),
            answering(q, p, name, all_codes(q, n, p, e)),
        ),
    decreases e, 1int,
{
    let q1 = answering(q, p, name, all_trees(q, n, p, e));
    let q2 = answering(q, p, name, all_codes(q, n, p, e));
    assert forall|other: Seq<char>, ys: Seq<u64>|
        tree_gives(q, n, p, e, other, ys) is Some implies #[trigger] code_gives(
        q,
        n,
        p,
        e,
        other,
        ys,
    ) == tree_gives(q, n, p, e, other, ys) by {
        lemma_calls_mean_the_same(q, n, p, e, other, ys);
    }
    assert forall|ys: Seq<u64>| match #[trigger] (q1.own)(ys) {
        Some(v) => (q2.own)(ys) == Some(v),
        None => true,
    } by {
        assert((q2.own)(ys) == code_gives(q, n, p, e, name, ys));
    }
    assert forall|id: usize, ys: Seq<u64>| match #[trigger] (q1.beside)(id, ys) {
        Some(v) => (q2.beside)(id, ys) == Some(v),
        None => true,
    } by {
        match name_of_id(p.told[name], id) {
            Some(other) => {
                assert((q2.beside)(id, ys) == code_gives(q, n, p, e, other, ys));
            },
            None => {},
        }
    }
    assert forall|i: usize, ys: Seq<u64>| match #[trigger] (q1.through)(i, ys) {
        Some(v) => (q2.through)(i, ys) == Some(v),
        None => true,
    } by {
        if i < q1.direct.len() {
            assert((q2.through)(i, ys) == code_gives(q, n, p, e, q1.direct[i as int], ys));
        }
    }
}

/// What functions that call each other give is the same either way: within some
/// depth of calls, the compiled code of one gives what it means, and the machine
/// comes to a return of it, where what is called gives what it means one less
/// deep.
pub proof fn lemma_calls_same_either_way(
    q: Sums,
    n: nat,
    p: Family,
    d: nat,
    name: Seq<char>,
    xs: Seq<u64>,
    m: Mach,
)
    requires
        all_compile(p),
        tree_gives(q, n, p, d, name, xs) is Some,
        either::plain_body(p.fns[name].body),
        codegen::g_function(p.fns[name]).bad is None,
        either::entered(m, p.fns[name], called_with(p.fns[name].param_bindings@, xs)),
    ensures
        code_gives(q, n, p, d, name, xs) == tree_gives(q, n, p, d, name, xs),
        exists|k: nat|
            running::gives_back(
                m,
                #[trigger] sums::after(
                    answering(q, p, name, all_trees(q, n, p, (d - 1) as nat)),
                    m,
                    k,
                ),
                tree_gives(q, n, p, d, name, xs),
            ),
{
    lemma_calls_mean_the_same(q, n, p, d, name, xs);
    let q1 = answering(q, p, name, all_trees(q, n, p, (d - 1) as nat));
    let def = p.fns[name];
    let f = called_with(def.param_bindings@, xs);
    either::lemma_machine_means_the_same(q1, n, def, f, m);
    let k = choose|k: nat|
        either::comes_to(
            m,
            #[trigger] sums::after(q1, m, k),
            meaning::t_block(q1, n, f, def.body, !unit::valueless(def.body)),
        );
    assert(running::gives_back(m, sums::after(q1, m, k), tree_gives(q, n, p, d, name, xs)));
}

} // verus!
