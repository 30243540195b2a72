//! Code on numbers that is lowered means what it was read as.
use super::flags;
use super::infer;
use super::ir::{Cond, Ir, IrArgs, IrBlock, IrList};
use super::kinds;
use super::kinds::{Callable, Kind};
use super::lowering;
use super::lowering::{Env, Low};
use super::meaning;
use super::meaning::{Callee, Cell, Ends, Exit, Sums};
use super::slots;
use super::sums;
use super::unit;
use super::unit::LoopBody;
use super::walk;
use crate::ast::{BinOp, Binding, Block, Expr, FuncDef, Stat};
use crate::machine::ONE;
use crate::num;
use vstd::prelude::*;

verus! {

// ---- which code this is about ------------------------------------------------------------

/// Nothing but numbers and flags: no local holds a table.
pub open spec fn numbers_only(env: Env) -> bool {
    &&& env.inner_of.len() == 0
    &&& !env.returns_table
    &&& forall|slot: u16|
        #[trigger] infer::kind_at(env.kinds, slot) matches Some(k) ==> lowering::holds_number(k)
}

/// Does this name the function being compiled?
pub open spec fn own_callee(env: Env, c: Callee) -> bool {
    match c {
        Callee::Upval(i) => env.self_upval == Some(i),
        Callee::Global(name) => env.self_global == Some(name),
    }
}

/// What a call gives is what the compiled code that stands for it gives: this
/// very function, one compiled beside it, or one the runtime keeps.
pub open spec fn tied(q: Sums, env: Env) -> bool {
    &&& q.direct.len() <= usize::MAX
    &&& forall|c: Callee, xs: Seq<u64>|
        match #[trigger] meaning::called(q, c, xs) {
            Some(v) => xs.len() <= usize::MAX && if own_callee(env, c) && env.arity == Some(
                xs.len() as usize,
            ) && env.params.len() == xs.len() {
                (q.own)(xs) == Some(v)
            } else {
                c matches Callee::Global(name) && stands_for(q, env, name, xs, v)
            },
            None => true,
        }
}

/// What a function called by its name gives is what stands for it gives.
pub open spec fn stands_for(q: Sums, env: Env, name: Seq<char>, xs: Seq<u64>, v: u64) -> bool {
    let at = kinds::callable_at(env.callables, name, 0);
    at < env.callables.len() && if lowering::beside(env.callables[at as int], xs.len()) {
        (q.beside)(env.callables[at as int].def->Some_0.id, xs) == Some(v)
    } else {
        forall|i: int|
            0 <= i < q.direct.len() && #[trigger] q.direct[i] == name ==> (q.through)(i as usize, xs)
                == Some(v)
    }
}

/// What has been called directly so far is at its place.
pub open spec fn within(q: Sums, s: Low) -> bool {
    sums::begins(s.inlined, q.direct)
}

/// An expression that changes nothing and goes nowhere.
pub open spec fn quiet(e: Expr) -> bool
    decreases e, 1int,
{
    match e {
        Expr::Num(_) | Expr::Local(..) => true,
        Expr::Un(_, a) => quiet(*a),
        Expr::Bin(_, a, b) => quiet(*a) && quiet(*b),
        Expr::Call(_, args) => quiet_all(args@),
        Expr::Method(obj, _, args) => quiet(*obj) && quiet_all(args@),
        _ => false,
    }
}

pub open spec fn quiet_all(es: Seq<Expr>) -> bool
    decreases es, 2int,
{
    es.len() == 0 || (quiet(es[0]) && quiet_all(es.drop_first()))
}

/// The slots in scope after a statement.
pub open spec fn known_after(known: Seq<u16>, st: Stat) -> Seq<u16> {
    match st {
        Stat::LetSlots(bs, _) => known + walk::slots_of(bs@),
        _ => known,
    }
}

/// Which slots are flags after a statement.
pub open spec fn flags_after(fl: Seq<(u16, bool)>, st: Stat) -> Seq<(u16, bool)> {
    match st {
        Stat::LetSlots(bs, es) => fl + lowering::let_flags(bs@, es@),
        _ => fl,
    }
}

/// The places of locals are handed out soundly in an expression: what it
/// declares takes no place in use that holds a number for a flag, or a flag for
/// a number.
pub open spec fn placed(known: Seq<u16>, fl: Seq<(u16, bool)>, e: Expr) -> bool
    decreases e, 2int, 0int,
{
    match e {
        Expr::Un(_, a) => placed(known, fl, *a),
        Expr::Bin(_, a, b) => placed(known, fl, *a) && placed(known, fl, *b),
        Expr::Call(_, args) => placed_all(known, fl, args@),
        Expr::Method(obj, _, args) => placed(known, fl, *obj) && placed_all(known, fl, args@),
        Expr::Do(b) => placed_block(known, fl, b),
        Expr::If(..) => placed_arms(known, fl, e, 0),
        Expr::Match(..) => false,
        _ => true,
    }
}

pub open spec fn placed_all(known: Seq<u16>, fl: Seq<(u16, bool)>, es: Seq<Expr>) -> bool
    decreases es, 3int, 0int,
{
    es.len() == 0 || (placed(known, fl, es[0]) && placed_all(known, fl, es.drop_first()))
}

pub open spec fn placed_arms(known: Seq<u16>, fl: Seq<(u16, bool)>, e: Expr, i: nat) -> bool
    decreases
            e,
            1int,
            (match e {
                Expr::If(arms, _) => arms@.len() - i,
                _ => 0,
            }),
{
    match e {
        Expr::If(arms, els) => if i < arms@.len() {
            placed(known, fl, arms@[i as int].0) && placed_block(known, fl, arms@[i as int].1)
                && placed_arms(known, fl, e, i + 1)
        } else {
            match els {
                Some(b) => placed_block(known, fl, b),
                None => true,
            }
        },
        _ => true,
    }
}

pub open spec fn placed_block(known: Seq<u16>, fl: Seq<(u16, bool)>, b: Block) -> bool
    decreases b, 3int, 0int,
{
    placed_stats(known, fl, b.stats@) && match b.tail {
        Some(e) => placed(known_at_end(known, b.stats@), flags_at_end(fl, b.stats@), *e),
        None => true,
    }
}

/// The slots in scope after some statements.
pub open spec fn known_at_end(known: Seq<u16>, stats: Seq<Stat>) -> Seq<u16>
    decreases stats.len(),
{
    if stats.len() == 0 {
        known
    } else {
        known_at_end(known_after(known, stats[0]), stats.drop_first())
    }
}

/// Which slots are flags after some statements.
pub open spec fn flags_at_end(fl: Seq<(u16, bool)>, stats: Seq<Stat>) -> Seq<(u16, bool)>
    decreases stats.len(),
{
    if stats.len() == 0 {
        fl
    } else {
        flags_at_end(flags_after(fl, stats[0]), stats.drop_first())
    }
}

pub open spec fn placed_stats(known: Seq<u16>, fl: Seq<(u16, bool)>, stats: Seq<Stat>) -> bool
    decreases stats, 3int, 0int,
{
    stats.len() == 0 || (placed_stat(known, fl, stats[0]) && placed_stats(
        known_after(known, stats[0]),
        flags_after(fl, stats[0]),
        stats.drop_first(),
    ))
}

/// The places of locals are handed out soundly in a statement. The bounds of a
/// counted loop change nothing: compiled code works out the last of them first.
pub open spec fn placed_stat(known: Seq<u16>, fl: Seq<(u16, bool)>, st: Stat) -> bool
    decreases st, 3int, 0int,
{
    match st {
        Stat::LetSlots(bs, es) => placed_all(known, fl, es@) && walk::slots_of(bs@).no_duplicates()
            && forall|i: int|
            0 <= i < bs@.len() && known.contains((#[trigger] bs@[i]).slot) ==> i < es@.len()
                && lowering::flag(fl, bs@[i].slot) == flags::bool_like(es@[i]),
        Stat::Assign(_, es) => placed_all(known, fl, es@),
        Stat::OpAssign(_, _, e) => placed(known, fl, e),
        Stat::Return(es) => placed_all(known, fl, es@),
        Stat::While(_, c, b) => placed(known, fl, c) && placed_block(known, fl, b),
        Stat::Loop(_, b) => placed_block(known, fl, b),
        Stat::ForRange { id, var, binding, start, end, inclusive, body } => match binding {
            Some(b) => quiet(start) && quiet(end) && placed(known, fl, start) && placed(
                known,
                fl,
                end,
            ) && !lowering::flag(fl, b.slot) && placed_block(known.push(b.slot), fl, body),
            None => true,
        },
        Stat::Expr(e) => placed(known, fl, e),
        _ => true,
    }
}

// ---- what both sides agree on ------------------------------------------------------------

/// Every slot in scope holds something, and a flag exactly if it is one.
pub open spec fn held(known: Seq<u16>, fl: Seq<(u16, bool)>, f: Map<u16, Cell>) -> bool {
    forall|slot: u16| #[trigger]
        known.contains(slot) ==> f.contains_key(slot) && (lowering::flag(fl, slot)
            == f[slot] is Flag)
}

/// What was a flag still is one, and what was a number a number.
pub open spec fn kept(known: Seq<u16>, f: Map<u16, Cell>, g: Map<u16, Cell>) -> bool {
    forall|slot: u16| #[trigger]
        known.contains(slot) ==> g.contains_key(slot) && (g[slot] is Flag == f[slot] is Flag)
}

/// Where compiled code goes when the tree goes there.
pub open spec fn leads(labels: Seq<Option<u32>>, x: Exit) -> Exit {
    match x {
        Exit::Next(_) => Exit::Next(
            if labels.len() > 0 {
                labels.last()
            } else {
                None
            },
        ),
        other => other,
    }
}

/// How compiled code ends when the tree ends so.
pub open spec fn image(labels: Seq<Option<u32>>, a: Ends<Map<u16, Cell>>) -> Ends<Map<u16, u64>> {
    match a {
        Ends::Num(x, f) => Ends::Num(x, meaning::carry(f)),
        Ends::Truth(x, f) => Ends::Truth(x, meaning::carry(f)),
        Ends::Many(xs, f) => Ends::Many(xs, meaning::carry(f)),
        Ends::Cells(cs, f) => Ends::Many(meaning::carry_all(cs), meaning::carry(f)),
        Ends::Done(f) => Ends::Done(meaning::carry(f)),
        Ends::Out(x, f) => Ends::Out(leads(labels, x), meaning::carry(f)),
        Ends::Wrong => Ends::Wrong,
        Ends::Late => Ends::Late,
    }
}

/// The locals at an end.
pub open spec fn frame(a: Ends<Map<u16, Cell>>) -> Map<u16, Cell> {
    match a {
        Ends::Num(_, f) => f,
        Ends::Truth(_, f) => f,
        Ends::Many(_, f) => f,
        Ends::Cells(_, f) => f,
        Ends::Done(f) => f,
        Ends::Out(_, f) => f,
        _ => Map::empty(),
    }
}

/// The tree does not end, or not as code on numbers.
pub open spec fn open_end(a: Ends<Map<u16, Cell>>) -> bool {
    a is Wrong || a is Late
}

/// Compiled code ends as the tree does, and the locals keep what they are.
pub open spec fn agree(
    labels: Seq<Option<u32>>,
    known: Seq<u16>,
    f: Map<u16, Cell>,
    a: Ends<Map<u16, Cell>>,
    b: Ends<Map<u16, u64>>,
) -> bool {
    open_end(a) || (b == image(labels, a) && kept(known, f, frame(a)))
}

/// Lowering leaves the scope as it was.
pub open spec fn same_scope(s: Low, t: Low) -> bool {
    &&& t.known == s.known
    &&& t.flags == s.flags
    &&& t.labels == s.labels
    &&& t.ret_slot is None
    &&& sums::begins(s.inlined, t.inlined)
}

proof fn lemma_kept(known: Seq<u16>, fl: Seq<(u16, bool)>, f: Map<u16, Cell>, g: Map<u16, Cell>)
    requires
        held(known, fl, f),
        kept(known, f, g),
    ensures
        held(known, fl, g),
{
}

proof fn lemma_kept_on(known: Seq<u16>, f: Map<u16, Cell>, g: Map<u16, Cell>, h: Map<u16, Cell>)
    requires
        kept(known, f, g),
        kept(known, g, h),
    ensures
        kept(known, f, h),
{
}

/// What is held can be read as it is carried.
proof fn lemma_carried(f: Map<u16, Cell>, slot: u16)
    ensures
        meaning::carry(f).contains_key(slot) == f.contains_key(slot),
        f.contains_key(slot) ==> meaning::carry(f)[slot] == meaning::carried(f[slot]),
{
}

pub(super) proof fn lemma_carry_insert(f: Map<u16, Cell>, slot: u16, c: Cell)
    ensures
        meaning::carry(f.insert(slot, c)) == meaning::carry(f).insert(slot, meaning::carried(c)),
{
    assert(meaning::carry(f.insert(slot, c)) =~= meaning::carry(f).insert(
        slot,
        meaning::carried(c),
    ));
}

proof fn lemma_carry_cons(c: Cell, cs: Seq<Cell>)
    ensures
        meaning::carry_all(seq![c] + cs) == seq![meaning::carried(c)] + meaning::carry_all(cs),
{
    assert(meaning::carry_all(seq![c] + cs) =~= seq![meaning::carried(c)] + meaning::carry_all(cs));
}

/// A flag is carried so that it can be told.
proof fn lemma_flag_told(b: bool)
    ensures
        !num::equal(meaning::carried(Cell::Flag(b)), 0) == b,
{
    assert(0x3ff0_0000_0000_0000u64 & 0x7fff_ffff_ffff_ffff == 0x3ff0_0000_0000_0000u64)
        by (bit_vector);
    assert(0u64 & 0x7fff_ffff_ffff_ffff == 0u64) by (bit_vector);
}

/// No expression is a table here.
proof fn lemma_no_tables(env: Env, s: Low, e: Expr)
    requires
        numbers_only(env),
    ensures
        !lowering::is_table(env, e),
        !lowering::is_table_write(env, e),
        lowering::element_of(env, s, e) is None,
{
    match e {
        Expr::Local(b, _) => {
            let k = infer::kind_at(env.kinds, b.slot);
            assert(k matches Some(k) ==> lowering::holds_number(k));
        },
        Expr::Index(t, _) => {
            match *t {
                Expr::Local(b, _) => {
                    let k = infer::kind_at(env.kinds, b.slot);
                    assert(k matches Some(k) ==> lowering::holds_number(k));
                },
                _ => {},
            }
        },
        _ => {},
    }
}

// ---- expressions -------------------------------------------------------------------------

/// Is there a number at this end, if it is one?
pub open spec fn ends_num(a: Ends<Map<u16, Cell>>) -> bool {
    a is Num || a is Out || open_end(a)
}

pub open spec fn ends_truth(a: Ends<Map<u16, Cell>>) -> bool {
    a is Truth || a is Out || open_end(a)
}

pub open spec fn ends_many(a: Ends<Map<u16, Cell>>) -> bool {
    a is Many || a is Out || open_end(a)
}

pub open spec fn ends_cells(a: Ends<Map<u16, Cell>>) -> bool {
    a is Cells || a is Out || open_end(a)
}

pub open spec fn ends_done(a: Ends<Map<u16, Cell>>) -> bool {
    a is Done || a is Out || open_end(a)
}

/// A block ends in a number if one is wanted, and is done if not.
pub open spec fn ends_as(a: Ends<Map<u16, Cell>>, want: bool) -> bool {
    if want {
        ends_num(a)
    } else {
        ends_done(a)
    }
}

/// A quiet expression leaves the locals alone and goes on.
pub proof fn lemma_quiet(q: Sums, n: nat, f: Map<u16, Cell>, e: Expr)
    requires
        quiet(e),
    ensures
        match meaning::t_expr(q, n, f, e) {
            Ends::Num(_, g) => g == f,
            Ends::Wrong | Ends::Late => true,
            _ => false,
        },
    decreases e, 1int,
{
    match e {
        Expr::Un(_, a) => lemma_quiet(q, n, f, *a),
        Expr::Bin(_, a, b) => {
            lemma_quiet(q, n, f, *a);
            lemma_quiet(q, n, f, *b);
        },
        Expr::Call(_, args) => lemma_quiet_all(q, n, f, args@),
        Expr::Method(obj, _, args) => {
            lemma_quiet(q, n, f, *obj);
            lemma_quiet_all(q, n, f, args@);
        },
        _ => {},
    }
}

proof fn lemma_quiet_all(q: Sums, n: nat, f: Map<u16, Cell>, es: Seq<Expr>)
    requires
        quiet_all(es),
    ensures
        match meaning::t_exprs(q, n, f, es) {
            Ends::Many(_, g) => g == f,
            Ends::Wrong | Ends::Late => true,
            _ => false,
        },
    decreases es, 2int,
{
    if es.len() > 0 {
        lemma_quiet(q, n, f, es[0]);
        lemma_quiet_all(q, n, f, es.drop_first());
    }
}

/// A number that is lowered is the number that was read.
pub open spec fn expr_agrees(q: Sums, n: nat, env: Env, s: Low, f: Map<u16, Cell>, e: Expr) -> bool {
    match lowering::l_expr(env, s, e) {
        Ok((s1, x)) => {
            let a = meaning::t_expr(q, n, f, e);
            &&& same_scope(s, s1)
            &&& ends_num(a)
            &&& held(s.known, s.flags, f) && within(q, s1) ==> agree(
                s.labels,
                s.known,
                f,
                a,
                meaning::i_num(q, n, meaning::carry(f), x),
            )
        },
        Err(_) => true,
    }
}

pub open spec fn exprs_agree(
    q: Sums,
    n: nat,
    env: Env,
    s: Low,
    f: Map<u16, Cell>,
    es: Seq<Expr>,
) -> bool {
    match lowering::l_exprs(env, s, es) {
        Ok((s1, x)) => {
            let a = meaning::t_exprs(q, n, f, es);
            &&& same_scope(s, s1)
            &&& ends_many(a)
            &&& a matches Ends::Many(xs, _) ==> xs.len() == es.len()
            &&& held(s.known, s.flags, f) && within(q, s1) ==> agree(
                s.labels,
                s.known,
                f,
                a,
                meaning::i_list(q, n, meaning::carry(f), x),
            )
        },
        Err(_) => true,
    }
}

pub open spec fn cond_agrees(q: Sums, n: nat, env: Env, s: Low, f: Map<u16, Cell>, e: Expr) -> bool {
    match lowering::l_truthy(env, s, e) {
        Ok((s1, x)) => {
            let a = meaning::t_cond(q, n, f, e);
            &&& same_scope(s, s1)
            &&& ends_truth(a)
            &&& held(s.known, s.flags, f) && within(q, s1) ==> agree(
                s.labels,
                s.known,
                f,
                a,
                meaning::i_cond(q, n, meaning::carry(f), x),
            )
        },
        Err(_) => true,
    }
}

pub open spec fn if_agrees(
    q: Sums,
    n: nat,
    env: Env,
    s: Low,
    f: Map<u16, Cell>,
    e: Expr,
    i: nat,
    want: bool,
) -> bool {
    match lowering::l_if(env, s, e, i, want) {
        Ok((s1, x)) => {
            let a = meaning::t_if(q, n, f, e, i, want);
            &&& same_scope(s, s1)
            &&& ends_as(a, want)
            &&& held(s.known, s.flags, f) && within(q, s1) ==> agree(
                s.labels,
                s.known,
                f,
                a,
                meaning::i_if(q, n, meaning::carry(f), x),
            )
        },
        Err(_) => true,
    }
}

pub open spec fn block_agrees(
    q: Sums,
    n: nat,
    env: Env,
    s: Low,
    f: Map<u16, Cell>,
    b: Block,
    want: bool,
) -> bool {
    match lowering::l_block(env, s, b, want) {
        Ok((s1, x)) => {
            let a = meaning::t_block(q, n, f, b, want);
            &&& same_scope(s, s1)
            &&& ends_as(a, want)
            &&& held(s.known, s.flags, f) && within(q, s1) ==> agree(
                s.labels,
                s.known,
                f,
                a,
                meaning::i_block(q, n, meaning::carry(f), x),
            )
        },
        Err(_) => true,
    }
}

proof fn lemma_expr(q: Sums, n: nat, env: Env, s: Low, f: Map<u16, Cell>, e: Expr)
    requires
        numbers_only(env),
        tied(q, env),
        s.ret_slot is None,
        placed(s.known, s.flags, e),
    ensures
        expr_agrees(q, n, env, s, f, e),
    decreases n, e, 2int, 0int,
{
    match e {
        Expr::Local(b, _) => {
            lemma_carried(f, b.slot);
        },
        Expr::Un(_, a) => {
            lemma_expr(q, n, env, s, f, *a);
        },
        Expr::Bin(..) => {
            lemma_binary(q, n, env, s, f, e);
        },
        Expr::Call(..) => {
            lemma_call(q, n, env, s, f, e);
        },
        Expr::Method(..) => {
            lemma_method(q, n, env, s, f, e);
        },
        Expr::Do(b) => {
            lemma_block(q, n, env, s, f, b, true);
        },
        Expr::If(..) => {
            lemma_if(q, n, env, s, f, e, 0, true);
        },
        Expr::Index(obj, _) => {
            assert(lowering::l_expr(env, s, e) == lowering::l_index(env, s, e));
            lemma_no_tables(env, s, *obj);
        },
        _ => {},
    }
}

proof fn lemma_binary(q: Sums, n: nat, env: Env, s: Low, f: Map<u16, Cell>, e: Expr)
    requires
        numbers_only(env),
        tied(q, env),
        s.ret_slot is None,
        placed(s.known, s.flags, e),
        e is Bin,
    ensures
        expr_agrees(q, n, env, s, f, e),
    decreases n, e, 1int, 0int,
{
    match e {
        Expr::Bin(op, a, b) => {
            assert(lowering::l_expr(env, s, e) == lowering::l_binary(env, s, e));
            lemma_expr(q, n, env, s, f, *a);
            match lowering::l_expr(env, s, *a) {
                Ok((s1, _)) => {
                    let g = frame(meaning::t_expr(q, n, f, *a));
                    lemma_expr(q, n, env, s1, g, *b);
                },
                Err(_) => {},
            }
        },
        _ => {},
    }
}

proof fn lemma_call(q: Sums, n: nat, env: Env, s: Low, f: Map<u16, Cell>, e: Expr)
    requires
        numbers_only(env),
        tied(q, env),
        s.ret_slot is None,
        placed(s.known, s.flags, e),
        e is Call,
    ensures
        expr_agrees(q, n, env, s, f, e),
    decreases n, e, 1int, 0int,
{
    match e {
        Expr::Call(g, args) => {
            assert(lowering::l_expr(env, s, e) == lowering::l_call(env, s, e));
            lemma_exprs(q, n, env, s, f, args@);
            if lowering::math_name(*g) is None {
                lemma_called(q, n, env, s, f, e);
            }
            match lowering::l_exprs(env, s, args@) {
                Ok((s1, IrList::Item(recv, rest))) => {
                    assert(args@.len() > 0);
                    let x = IrList::Item(recv, rest);
                    let r = meaning::carry(f);
                    match lowering::math_name(*g) {
                        Some(k) => {
                            assert(lowering::l_call(env, s, e) == lowering::l_math(
                                s1,
                                k,
                                *recv,
                                *rest,
                                (args@.len() - 1) as nat,
                            ));
                            let a = meaning::t_exprs(q, n, f, args@);
                            assert(meaning::t_expr(q, n, f, e) == match a {
                                Ends::Many(xs, f1) => meaning::t_math(q, k, xs, f1),
                                other => meaning::passed(other),
                            });
                            if held(s.known, s.flags, f) && within(q, s1) && !open_end(a) {
                                assert(meaning::i_list(q, n, r, x) == image(s.labels, a));
                            }
                            match lowering::math_fn(k) {
                                Some((h, want)) => {
                                    if want == args@.len() - 1 {
                                        let ir = Ir::Math(h, recv, rest);
                                        assert(lowering::l_call(env, s, e) == Ok::<(Low, Ir), Seq<char>>((s1, ir)));
                                        assert(meaning::i_num(q, n, r, ir) == match meaning::i_list(q, n, r, x) {
                                            Ends::Many(vs, r2) => Ends::Num((q.math)(h, vs), r2),
                                            other => meaning::passed(other),
                                        });
                                    }
                                },
                                None => {},
                            }
                        },
                        None => {},
                    }
                },
                _ => {},
            }
        },
        _ => {},
    }
}

/// A call of compiled code.
proof fn lemma_called(q: Sums, n: nat, env: Env, s: Low, f: Map<u16, Cell>, e: Expr)
    requires
        numbers_only(env),
        tied(q, env),
        s.ret_slot is None,
        placed(s.known, s.flags, e),
        e matches Expr::Call(g, _) && lowering::math_name(*g) is None,
    ensures
        expr_agrees(q, n, env, s, f, e),
    decreases n, e, 0int, 0int,
{
    match e {
        Expr::Call(g, args) => {
            assert(lowering::l_expr(env, s, e) == lowering::l_call(env, s, e));
            let a = meaning::t_exprs(q, n, f, args@);
            let c = meaning::callee_of(*g);
            if c is Some {
                assert(meaning::t_expr(q, n, f, e) == match a {
                    Ends::Many(xs, f1) => meaning::gave(meaning::called(q, c->Some_0, xs), f1),
                    other => meaning::passed(other),
                });
                assert(own_callee(env, c->Some_0) == lowering::is_self(env, *g));
            }
            let r = meaning::carry(f);
            let own = lowering::is_self(env, *g) && env.arity == Some(args@.len() as usize)
                && env.params.len() == args@.len();
            if own {
                lemma_args(q, n, env, s, f, args@, env.params, true);
                match lowering::l_args(env, s, args@, env.params, true) {
                    Ok((s1, xs)) => {
                        let x = Ir::CallSelf(Box::new(xs));
                        assert(meaning::i_num(q, n, r, x) == match meaning::i_args(q, n, r, xs) {
                            Ends::Many(vs, r1) => meaning::gave((q.own)(vs), r1),
                            other => meaning::passed(other),
                        });
                    },
                    Err(_) => {},
                }
            } else {
                match *g {
                    Expr::Global(name, _) => {
                        let at = kinds::callable_at(env.callables, name@, 0);
                        if at < env.callables.len() {
                            let c = env.callables[at as int];
                            if lowering::beside(c, args@.len()) {
                                lemma_numbers(
                                    q,
                                    n,
                                    env,
                                    lowering::with_beside(env, s, at as usize, name@),
                                    f,
                                    args@,
                                );
                                let t = lowering::with_beside(env, s, at as usize, name@);
                                match lowering::l_numbers(env, t, args@) {
                                    Ok((s1, xs)) => {
                                        let id = c.def->Some_0.id;
                                        let x = Ir::CallBeside(id, Box::new(xs));
                                        assert(meaning::i_num(q, n, r, x) == match meaning::i_args(
                                            q,
                                            n,
                                            r,
                                            xs,
                                        ) {
                                            Ends::Many(vs, r1) => meaning::gave(
                                                (q.beside)(id, vs),
                                                r1,
                                            ),
                                            other => meaning::passed(other),
                                        });
                                    },
                                    Err(_) => {},
                                }
                            } else if c.kinds@.len() == args@.len() {
                                lemma_args(q, n, env, s, f, args@, c.kinds@, false);
                                match lowering::l_args(env, s, args@, c.kinds@, false) {
                                    Ok((s1, xs)) => {
                                        let i = lowering::name_at(s1.inlined, name@, 0);
                                        let x = Ir::CallThrough(i as usize, Box::new(xs));
                                        assert(meaning::i_num(q, n, r, x) == match meaning::i_args(
                                            q,
                                            n,
                                            r,
                                            xs,
                                        ) {
                                            Ends::Many(vs, r1) => meaning::gave(
                                                (q.through)(i as usize, vs),
                                                r1,
                                            ),
                                            other => meaning::passed(other),
                                        });
                                        lemma_name_at(s1.inlined, name@, 0);
                                        let end = lowering::l_call(env, s, e)->Ok_0.0;
                                        assert(end.inlined[i as int] == name@);
                                        if within(q, end) {
                                            assert(q.direct[i as int] == name@);
                                            assert(within(q, s1));
                                        }
                                    },
                                    Err(_) => {},
                                }
                            }
                        }
                    },
                    _ => {},
                }
            }
        },
        _ => {},
    }
}

proof fn lemma_name_at(s: Seq<Seq<char>>, name: Seq<char>, i: nat)
    ensures
        ({
            let at = lowering::name_at(s, name, i);
            at < s.len() ==> s[at as int] == name
        }),
        i <= s.len() ==> lowering::name_at(s, name, i) <= s.len(),
    decreases s.len() - i,
{
    if i < s.len() && s[i as int] != name {
        lemma_name_at(s, name, i + 1);
    }
}

/// Arguments that are lowered are the numbers that were read.
pub open spec fn args_agree(
    q: Sums,
    n: nat,
    s: Low,
    f: Map<u16, Cell>,
    es: Seq<Expr>,
    r: lowering::Lowered<IrArgs>,
) -> bool {
    match r {
        Ok((s1, x)) => {
            let a = meaning::t_exprs(q, n, f, es);
            &&& same_scope(s, s1)
            &&& ends_many(a)
            &&& a matches Ends::Many(xs, _) ==> xs.len() == es.len()
            &&& held(s.known, s.flags, f) && within(q, s1) ==> agree(
                s.labels,
                s.known,
                f,
                a,
                meaning::i_args(q, n, meaning::carry(f), x),
            )
        },
        Err(_) => true,
    }
}

proof fn lemma_args(
    q: Sums,
    n: nat,
    env: Env,
    s: Low,
    f: Map<u16, Cell>,
    es: Seq<Expr>,
    ks: Seq<Kind>,
    own: bool,
)
    requires
        numbers_only(env),
        tied(q, env),
        s.ret_slot is None,
        placed_all(s.known, s.flags, es),
        ks.len() == es.len(),
    ensures
        args_agree(q, n, s, f, es, lowering::l_args(env, s, es, ks, own)),
    decreases n, es, 3int, 0int,
{
    if es.len() > 0 {
        if ks[0] == Kind::Num {
            lemma_expr(q, n, env, s, f, es[0]);
            match lowering::l_expr(env, s, es[0]) {
                Ok((s1, _)) => {
                    let g = frame(meaning::t_expr(q, n, f, es[0]));
                    lemma_args(q, n, env, s1, g, es.drop_first(), ks.drop_first(), own);
                },
                Err(_) => {},
            }
        } else {
            match es[0] {
                Expr::Local(b, _) => {
                    lemma_carried(f, b.slot);
                    lemma_args(q, n, env, s, f, es.drop_first(), ks.drop_first(), own);
                },
                _ => {},
            }
        }
    }
}

proof fn lemma_numbers(q: Sums, n: nat, env: Env, s: Low, f: Map<u16, Cell>, es: Seq<Expr>)
    requires
        numbers_only(env),
        tied(q, env),
        s.ret_slot is None,
        placed_all(s.known, s.flags, es),
    ensures
        args_agree(q, n, s, f, es, lowering::l_numbers(env, s, es)),
    decreases n, es, 3int, 0int,
{
    if es.len() > 0 {
        lemma_expr(q, n, env, s, f, es[0]);
        match lowering::l_expr(env, s, es[0]) {
            Ok((s1, _)) => {
                let g = frame(meaning::t_expr(q, n, f, es[0]));
                lemma_numbers(q, n, env, s1, g, es.drop_first());
            },
            Err(_) => {},
        }
    }
}

proof fn lemma_method(q: Sums, n: nat, env: Env, s: Low, f: Map<u16, Cell>, e: Expr)
    requires
        numbers_only(env),
        tied(q, env),
        s.ret_slot is None,
        placed(s.known, s.flags, e),
        e is Method,
    ensures
        expr_agrees(q, n, env, s, f, e),
    decreases n, e, 1int, 0int,
{
    match e {
        Expr::Method(obj, name, args) => {
            assert(lowering::l_expr(env, s, e) == lowering::l_method(env, s, e));
            lemma_no_tables(env, s, *obj);
            lemma_expr(q, n, env, s, f, *obj);
            match lowering::l_expr(env, s, *obj) {
                Ok((s1, _)) => {
                    let g = frame(meaning::t_expr(q, n, f, *obj));
                    lemma_exprs(q, n, env, s1, g, args@);
                },
                Err(_) => {},
            }
        },
        _ => {},
    }
}

proof fn lemma_exprs(q: Sums, n: nat, env: Env, s: Low, f: Map<u16, Cell>, es: Seq<Expr>)
    requires
        numbers_only(env),
        tied(q, env),
        s.ret_slot is None,
        placed_all(s.known, s.flags, es),
    ensures
        exprs_agree(q, n, env, s, f, es),
    decreases n, es, 3int, 0int,
{
    if es.len() > 0 {
        lemma_expr(q, n, env, s, f, es[0]);
        match lowering::l_expr(env, s, es[0]) {
            Ok((s1, _)) => {
                let g = frame(meaning::t_expr(q, n, f, es[0]));
                lemma_exprs(q, n, env, s1, g, es.drop_first());
            },
            Err(_) => {},
        }
    }
}

pub(super) proof fn lemma_cond(q: Sums, n: nat, env: Env, s: Low, f: Map<u16, Cell>, e: Expr)
    requires
        numbers_only(env),
        tied(q, env),
        s.ret_slot is None,
        placed(s.known, s.flags, e),
    ensures
        cond_agrees(q, n, env, s, f, e),
    decreases n, e, 2int, 0int,
{
    match e {
        Expr::Bin(op, a, b) => {
            if flags::compares(op) {
                lemma_expr(q, n, env, s, f, *a);
                match lowering::l_expr(env, s, *a) {
                    Ok((s1, _)) => {
                        let g = frame(meaning::t_expr(q, n, f, *a));
                        lemma_expr(q, n, env, s1, g, *b);
                    },
                    Err(_) => {},
                }
            } else {
                lemma_cond(q, n, env, s, f, *a);
                match lowering::l_truthy(env, s, *a) {
                    Ok((s1, _)) => {
                        let g = frame(meaning::t_cond(q, n, f, *a));
                        lemma_cond(q, n, env, s1, g, *b);
                    },
                    Err(_) => {},
                }
            }
        },
        Expr::Un(_, a) => {
            lemma_cond(q, n, env, s, f, *a);
        },
        Expr::Local(b, _) => {
            lemma_carried(f, b.slot);
            if f.contains_key(b.slot) {
                match f[b.slot] {
                    Cell::Flag(x) => lemma_flag_told(x),
                    _ => {},
                }
            }
        },
        _ => {},
    }
}

proof fn lemma_if(
    q: Sums,
    n: nat,
    env: Env,
    s: Low,
    f: Map<u16, Cell>,
    e: Expr,
    i: nat,
    want: bool,
)
    requires
        numbers_only(env),
        tied(q, env),
        s.ret_slot is None,
        placed_arms(s.known, s.flags, e, i),
    ensures
        if_agrees(q, n, env, s, f, e, i, want),
    decreases
            n,
            e,
            1int,
            (match e {
                Expr::If(arms, _) => arms@.len() - i,
                _ => 0,
            }),
{
    match e {
        Expr::If(arms, els) => if i < arms@.len() {
            let (c, b) = arms@[i as int];
            lemma_cond(q, n, env, s, f, c);
            match lowering::l_truthy(env, s, c) {
                Ok((s1, _)) => {
                    let g = frame(meaning::t_cond(q, n, f, c));
                    lemma_block(q, n, env, s1, g, b, want);
                    match lowering::l_block(env, s1, b, want) {
                        Ok((s2, _)) => {
                            if i + 1 < arms@.len() {
                                lemma_if(q, n, env, s2, g, e, i + 1, want);
                            } else {
                                match els {
                                    Some(rest) => {
                                        assert(placed_arms(s.known, s.flags, e, i + 1));
                                        lemma_block(q, n, env, s2, g, rest, want);
                                    },
                                    None => {},
                                }
                            }
                        },
                        Err(_) => {},
                    }
                },
                Err(_) => {},
            }
        },
        _ => {},
    }
}

proof fn lemma_block(
    q: Sums,
    n: nat,
    env: Env,
    s: Low,
    f: Map<u16, Cell>,
    b: Block,
    want: bool,
)
    requires
        numbers_only(env),
        tied(q, env),
        s.ret_slot is None,
        placed_block(s.known, s.flags, b),
    ensures
        block_agrees(q, n, env, s, f, b, want),
    decreases n, b, 3int, 0int,
{
    assert(Low { ret_slot: None, ..s } == s);
    lemma_stats(q, n, env, s, f, b.stats@);
    lemma_all_grow(s.known, b.stats@);
    match lowering::l_stats(env, s, b.stats@) {
        Ok((s1, _)) => {
            let g = frame(meaning::t_stats(q, n, f, b.stats@));
            match b.tail {
                Some(e) => {
                    if want {
                        lemma_expr(q, n, env, s1, g, *e);
                    } else {
                        lemma_unit(q, n, env, s1, g, *e);
                    }
                },
                None => {},
            }
            assert(lowering::l_block(env, s, b, want) == match lowering::l_tail(
                env,
                s1,
                b,
                want,
                None,
            ) {
                Ok((s2, tail)) => Ok(
                    (
                        Low { known: s.known, flags: s.flags, ..s2 },
                        IrBlock {
                            stats: lowering::l_stats(env, s, b.stats@)->Ok_0.1,
                            tail,
                        },
                    ),
                ),
                Err(m) => Err(m),
            });
        },
        Err(_) => {},
    }
}

// ---- statements --------------------------------------------------------------------------

pub open spec fn unit_agrees(q: Sums, n: nat, env: Env, s: Low, f: Map<u16, Cell>, e: Expr) -> bool {
    match lowering::l_unit(env, s, e) {
        Ok((s1, x)) => {
            let a = meaning::t_unit(q, n, f, e);
            &&& same_scope(s, s1)
            &&& ends_done(a)
            &&& held(s.known, s.flags, f) && within(q, s1) ==> agree(
                s.labels,
                s.known,
                f,
                a,
                meaning::i_stat(q, n, meaning::carry(f), x),
            )
        },
        Err(_) => true,
    }
}

/// A statement that is lowered does what was read, and what it brings into
/// scope holds what it is taken to.
pub open spec fn stat_agrees(q: Sums, n: nat, env: Env, s: Low, f: Map<u16, Cell>, st: Stat) -> bool {
    match lowering::l_stat(env, s, st) {
        Ok((s1, x)) => {
            let a = meaning::t_stat(q, n, f, st);
            &&& s1.known == known_after(s.known, st)
            &&& s1.flags == flags_after(s.flags, st)
            &&& s1.labels == s.labels
            &&& s1.ret_slot is None
            &&& sums::begins(s.inlined, s1.inlined)
            &&& ends_done(a)
            &&& held(s.known, s.flags, f) && within(q, s1) ==> agree(
                s.labels,
                s.known,
                f,
                a,
                meaning::i_stat(q, n, meaning::carry(f), x),
            ) && (a matches Ends::Done(g) ==> held(s1.known, s1.flags, g))
        },
        Err(_) => true,
    }
}

pub open spec fn stats_agree(
    q: Sums,
    n: nat,
    env: Env,
    s: Low,
    f: Map<u16, Cell>,
    stats: Seq<Stat>,
) -> bool {
    match lowering::l_stats(env, s, stats) {
        Ok((s1, x)) => {
            let a = meaning::t_stats(q, n, f, stats);
            &&& s1.known == known_at_end(s.known, stats)
            &&& s1.flags == flags_at_end(s.flags, stats)
            &&& s1.labels == s.labels
            &&& s1.ret_slot is None
            &&& sums::begins(s.inlined, s1.inlined)
            &&& ends_done(a)
            &&& held(s.known, s.flags, f) && within(q, s1) ==> agree(
                s.labels,
                s.known,
                f,
                a,
                meaning::i_stats(q, n, meaning::carry(f), x),
            ) && (a matches Ends::Done(g) ==> held(s1.known, s1.flags, g))
        },
        Err(_) => true,
    }
}

pub open spec fn values_agree(
    q: Sums,
    n: nat,
    env: Env,
    s: Low,
    f: Map<u16, Cell>,
    es: Seq<Expr>,
) -> bool {
    match lowering::l_values(env, s, es) {
        Ok((s1, x)) => {
            let a = meaning::t_values(q, n, f, es);
            &&& same_scope(s, s1)
            &&& ends_cells(a)
            &&& a matches Ends::Cells(cs, _) ==> cs.len() == es.len() && forall|i: int|
                0 <= i < cs.len() ==> (#[trigger] cs[i] is Flag) == flags::bool_like(es[i])
            &&& held(s.known, s.flags, f) && within(q, s1) ==> agree(
                s.labels,
                s.known,
                f,
                a,
                meaning::i_values(q, n, meaning::carry(f), x),
            )
        },
        Err(_) => true,
    }
}

/// Are those of the first targets that are locals in scope?
pub open spec fn in_scope(known: Seq<u16>, ts: Seq<Expr>, n: nat) -> bool {
    n <= ts.len() && forall|i: int|
        0 <= i < n ==> match walk::local_slot(#[trigger] ts[i]) {
            Some(slot) => known.contains(slot),
            None => true,
        }
}

/// Does each of some values suit the local it is for?
pub open spec fn suits(f: Map<u16, Cell>, ts: Seq<Expr>, cs: Seq<Cell>) -> bool {
    cs.len() <= ts.len() && forall|i: int|
        0 <= i < cs.len() ==> match walk::local_slot(#[trigger] ts[i]) {
            Some(slot) => cs[i] is Flag == f[slot] is Flag,
            None => true,
        }
}

pub open spec fn assigned_agree(
    q: Sums,
    n: nat,
    env: Env,
    s: Low,
    f: Map<u16, Cell>,
    ts: Seq<Expr>,
    es: Seq<Expr>,
) -> bool {
    match lowering::l_assigned(env, s, ts, es) {
        Ok((s1, x)) => {
            let a = meaning::t_assigned(q, n, f, ts, es);
            &&& same_scope(s, s1)
            &&& held(s.known, s.flags, f) && in_scope(s.known, ts, es.len()) && within(q, s1) ==> {
                &&& ends_cells(a)
                &&& agree(
                    s.labels,
                    s.known,
                    f,
                    a,
                    meaning::i_values(q, n, meaning::carry(f), x),
                )
                &&& a matches Ends::Cells(cs, _) ==> cs.len() == es.len() && suits(f, ts, cs)
            }
        },
        Err(_) => true,
    }
}

/// What is in scope stays so.
proof fn lemma_grows(known: Seq<u16>, st: Stat)
    ensures
        forall|slot: u16| #[trigger]
            known.contains(slot) ==> known_after(known, st).contains(slot),
{
    assert forall|slot: u16| #[trigger] known.contains(slot) implies known_after(
        known,
        st,
    ).contains(slot) by {
        let i = choose|i: int| 0 <= i < known.len() && known[i] == slot;
        assert(known_after(known, st)[i] == slot);
    }
}

proof fn lemma_all_grow(known: Seq<u16>, stats: Seq<Stat>)
    ensures
        forall|slot: u16| #[trigger]
            known.contains(slot) ==> known_at_end(known, stats).contains(slot),
    decreases stats.len(),
{
    if stats.len() > 0 {
        lemma_grows(known, stats[0]);
        lemma_all_grow(known_after(known, stats[0]), stats.drop_first());
    }
}

proof fn lemma_unit(q: Sums, n: nat, env: Env, s: Low, f: Map<u16, Cell>, e: Expr)
    requires
        numbers_only(env),
        tied(q, env),
        s.ret_slot is None,
        placed(s.known, s.flags, e),
    ensures
        unit_agrees(q, n, env, s, f, e),
    decreases n, e, 3int, 0int,
{
    match e {
        Expr::Do(b) => {
            lemma_block(q, n, env, s, f, b, false);
        },
        Expr::If(..) => {
            lemma_if(q, n, env, s, f, e, 0, false);
        },
        _ => {
            lemma_expr(q, n, env, s, f, e);
        },
    }
}

proof fn lemma_stats(q: Sums, n: nat, env: Env, s: Low, f: Map<u16, Cell>, stats: Seq<Stat>)
    requires
        numbers_only(env),
        tied(q, env),
        s.ret_slot is None,
        placed_stats(s.known, s.flags, stats),
    ensures
        stats_agree(q, n, env, s, f, stats),
    decreases n, stats, 3int, 0int,
{
    if stats.len() > 0 {
        lemma_stat(q, n, env, s, f, stats[0]);
        lemma_grows(s.known, stats[0]);
        match lowering::l_stat(env, s, stats[0]) {
            Ok((s1, _)) => {
                let g = frame(meaning::t_stat(q, n, f, stats[0]));
                lemma_stats(q, n, env, s1, g, stats.drop_first());
            },
            Err(_) => {},
        }
    }
}

proof fn lemma_values(q: Sums, n: nat, env: Env, s: Low, f: Map<u16, Cell>, es: Seq<Expr>)
    requires
        numbers_only(env),
        tied(q, env),
        s.ret_slot is None,
        placed_all(s.known, s.flags, es),
    ensures
        values_agree(q, n, env, s, f, es),
    decreases n, es, 3int, 0int,
{
    if es.len() > 0 {
        let e = es[0];
        let rest = es.drop_first();
        if flags::bool_like(e) {
            lemma_cond(q, n, env, s, f, e);
            match lowering::l_truthy(env, s, e) {
                Ok((s1, _)) => {
                    let a = meaning::t_cond(q, n, f, e);
                    lemma_values(q, n, env, s1, frame(a), rest);
                    match (a, meaning::t_values(q, n, frame(a), rest)) {
                        (Ends::Truth(x, _), Ends::Cells(cs, _)) => {
                            lemma_carry_cons(Cell::Flag(x), cs);
                        },
                        _ => {},
                    }
                },
                Err(_) => {},
            }
        } else {
            lemma_expr(q, n, env, s, f, e);
            match lowering::l_expr(env, s, e) {
                Ok((s1, _)) => {
                    let a = meaning::t_expr(q, n, f, e);
                    lemma_values(q, n, env, s1, frame(a), rest);
                    match (a, meaning::t_values(q, n, frame(a), rest)) {
                        (Ends::Num(x, _), Ends::Cells(cs, _)) => {
                            lemma_carry_cons(Cell::Num(x), cs);
                        },
                        _ => {},
                    }
                },
                Err(_) => {},
            }
        }
    } else {
        assert(meaning::carry_all(Seq::<Cell>::empty()) =~= Seq::<u64>::empty());
    }
}

// ---- giving locals their values ----------------------------------------------------------

/// Each of some different slots holds its value, and the others what they held.
proof fn lemma_bound(f: Map<u16, Cell>, slots: Seq<u16>, cs: Seq<Cell>)
    requires
        slots.no_duplicates(),
        slots.len() == cs.len(),
    ensures
        forall|i: int|
            0 <= i < slots.len() ==> meaning::bound_all(f, slots, cs).contains_key(
                #[trigger] slots[i],
            ) && meaning::bound_all(f, slots, cs)[slots[i]] == cs[i],
        forall|slot: u16|
            !slots.contains(slot) ==> (#[trigger] meaning::bound_all(f, slots, cs).contains_key(slot)
                == f.contains_key(slot)),
        forall|slot: u16|
            !slots.contains(slot) && f.contains_key(slot) ==> #[trigger] meaning::bound_all(
                f,
                slots,
                cs,
            )[slot] == f[slot],
    decreases slots.len(),
{
    if slots.len() > 0 {
        let rest = slots.drop_first();
        let g = f.insert(slots[0], cs[0]);
        let all = meaning::bound_all(f, slots, cs);
        assert(rest.no_duplicates());
        lemma_bound(g, rest, cs.drop_first());
        assert(all == meaning::bound_all(g, rest, cs.drop_first()));
        assert(!rest.contains(slots[0])) by {
            if rest.contains(slots[0]) {
                let j = choose|j: int| 0 <= j < rest.len() && rest[j] == slots[0];
                assert(slots[j + 1] == slots[0]);
            }
        }
        assert forall|i: int| 0 <= i < slots.len() implies all.contains_key(#[trigger] slots[i])
            && all[slots[i]] == cs[i] by {
            if i > 0 {
                assert(rest[i - 1] == slots[i]);
                assert(cs.drop_first()[i - 1] == cs[i]);
            }
        }
        assert forall|slot: u16| !slots.contains(slot) implies (#[trigger] all.contains_key(slot)
            == f.contains_key(slot)) && (f.contains_key(slot) ==> all[slot] == f[slot]) by {
            assert(slot != slots[0]);
            assert(!rest.contains(slot)) by {
                if rest.contains(slot) {
                    let j = choose|j: int| 0 <= j < rest.len() && rest[j] == slot;
                    assert(slots[j + 1] == slot);
                }
            }
        }
    }
}

/// Both sides give the locals of a `let` their values alike.
proof fn lemma_let_put(f: Map<u16, Cell>, bs: Seq<Binding>, cs: Seq<Cell>)
    requires
        bs.len() == cs.len(),
    ensures
        meaning::carry(meaning::bound_all(f, walk::slots_of(bs), cs)) == meaning::put_all(
            meaning::carry(f),
            lowering::slot_list(bs),
            meaning::carry_all(cs),
        ),
    decreases bs.len(),
{
    if bs.len() > 0 {
        let slots = walk::slots_of(bs);
        lemma_carry_insert(f, slots[0], cs[0]);
        lemma_let_put(f.insert(slots[0], cs[0]), bs.drop_first(), cs.drop_first());
        assert(slots.drop_first() =~= walk::slots_of(bs.drop_first()));
        assert(meaning::carry_all(cs).drop_first() =~= meaning::carry_all(cs.drop_first()));
    }
}

/// The last word on a slot, where something more is said.
proof fn lemma_flag_more(fl: Seq<(u16, bool)>, more: Seq<(u16, bool)>, slot: u16)
    ensures
        (forall|i: int| 0 <= i < more.len() ==> (#[trigger] more[i]).0 != slot) ==> lowering::flag(
            fl + more,
            slot,
        ) == lowering::flag(fl, slot),
        forall|i: int|
            0 <= i < more.len() && (#[trigger] more[i]).0 == slot && (forall|j: int|
                i < j < more.len() ==> (#[trigger] more[j]).0 != slot) ==> lowering::flag(
                fl + more,
                slot,
            ) == more[i].1,
    decreases more.len(),
{
    if more.len() == 0 {
        assert(fl + more =~= fl);
    } else {
        let less = more.drop_last();
        lemma_flag_more(fl, less, slot);
        assert((fl + more).drop_last() =~= fl + less);
        assert((fl + more).last() == more.last());
        if more.last().0 != slot {
            assert forall|i: int|
                0 <= i < more.len() && (#[trigger] more[i]).0 == slot && (forall|j: int|
                    i < j < more.len() ==> (#[trigger] more[j]).0 != slot) implies lowering::flag(
                fl + more,
                slot,
            ) == more[i].1 by {
                assert(less[i] == more[i]);
                assert forall|j: int| i < j < less.len() implies (#[trigger] less[j]).0 != slot by {
                    assert(less[j] == more[j]);
                }
            }
            assert forall|i: int| 0 <= i < less.len() && (forall|k: int|
                0 <= k < more.len() ==> (#[trigger] more[k]).0 != slot) implies (
            #[trigger] less[i]).0 != slot by {
                assert(less[i] == more[i]);
            }
        } else {
            assert(more[more.len() - 1].0 == slot);
        }
    }
}

proof fn lemma_let(q: Sums, n: nat, env: Env, s: Low, f: Map<u16, Cell>, st: Stat)
    requires
        numbers_only(env),
        tied(q, env),
        s.ret_slot is None,
        placed_stat(s.known, s.flags, st),
        st is LetSlots,
    ensures
        stat_agrees(q, n, env, s, f, st),
    decreases n, st, 2int, 0int,
{
    match st {
        Stat::LetSlots(bs, es) => {
            if bs@.len() > 0 {
                let k = infer::kind_at(env.kinds, bs@[0].slot);
                assert(k matches Some(k) ==> lowering::holds_number(k));
                assert(infer::outer_at(env.inner_of, bs@[0].slot) is None);
            }
            assert(lowering::l_stat(env, s, st) == lowering::l_let(env, s, st));
            lemma_values(q, n, env, s, f, es@);
            let a = meaning::t_values(q, n, f, es@);
            match (lowering::l_let(env, s, st), a) {
                (Ok((s1, x)), Ends::Cells(cs, g)) => {
                    let slots = walk::slots_of(bs@);
                    lemma_bound(g, slots, cs);
                    lemma_let_put(g, bs@, cs);
                    if held(s.known, s.flags, f) && within(q, s1) {
                        assert(within(q, lowering::l_values(env, s, es@)->Ok_0.0));
                        lemma_let_held(s, g, bs@, es@, cs);
                    }
                },
                _ => {},
            }
        },
        _ => {},
    }
}

/// What a `let` brings into scope holds what it is taken to.
proof fn lemma_let_held(
    s: Low,
    g: Map<u16, Cell>,
    bs: Seq<Binding>,
    es: Seq<Expr>,
    cs: Seq<Cell>,
)
    requires
        held(s.known, s.flags, g),
        bs.len() == es.len() == cs.len(),
        walk::slots_of(bs).no_duplicates(),
        forall|i: int|
            0 <= i < bs.len() && s.known.contains((#[trigger] bs[i]).slot) ==> lowering::flag(
                s.flags,
                bs[i].slot,
            ) == flags::bool_like(es[i]),
        forall|i: int| 0 <= i < cs.len() ==> (#[trigger] cs[i] is Flag) == flags::bool_like(es[i]),
    ensures
        ({
            let h = meaning::bound_all(g, walk::slots_of(bs), cs);
            &&& held(s.known + walk::slots_of(bs), s.flags + lowering::let_flags(bs, es), h)
            &&& kept(s.known, g, h)
        }),
{
    let slots = walk::slots_of(bs);
    let h = meaning::bound_all(g, slots, cs);
    let more = lowering::let_flags(bs, es);
    let fl = s.flags + more;
    lemma_bound(g, slots, cs);
    assert forall|k: int| 0 <= k < slots.len() implies h.contains_key(#[trigger] slots[k]) && (
    lowering::flag(fl, slots[k]) == h[slots[k]] is Flag) && (h[slots[k]] is Flag
        == flags::bool_like(es[k])) by {
        lemma_flag_more(s.flags, more, slots[k]);
        assert(more[k].0 == slots[k]);
        assert forall|j: int| k < j < more.len() implies (#[trigger] more[j]).0 != slots[k] by {
            assert(slots[j] == more[j].0);
        }
        assert(cs[k] is Flag == flags::bool_like(es[k]));
    }
    assert forall|slot: u16| #[trigger] s.known.contains(slot) implies h.contains_key(slot) && (
    h[slot] is Flag == g[slot] is Flag) && (lowering::flag(fl, slot) == h[slot] is Flag) by {
        if slots.contains(slot) {
            let j = choose|j: int| 0 <= j < slots.len() && slots[j] == slot;
            assert(bs[j].slot == slot);
            assert(h[slots[j]] is Flag == flags::bool_like(es[j]));
        } else {
            lemma_flag_more(s.flags, more, slot);
            assert forall|i: int| 0 <= i < more.len() implies (#[trigger] more[i]).0 != slot by {
                assert(slots[i] == more[i].0);
            }
        }
    }
    let all = s.known + slots;
    assert forall|slot: u16| #[trigger] all.contains(slot) implies h.contains_key(slot) && (
    lowering::flag(fl, slot) == h[slot] is Flag) by {
        let i = choose|i: int| 0 <= i < all.len() && all[i] == slot;
        if i < s.known.len() {
            assert(s.known[i] == slot);
            assert(s.known.contains(slot));
        } else {
            assert(slots[i - s.known.len()] == slot);
        }
    }
}

proof fn lemma_stat(q: Sums, n: nat, env: Env, s: Low, f: Map<u16, Cell>, st: Stat)
    requires
        numbers_only(env),
        tied(q, env),
        s.ret_slot is None,
        placed_stat(s.known, s.flags, st),
    ensures
        stat_agrees(q, n, env, s, f, st),
    decreases n, st, 3int, 0int,
{
    match st {
        Stat::LetSlots(..) => {
            lemma_let(q, n, env, s, f, st);
        },
        Stat::Assign(..) => {
            lemma_assign(q, n, env, s, f, st);
        },
        Stat::OpAssign(..) => {
            lemma_update(q, n, env, s, f, st);
        },
        Stat::Return(..) => {
            lemma_return(q, n, env, s, f, st);
        },
        Stat::While(_, c, b) => {
            lemma_while_stat(q, n, env, s, f, st);
        },
        Stat::Loop(_, b) => {
            lemma_loop_stat(q, n, env, s, f, st);
        },
        Stat::ForRange { .. } => {
            lemma_for(q, n, env, s, f, st);
        },
        Stat::Expr(e) => {
            if e is If || e is Do {
                lemma_unit(q, n, env, s, f, e);
            } else {
                lemma_expr(q, n, env, s, f, e);
            }
        },
        _ => {},
    }
}

proof fn lemma_assigned(
    q: Sums,
    n: nat,
    env: Env,
    s: Low,
    f: Map<u16, Cell>,
    ts: Seq<Expr>,
    es: Seq<Expr>,
)
    requires
        numbers_only(env),
        tied(q, env),
        s.ret_slot is None,
        placed_all(s.known, s.flags, es),
    ensures
        assigned_agree(q, n, env, s, f, ts, es),
    decreases n, es, 3int, 0int,
{
    if es.len() > 0 {
        let e = es[0];
        let rest = es.drop_first();
        let others = ts.drop_first();
        let is_flag = match walk::local_slot(ts[0]) {
            Some(slot) => lowering::flag(s.flags, slot),
            None => false,
        };
        let a = if is_flag {
            meaning::t_cond(q, n, f, e)
        } else {
            meaning::t_expr(q, n, f, e)
        };
        let g = frame(a);
        if held(s.known, s.flags, f) && in_scope(s.known, ts, es.len()) {
            assert(is_flag == match walk::local_slot(ts[0]) {
                Some(slot) => meaning::holds_flag(f, slot),
                None => false,
            });
        }
        let scope = if is_flag {
            lemma_cond(q, n, env, s, f, e);
            match lowering::l_truthy(env, s, e) {
                Ok((s1, _)) => Some(s1),
                Err(_) => None,
            }
        } else {
            lemma_expr(q, n, env, s, f, e);
            match lowering::l_expr(env, s, e) {
                Ok((s1, _)) => Some(s1),
                Err(_) => None,
            }
        };
        match scope {
            Some(s1) => {
                lemma_assigned(q, n, env, s1, g, others, rest);
                if held(s.known, s.flags, f) && in_scope(s.known, ts, es.len())
                    && lowering::l_assigned(env, s1, others, rest) is Ok && within(
                    q,
                    lowering::l_assigned(env, s1, others, rest)->Ok_0.0,
                ) && !open_end(a) {
                    assert(within(q, s1));
                    assert(in_scope(s1.known, others, rest.len())) by {
                        assert forall|i: int| 0 <= i < rest.len() implies match walk::local_slot(
                            #[trigger] others[i],
                        ) {
                            Some(slot) => s1.known.contains(slot),
                            None => true,
                        } by {
                            assert(others[i] == ts[i + 1]);
                        }
                    }
                    match (a, meaning::t_assigned(q, n, g, others, rest)) {
                        (Ends::Truth(x, _), Ends::Cells(cs, _)) => {
                            lemma_carry_cons(Cell::Flag(x), cs);
                            lemma_suits(s.known, f, g, ts, Cell::Flag(x), cs);
                        },
                        (Ends::Num(x, _), Ends::Cells(cs, _)) => {
                            lemma_carry_cons(Cell::Num(x), cs);
                            lemma_suits(s.known, f, g, ts, Cell::Num(x), cs);
                        },
                        _ => {},
                    }
                }
            },
            None => {},
        }
    } else {
        assert(meaning::carry_all(Seq::empty()) =~= Seq::empty());
    }
}

/// One value more that suits.
proof fn lemma_suits(
    known: Seq<u16>,
    f: Map<u16, Cell>,
    g: Map<u16, Cell>,
    ts: Seq<Expr>,
    c: Cell,
    cs: Seq<Cell>,
)
    requires
        kept(known, f, g),
        in_scope(known, ts, cs.len() + 1),
        suits(g, ts.drop_first(), cs),
        match walk::local_slot(ts[0]) {
            Some(slot) => c is Flag == f[slot] is Flag,
            None => true,
        },
    ensures
        suits(f, ts, seq![c] + cs),
{
    let all = seq![c] + cs;
    assert forall|i: int| 0 <= i < all.len() implies match walk::local_slot(#[trigger] ts[i]) {
        Some(slot) => all[i] is Flag == f[slot] is Flag,
        None => true,
    } by {
        if i > 0 {
            assert(ts.drop_first()[i - 1] == ts[i]);
            assert(all[i] == cs[i - 1]);
        }
    }
}

/// The targets that are lowered are locals in scope.
proof fn lemma_targets(s: Low, ts: Seq<Expr>, n: nat)
    ensures
        lowering::target_list(s, ts, n) is Ok ==> {
            &&& ts.len() <= n
            &&& in_scope(s.known, ts, ts.len())
            &&& meaning::targets(ts) matches Some(slots) && slots.len() == ts.len() && forall|i: int|
                0 <= i < ts.len() ==> walk::local_slot(#[trigger] ts[i]) == Some(slots[i])
        },
    decreases ts.len(),
{
    if ts.len() > 0 && lowering::target_list(s, ts, n) is Ok {
        let others = ts.drop_first();
        lemma_targets(s, others, (n - 1) as nat);
        let rest = meaning::targets(others)->Some_0;
        let slots = seq![walk::local_slot(ts[0])->Some_0] + rest;
        assert forall|i: int| 0 <= i < ts.len() implies walk::local_slot(#[trigger] ts[i]) == Some(
            slots[i],
        ) && s.known.contains(slots[i]) by {
            if i > 0 {
                assert(others[i - 1] == ts[i]);
                assert(slots[i] == rest[i - 1]);
            }
        }
    }
}

/// Both sides give the targets of an assignment their values alike.
proof fn lemma_assign_put(s: Low, f: Map<u16, Cell>, ts: Seq<Expr>, n: nat, cs: Seq<Cell>)
    requires
        ts.len() == cs.len(),
        lowering::target_list(s, ts, n) is Ok,
        meaning::targets(ts) is Some,
    ensures
        meaning::carry(meaning::bound_all(f, meaning::targets(ts)->Some_0, cs))
            == meaning::put_all(
            meaning::carry(f),
            lowering::target_list(s, ts, n)->Ok_0,
            meaning::carry_all(cs),
        ),
    decreases ts.len(),
{
    if ts.len() > 0 {
        let others = ts.drop_first();
        let slot = walk::local_slot(ts[0])->Some_0;
        let slots = meaning::targets(ts)->Some_0;
        lemma_carry_insert(f, slot, cs[0]);
        lemma_assign_put(s, f.insert(slot, cs[0]), others, (n - 1) as nat, cs.drop_first());
        assert(slots.drop_first() =~= meaning::targets(others)->Some_0);
        assert(meaning::carry_all(cs).drop_first() =~= meaning::carry_all(cs.drop_first()));
    }
}

/// What suits a local leaves it what it was.
proof fn lemma_assign_kept(known: Seq<u16>, g: Map<u16, Cell>, slots: Seq<u16>, cs: Seq<Cell>)
    requires
        slots.len() == cs.len(),
        forall|slot: u16| #[trigger] known.contains(slot) ==> g.contains_key(slot),
        forall|i: int|
            0 <= i < slots.len() ==> known.contains(#[trigger] slots[i]) && (cs[i] is Flag
                == g[slots[i]] is Flag),
    ensures
        kept(known, g, meaning::bound_all(g, slots, cs)),
    decreases slots.len(),
{
    if slots.len() > 0 {
        let h = g.insert(slots[0], cs[0]);
        let rest = slots.drop_first();
        assert(kept(known, g, h));
        assert forall|i: int| 0 <= i < rest.len() implies known.contains(#[trigger] rest[i]) && (
        cs.drop_first()[i] is Flag == h[rest[i]] is Flag) by {
            assert(rest[i] == slots[i + 1]);
        }
        lemma_assign_kept(known, h, rest, cs.drop_first());
    }
}

proof fn lemma_assign(q: Sums, n: nat, env: Env, s: Low, f: Map<u16, Cell>, st: Stat)
    requires
        numbers_only(env),
        tied(q, env),
        s.ret_slot is None,
        placed_stat(s.known, s.flags, st),
        st is Assign,
    ensures
        stat_agrees(q, n, env, s, f, st),
    decreases n, st, 2int, 0int,
{
    match st {
        Stat::Assign(ts, es) => {
            if ts@.len() == 1 {
                lemma_no_tables(env, s, ts@[0]);
            }
            assert(lowering::l_stat(env, s, st) == lowering::l_assign(env, s, st));
            lemma_assigned(q, n, env, s, f, ts@, es@);
            match lowering::l_assigned(env, s, ts@, es@) {
                Ok((s1, _)) => {
                    lemma_targets(s1, ts@, es@.len());
                    if lowering::target_list(s1, ts@, es@.len()) is Ok && es@.len() <= ts@.len()
                        && held(s.known, s.flags, f) && within(q, s1) {
                        match meaning::t_assigned(q, n, f, ts@, es@) {
                            Ends::Cells(cs, g) => {
                                let slots = meaning::targets(ts@)->Some_0;
                                lemma_assign_put(s1, g, ts@, es@.len(), cs);
                                assert forall|i: int| 0 <= i < slots.len() implies s.known.contains(
                                    #[trigger] slots[i],
                                ) && (cs[i] is Flag == g[slots[i]] is Flag) by {
                                    assert(walk::local_slot(ts@[i]) == Some(slots[i]));
                                }
                                lemma_assign_kept(s.known, g, slots, cs);
                                let h = meaning::bound_all(g, slots, cs);
                                lemma_kept_on(s.known, f, g, h);
                                lemma_kept(s.known, s.flags, f, h);
                            },
                            _ => {},
                        }
                    }
                },
                Err(_) => {},
            }
        },
        _ => {},
    }
}

proof fn lemma_update(q: Sums, n: nat, env: Env, s: Low, f: Map<u16, Cell>, st: Stat)
    requires
        numbers_only(env),
        tied(q, env),
        s.ret_slot is None,
        placed_stat(s.known, s.flags, st),
        st is OpAssign,
    ensures
        stat_agrees(q, n, env, s, f, st),
    decreases n, st, 2int, 0int,
{
    match st {
        Stat::OpAssign(t, op, e) => {
            lemma_no_tables(env, s, t);
            assert(lowering::l_stat(env, s, st) == lowering::l_update(env, s, st));
            lemma_expr(q, n, env, s, f, e);
            match (walk::local_slot(t), meaning::t_expr(q, n, f, e)) {
                (Some(slot), Ends::Num(y, g)) => {
                    lemma_carried(g, slot);
                    match meaning::t_local(g, slot) {
                        Ends::Num(x, _) => {
                            let v = (q.bin)(op, x, y);
                            lemma_carry_insert(g, slot, Cell::Num(v));
                        },
                        _ => {},
                    }
                },
                _ => {},
            }
        },
        _ => {},
    }
}

proof fn lemma_return(q: Sums, n: nat, env: Env, s: Low, f: Map<u16, Cell>, st: Stat)
    requires
        numbers_only(env),
        tied(q, env),
        s.ret_slot is None,
        placed_stat(s.known, s.flags, st),
        st is Return,
    ensures
        stat_agrees(q, n, env, s, f, st),
    decreases n, st, 2int, 0int,
{
    match st {
        Stat::Return(es) => {
            assert(lowering::l_stat(env, s, st) == lowering::l_return(env, s, st));
            if es@.len() == 1 {
                assert(placed_all(s.known, s.flags, es@) ==> placed(s.known, s.flags, es@[0]));
                lemma_expr(q, n, env, s, f, es@[0]);
            }
        },
        _ => {},
    }
}

// ---- loops -------------------------------------------------------------------------------

/// The scope in the body of a loop.
spec fn inside(s: Low, label: Option<u32>) -> Low {
    Low { labels: s.labels.push(label), ..s }
}

/// A loop that goes round while its condition holds.
proof fn lemma_while(
    q: Sums,
    n: nat,
    env: Env,
    s: Low,
    s1: Low,
    f: Map<u16, Cell>,
    c: Option<Expr>,
    b: Block,
    cond: Option<Cond>,
    body: IrBlock,
)
    requires
        numbers_only(env),
        tied(q, env),
        s.ret_slot is None,
        same_scope(s, s1),
        placed_block(s.known, s.flags, b),
        match c {
            Some(e) => placed(s.known, s.flags, e) && cond is Some && lowering::l_truthy(env, s, e)
                == Ok::<(Low, Cond), Seq<char>>((s1, cond->Some_0)),
            None => cond is None,
        },
        lowering::l_block(env, inside(s1, None), b, false) matches Ok((_, x)) && x == body,
    ensures
        ends_done(meaning::t_while(q, n, f, c, b)),
        held(s.known, s.flags, f) && within(
            q,
            lowering::l_block(env, inside(s1, None), b, false)->Ok_0.0,
        ) ==> agree(
            s.labels,
            s.known,
            f,
            meaning::t_while(q, n, f, c, b),
            meaning::i_while(q, n, meaning::carry(f), cond, body),
        ),
    decreases n, b, 5int, 0int,
{
    if n > 0 {
        let m = (n - 1) as nat;
        let test = match c {
            Some(e) => {
                lemma_cond(q, m, env, s, f, e);
                meaning::t_cond(q, m, f, e)
            },
            None => Ends::Truth(true, f),
        };
        lemma_block(q, m, env, inside(s1, None), f, b, false);
        match test {
            Ends::Truth(true, g) => {
                lemma_block(q, m, env, inside(s1, None), g, b, false);
                let t = meaning::t_block(q, m, g, b, false);
                let h = frame(t);
                lemma_while(q, m, env, s, s1, h, c, b, cond, body);
                let out = lowering::l_block(env, inside(s1, None), b, false)->Ok_0.0;
                if held(s.known, s.flags, f) && within(q, out) {
                    assert(within(q, s1));
                    assert(kept(s.known, f, g));
                    lemma_kept(s.known, s.flags, f, g);
                    if !open_end(t) {
                        assert(kept(s.known, g, h));
                        lemma_kept_on(s.known, f, g, h);
                        lemma_kept(s.known, s.flags, g, h);
                        let z = meaning::t_while(q, m, h, c, b);
                        if !open_end(z) {
                            lemma_kept_on(s.known, f, h, frame(z));
                        }
                        assert(inside(s1, None).labels.last() is None);
                        assert(meaning::i_block(q, m, meaning::carry(g), body) == image(
                            inside(s1, None).labels,
                            t,
                        ));
                    }
                }
            },
            _ => {},
        }
    }
}

proof fn lemma_while_stat(q: Sums, n: nat, env: Env, s: Low, f: Map<u16, Cell>, st: Stat)
    requires
        numbers_only(env),
        tied(q, env),
        s.ret_slot is None,
        placed_stat(s.known, s.flags, st),
        st is While,
    ensures
        stat_agrees(q, n, env, s, f, st),
    decreases n, st, 2int, 0int,
{
    match st {
        Stat::While(_, c, b) => {
            lemma_cond(q, n, env, s, f, c);
            match lowering::l_truthy(env, s, c) {
                Ok((s1, cond)) => {
                    let t = inside(s1, None);
                    assert(lowering::l_body(env, s1, b, None) == match lowering::l_block(
                        env,
                        t,
                        b,
                        false,
                    ) {
                        Ok((s2, body)) => Ok((Low { labels: s1.labels, ..s2 }, body)),
                        Err(m) => Err(m),
                    });
                    lemma_block(q, n, env, t, f, b, false);
                    match lowering::l_block(env, t, b, false) {
                        Ok((_, body)) => {
                            lemma_while(q, n, env, s, s1, f, Some(c), b, Some(cond), body);
                        },
                        Err(_) => {},
                    }
                },
                Err(_) => {},
            }
        },
        _ => {},
    }
}

proof fn lemma_loop_stat(q: Sums, n: nat, env: Env, s: Low, f: Map<u16, Cell>, st: Stat)
    requires
        numbers_only(env),
        tied(q, env),
        s.ret_slot is None,
        placed_stat(s.known, s.flags, st),
        st is Loop,
    ensures
        stat_agrees(q, n, env, s, f, st),
    decreases n, st, 2int, 0int,
{
    match st {
        Stat::Loop(_, b) => {
            let t = inside(s, None);
            assert(lowering::l_body(env, s, b, None) == match lowering::l_block(env, t, b, false) {
                Ok((s2, body)) => Ok((Low { labels: s.labels, ..s2 }, body)),
                Err(m) => Err(m),
            });
            lemma_block(q, n, env, t, f, b, false);
            match lowering::l_block(env, t, b, false) {
                Ok((_, body)) => {
                    lemma_while(q, n, env, s, s, f, None, b, None, body);
                },
                Err(_) => {},
            }
        },
        _ => {},
    }
}

/// A loop that counts.
proof fn lemma_count(
    q: Sums,
    n: nat,
    env: Env,
    s: Low,
    f: Map<u16, Cell>,
    slot: u16,
    end: u64,
    inclusive: bool,
    label: u32,
    b: Block,
    body: IrBlock,
)
    requires
        numbers_only(env),
        tied(q, env),
        s.ret_slot is None,
        s.known.contains(slot),
        !lowering::flag(s.flags, slot),
        placed_block(s.known, s.flags, b),
        lowering::l_block(env, inside(s, Some(label)), b, false) matches Ok((_, x)) && x == body,
    ensures
        ends_done(meaning::t_count(q, n, f, slot, end, inclusive, b)),
        held(s.known, s.flags, f) && within(
            q,
            lowering::l_block(env, inside(s, Some(label)), b, false)->Ok_0.0,
        ) ==> agree(
            s.labels,
            s.known,
            f,
            meaning::t_count(q, n, f, slot, end, inclusive, b),
            meaning::i_count(q, n, meaning::carry(f), slot, end, inclusive, label, body),
        ),
    decreases n, b, 5int, 0int,
{
    if n > 0 {
        let m = (n - 1) as nat;
        let inner = inside(s, Some(label));
        let out = lowering::l_block(env, inner, b, false)->Ok_0.0;
        lemma_carried(f, slot);
        match meaning::t_local(f, slot) {
            Ends::Num(x, _) => if meaning::goes_round(x, end, inclusive) {
                lemma_block(q, m, env, inner, f, b, false);
                let t = meaning::t_block(q, m, f, b, false);
                let h = frame(t);
                lemma_carried(h, slot);
                match meaning::t_local(h, slot) {
                    Ends::Num(y, _) => {
                        let v = Cell::Num((q.bin)(BinOp::Add, y, ONE));
                        let up = h.insert(slot, v);
                        lemma_carry_insert(h, slot, v);
                        lemma_count(q, m, env, s, up, slot, end, inclusive, label, b, body);
                        if held(s.known, s.flags, f) && within(q, out) && !open_end(t) {
                            assert(kept(s.known, f, h));
                            assert(kept(s.known, h, up));
                            lemma_kept_on(s.known, f, h, up);
                            lemma_kept(s.known, s.flags, f, up);
                            let z = meaning::t_count(q, m, up, slot, end, inclusive, b);
                            if !open_end(z) {
                                lemma_kept_on(s.known, f, up, frame(z));
                            }
                        }
                        assert(meaning::t_stepped(q, n, h, slot, end, inclusive, b)
                            == meaning::t_count(q, m, up, slot, end, inclusive, b));
                        assert(meaning::i_stepped(
                            q,
                            n,
                            meaning::carry(h),
                            slot,
                            end,
                            inclusive,
                            label,
                            body,
                        ) == meaning::i_count(
                            q,
                            m,
                            meaning::carry(up),
                            slot,
                            end,
                            inclusive,
                            label,
                            body,
                        ));
                    },
                    _ => {
                        assert(open_end(meaning::t_stepped(q, n, h, slot, end, inclusive, b)));
                    },
                }
                assert(inner.labels.last() == Some(label));
                if held(s.known, s.flags, f) && within(q, out) && !open_end(t) {
                    assert(meaning::i_block(q, m, meaning::carry(f), body) == image(
                        inner.labels,
                        t,
                    ));
                }
            },
            _ => {},
        }
    }
}

/// The scope a counted loop is lowered in.
spec fn counting(env: Env, s: Low, st: Stat) -> Low {
    match st {
        Stat::ForRange { id, var, binding: Some(b), start, end, inclusive, body } => {
            let t = Low { known: s.known.push(b.slot), ..s };
            Low {
                in_range: match lowering::range_fact(env, b, start, end, inclusive, body) {
                    Some(f) => t.in_range.push(f),
                    None => t.in_range,
                },
                bounded: match lowering::hoistable(env, t, b, start, end, inclusive, body) {
                    Some(d) => t.bounded.push((b.slot, d)),
                    None => t.bounded,
                },
                n_labels: lowering::next_label(s.n_labels),
                ..t
            }
        },
        _ => s,
    }
}

proof fn lemma_for(q: Sums, n: nat, env: Env, s: Low, f: Map<u16, Cell>, st: Stat)
    requires
        numbers_only(env),
        tied(q, env),
        s.ret_slot is None,
        placed_stat(s.known, s.flags, st),
        st is ForRange,
    ensures
        stat_agrees(q, n, env, s, f, st),
    decreases n, st, 2int, 0int,
{
    match st {
        Stat::ForRange { id, var, binding, start, end, inclusive, body } => {
            assert(lowering::l_stat(env, s, st) == lowering::l_for(env, s, st));
            match (binding, lowering::l_for(env, s, st)) {
                (Some(b), Ok(_)) => {
                    lemma_expr(q, n, env, s, f, start);
                    let (s1, x) = lowering::l_expr(env, s, start)->Ok_0;
                    lemma_expr(q, n, env, s1, f, end);
                    let (s2, y) = lowering::l_expr(env, s1, end)->Ok_0;
                    lemma_quiet(q, n, f, start);
                    lemma_quiet(q, n, f, end);
                    let t = counting(env, s2, st);
                    let label = t.n_labels;
                    let inner = inside(t, Some(label));
                    assert(lowering::l_body(env, t, body, Some(label)) == match lowering::l_block(
                        env,
                        inner,
                        body,
                        false,
                    ) {
                        Ok((s5, code)) => Ok((Low { labels: t.labels, ..s5 }, code)),
                        Err(m) => Err(m),
                    });
                    lemma_block(q, n, env, inner, f, body, false);
                    let (s5, code) = lowering::l_block(env, inner, body, false)->Ok_0;
                    match (meaning::t_expr(q, n, f, start), meaning::t_expr(q, n, f, end)) {
                        (Ends::Num(v, _), Ends::Num(w, _)) => {
                            let g = f.insert(b.slot, Cell::Num(v));
                            lemma_carry_insert(f, b.slot, Cell::Num(v));
                            assert(t.known[s.known.len() as int] == b.slot);
                            lemma_count(
                                q,
                                n,
                                env,
                                t,
                                g,
                                b.slot,
                                w,
                                inclusive,
                                label,
                                body,
                                code,
                            );
                            if held(s.known, s.flags, f) && within(q, s5) {
                                assert(within(q, s1) && within(q, s2));
                                lemma_counted(
                                    s,
                                    f,
                                    b.slot,
                                    v,
                                    meaning::t_count(q, n, g, b.slot, w, inclusive, body),
                                );
                            }
                        },
                        _ => {},
                    }
                },
                _ => {},
            }
        },
        _ => {},
    }
}

/// A counter leaves what was in scope what it was.
proof fn lemma_counted(s: Low, f: Map<u16, Cell>, slot: u16, v: u64, a: Ends<Map<u16, Cell>>)
    requires
        held(s.known, s.flags, f),
        !lowering::flag(s.flags, slot),
    ensures
        held(s.known.push(slot), s.flags, f.insert(slot, Cell::Num(v))),
        kept(s.known.push(slot), f.insert(slot, Cell::Num(v)), frame(a)) ==> kept(
            s.known,
            f,
            frame(a),
        ) && held(s.known, s.flags, frame(a)),
{
    let more = s.known.push(slot);
    let g = f.insert(slot, Cell::Num(v));
    assert forall|x: u16| #[trigger] more.contains(x) implies x == slot || s.known.contains(x) by {
        let i = choose|i: int| 0 <= i < more.len() && more[i] == x;
        if i < s.known.len() {
            assert(s.known[i] == x);
        }
    }
    assert forall|x: u16| #[trigger] s.known.contains(x) implies more.contains(x) by {
        let i = choose|i: int| 0 <= i < s.known.len() && s.known[i] == x;
        assert(more[i] == x);
    }
    if kept(more, g, frame(a)) {
        assert(kept(s.known, f, frame(a)));
    }
}

// ---- what is compiled --------------------------------------------------------------------

/// A function on numbers that is compiled does what it was read as, whatever
/// the machine computes and however far it is followed: it ends in the same
/// number or in none, or returns the same, and leaves the same in its locals.
///
/// This is about the code it is lowered to, which is what is written out.
pub proof fn lemma_function_means_the_same(
    q: Sums,
    n: nat,
    def: FuncDef,
    upval: Option<u16>,
    global: Option<Seq<char>>,
    cs: Seq<Callable>,
    f: Map<u16, Cell>,
)
    requires
        ({
            let env = unit::function_env(def, upval, global, cs);
            let s = unit::function_start(def, env);
            &&& numbers_only(env)
            &&& tied(q, env)
            &&& placed_block(s.known, s.flags, def.body)
            &&& held(s.known, s.flags, f)
        }),
        unit::unit_of(def, upval, global, cs) is Ok,
        q.direct == unit::unit_of(def, upval, global, cs)->Ok_0.inlined,
        !open_end(meaning::t_block(q, n, f, def.body, !unit::valueless(def.body))),
    ensures
        meaning::i_block(
            q,
            n,
            meaning::carry(f),
            unit::unit_of(def, upval, global, cs)->Ok_0.code.body,
        ) == image(
            Seq::empty(),
            meaning::t_block(q, n, f, def.body, !unit::valueless(def.body)),
        ),
{
    let env = unit::function_env(def, upval, global, cs);
    let s = unit::function_start(def, env);
    lemma_block(q, n, env, s, f, def.body, !unit::valueless(def.body));
}

/// A loop on numbers that is compiled does what it was read as: it leaves the
/// same in the locals. One that counts is entered with its variable where it
/// stands.
pub proof fn lemma_loop_means_the_same(
    q: Sums,
    n: nat,
    st: Stat,
    upval: Option<u16>,
    global: Option<Seq<char>>,
    cs: Seq<Callable>,
    f: Map<u16, Cell>,
)
    requires
        numbers_only(unit::loop_env(st, upval, global, cs)),
        tied(q, unit::loop_env(st, upval, global, cs)),
        ({
            let s = unit::start(slots::slot_seq(st), unit::loop_flags(st), None);
            &&& held(s.known, s.flags, f)
            &&& match st {
                Stat::ForRange { id, var, binding: Some(b), start, end, inclusive, body } => {
                    &&& s.known.contains(b.slot)
                    &&& !lowering::flag(s.flags, b.slot)
                    &&& placed(s.known, s.flags, end)
                    &&& placed_block(s.known, s.flags, body)
                },
                _ => placed_stat(s.known, s.flags, st),
            }
        }),
        unit::loop_of(st, upval, global, cs) is Ok,
        q.direct == unit::loop_of(st, upval, global, cs)->Ok_0.inlined,
    ensures
        match (st, unit::loop_of(st, upval, global, cs)->Ok_0.body) {
            (
                Stat::ForRange { id, var, binding: Some(b), start, end, inclusive, body },
                LoopBody::Count { slot, end: x, inclusive: i, label, body: code },
            ) => match meaning::t_expr(q, n, f, end) {
                Ends::Num(w, g) => {
                    &&& meaning::i_num(q, n, meaning::carry(f), x) == Ends::Num(
                        w,
                        meaning::carry(g),
                    )
                    &&& open_end(meaning::t_count(q, n, g, b.slot, w, inclusive, body))
                        || meaning::i_count(q, n, meaning::carry(g), slot, w, i, label, code)
                        == image(
                        Seq::empty(),
                        meaning::t_count(q, n, g, b.slot, w, inclusive, body),
                    )
                },
                _ => true,
            },
            (_, LoopBody::Whole(x)) => open_end(meaning::t_stat(q, n, f, st)) || meaning::i_stat(
                q,
                n,
                meaning::carry(f),
                x,
            ) == image(seq![None], meaning::t_stat(q, n, f, st)),
            _ => false,
        },
{
    let env = unit::loop_env(st, upval, global, cs);
    let s = unit::start(slots::slot_seq(st), unit::loop_flags(st), None);
    match st {
        Stat::ForRange { id, var, binding, start, end, inclusive, body } => match binding {
            Some(b) => {
                lemma_expr(q, n, env, s, f, end);
                let (s1, x) = lowering::l_expr(env, s, end)->Ok_0;
                let t = Low {
                    in_range: match lowering::range_fact(env, b, start, end, inclusive, body) {
                        Some(d) => s1.in_range.push(d),
                        None => s1.in_range,
                    },
                    n_labels: lowering::next_label(s1.n_labels),
                    ..s1
                };
                let label = t.n_labels;
                let inner = inside(t, Some(label));
                assert(lowering::l_body(env, t, body, Some(label)) == match lowering::l_block(
                    env,
                    inner,
                    body,
                    false,
                ) {
                    Ok((s5, code)) => Ok((Low { labels: t.labels, ..s5 }, code)),
                    Err(m) => Err(m),
                });
                let (s5, code) = lowering::l_block(env, inner, body, false)->Ok_0;
                lemma_block(q, n, env, inner, f, body, false);
                assert(within(q, s5));
                assert(within(q, s1));
                match meaning::t_expr(q, n, f, end) {
                    Ends::Num(w, g) => {
                        lemma_count(q, n, env, t, g, b.slot, w, inclusive, label, body, code);
                        lemma_kept(s.known, s.flags, f, g);
                    },
                    _ => {},
                }
            },
            None => {},
        },
        _ => {
            let t = inside(s, None);
            lemma_stat(q, n, env, t, f, st);
            assert(within(q, lowering::l_stat(env, t, st)->Ok_0.0));
            assert(t.labels =~= seq![None]);
        },
    }
}

} // verus!
