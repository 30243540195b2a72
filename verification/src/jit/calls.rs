//! Which globals a function calls.
use crate::ast::{Arm, Block, Expr, FuncDef, Pattern, Stat};
use vstd::prelude::*;

verus! {

/// The texts of a run of strings.
pub open spec fn texts(s: Seq<String>) -> Seq<Seq<char>> {
    Seq::new(s.len(), |i: int| s[i]@)
}

/// The global a call names.
pub open spec fn callee(f: Expr) -> Seq<Seq<char>> {
    match f {
        Expr::Global(name, _) => seq![name@],
        _ => Seq::empty(),
    }
}

/// The globals a block calls, in the order the calls are written.
pub open spec fn calls_of_block(b: Block) -> Seq<Seq<char>>
    decreases b, 3int,
{
    calls_of_stats(b.stats@) + calls_of_tail(b.tail)
}

pub open spec fn calls_of_tail(t: Option<Box<Expr>>) -> Seq<Seq<char>>
    decreases t, 2int,
{
    match t {
        Some(e) => calls_of_expr(*e),
        None => Seq::empty(),
    }
}

pub open spec fn calls_of_stats(s: Seq<Stat>) -> Seq<Seq<char>>
    decreases s, 2int,
{
    if s.len() == 0 {
        Seq::empty()
    } else {
        calls_of_stats(s.drop_last()) + calls_of_stat(s[s.len() - 1])
    }
}

pub open spec fn calls_of_exprs(s: Seq<Expr>) -> Seq<Seq<char>>
    decreases s, 2int,
{
    if s.len() == 0 {
        Seq::empty()
    } else {
        calls_of_exprs(s.drop_last()) + calls_of_expr(s[s.len() - 1])
    }
}

pub open spec fn calls_of_entries(s: Seq<(Expr, Expr)>) -> Seq<Seq<char>>
    decreases s, 2int,
{
    if s.len() == 0 {
        Seq::empty()
    } else {
        calls_of_entries(s.drop_last()) + calls_of_expr(s[s.len() - 1].0) + calls_of_expr(s[s.len() - 1].1)
    }
}

pub open spec fn calls_of_arms(s: Seq<(Expr, Block)>) -> Seq<Seq<char>>
    decreases s, 2int,
{
    if s.len() == 0 {
        Seq::empty()
    } else {
        calls_of_arms(s.drop_last()) + calls_of_expr(s[s.len() - 1].0) + calls_of_block(s[s.len() - 1].1)
    }
}

pub open spec fn calls_of_else(b: Option<Block>) -> Seq<Seq<char>>
    decreases b, 2int,
{
    match b {
        Some(b) => calls_of_block(b),
        None => Seq::empty(),
    }
}

pub open spec fn calls_of_match(s: Seq<Arm>) -> Seq<Seq<char>>
    decreases s, 2int,
{
    if s.len() == 0 {
        Seq::empty()
    } else {
        calls_of_match(s.drop_last()) + calls_of_patterns(s[s.len() - 1].patterns@) + calls_of_guard(s[s.len() - 1].guard) + calls_of_block(s[s.len() - 1].body)
    }
}

pub open spec fn calls_of_patterns(s: Seq<Pattern>) -> Seq<Seq<char>>
    decreases s, 2int,
{
    if s.len() == 0 {
        Seq::empty()
    } else {
        calls_of_patterns(s.drop_last()) + calls_of_pattern(s[s.len() - 1])
    }
}

pub open spec fn calls_of_pattern(p: Pattern) -> Seq<Seq<char>>
    decreases p, 1int,
{
    match p {
        Pattern::Lit(e) => calls_of_expr(e),
        _ => Seq::empty(),
    }
}

pub open spec fn calls_of_guard(g: Option<Expr>) -> Seq<Seq<char>>
    decreases g, 2int,
{
    match g {
        Some(e) => calls_of_expr(e),
        None => Seq::empty(),
    }
}

pub open spec fn calls_of_stat(st: Stat) -> Seq<Seq<char>>
    decreases st, 1int,
{
    match st {
        Stat::Let(_, es) => calls_of_exprs(es@),
        Stat::LetSlots(bs, es) => calls_of_exprs(es@),
        Stat::Return(es) => calls_of_exprs(es@),
        Stat::FnDecl(_, e) => calls_of_expr(e),
        Stat::FnSlot(b, e) => calls_of_expr(e),
        Stat::Expr(e) => calls_of_expr(e),
        Stat::Assign(ts, es) => calls_of_exprs(ts@) + calls_of_exprs(es@),
        Stat::OpAssign(t, _, e) => calls_of_expr(t) + calls_of_expr(e),
        Stat::While(_, c, b) => calls_of_expr(c) + calls_of_block(b),
        Stat::Loop(_, b) => calls_of_block(b),
        Stat::ForRange { binding, start, end, body, .. } => calls_of_expr(start) + calls_of_expr(end) + calls_of_block(body),
        Stat::ForIn { bindings, iter, body, .. } => calls_of_expr(iter) + calls_of_block(body),
        _ => Seq::empty(),
    }
}

pub open spec fn calls_of_expr(e: Expr) -> Seq<Seq<char>>
    decreases e, 1int,
{
    match e {
        Expr::Call(f, args) => callee(*f) + calls_of_expr(*f) + calls_of_exprs(args@),
        Expr::Method(o, name, args) => calls_of_expr(*o) + calls_of_exprs(args@),
        Expr::Index(a, b) => calls_of_expr(*a) + calls_of_expr(*b),
        Expr::Bin(_, a, b) => calls_of_expr(*a) + calls_of_expr(*b),
        Expr::Range(a, b, _) => calls_of_expr(*a) + calls_of_expr(*b),
        Expr::Un(_, a) => calls_of_expr(*a),
        Expr::Array(items) => calls_of_exprs(items@),
        Expr::Entries(items) => calls_of_entries(items@),
        Expr::If(arms, els) => calls_of_arms(arms@) + calls_of_else(els),
        Expr::Match(subject, arms) => calls_of_expr(*subject) + calls_of_match(arms@),
        Expr::Do(b) => calls_of_block(b),
        _ => Seq::empty(),
    }
}

fn note_callee(f: &Expr, out: &mut Vec<String>)
    ensures
        texts(final(out)@) == texts(old(out)@) + callee(*f),
{
    match f {
        Expr::Global(name, _) => out.push(name.clone()),
        _ => {},
    }
    assert(texts(out@) =~= texts(old(out)@) + callee(*f));
}

pub(super) fn calls_block(b: &Block, out: &mut Vec<String>)
    ensures
        texts(final(out)@) == texts(old(out)@) + calls_of_block(*b),
    decreases *b, 3int,
{
    calls_stats(&b.stats, out);
    match &b.tail {
        Some(e) => calls_expr(e, out),
        None => {},
    }
    assert(texts(out@) =~= texts(old(out)@) + calls_of_block(*b));
}

fn calls_stats(s: &Vec<Stat>, out: &mut Vec<String>)
    ensures
        texts(final(out)@) == texts(old(out)@) + calls_of_stats(s@),
    decreases *s, 2int,
{
    let mut i: usize = 0;
    while i < s.len()
        invariant
            i <= s@.len(),
            texts(out@) == texts(old(out)@) + calls_of_stats(s@.take(i as int)),
        decreases s@.len() - i,
    {
        let ghost before = texts(out@);
        calls_stat(&s[i], out);
        assert(s@.take(i as int + 1).drop_last() =~= s@.take(i as int));
        assert(texts(out@) =~= texts(old(out)@) + calls_of_stats(s@.take(i as int + 1)));
        i = i + 1;
    }
    assert(s@.take(s@.len() as int) =~= s@);
    assert(texts(out@) =~= texts(old(out)@) + calls_of_stats(s@));
}

fn calls_exprs(s: &Vec<Expr>, out: &mut Vec<String>)
    ensures
        texts(final(out)@) == texts(old(out)@) + calls_of_exprs(s@),
    decreases *s, 2int,
{
    let mut i: usize = 0;
    while i < s.len()
        invariant
            i <= s@.len(),
            texts(out@) == texts(old(out)@) + calls_of_exprs(s@.take(i as int)),
        decreases s@.len() - i,
    {
        let ghost before = texts(out@);
        calls_expr(&s[i], out);
        assert(s@.take(i as int + 1).drop_last() =~= s@.take(i as int));
        assert(texts(out@) =~= texts(old(out)@) + calls_of_exprs(s@.take(i as int + 1)));
        i = i + 1;
    }
    assert(s@.take(s@.len() as int) =~= s@);
    assert(texts(out@) =~= texts(old(out)@) + calls_of_exprs(s@));
}

fn calls_entries(s: &Vec<(Expr, Expr)>, out: &mut Vec<String>)
    ensures
        texts(final(out)@) == texts(old(out)@) + calls_of_entries(s@),
    decreases *s, 2int,
{
    let mut i: usize = 0;
    while i < s.len()
        invariant
            i <= s@.len(),
            texts(out@) == texts(old(out)@) + calls_of_entries(s@.take(i as int)),
        decreases s@.len() - i,
    {
        let ghost before = texts(out@);
        calls_expr(&s[i].0, out);
        calls_expr(&s[i].1, out);
        assert(s@.take(i as int + 1).drop_last() =~= s@.take(i as int));
        assert(texts(out@) =~= texts(old(out)@) + calls_of_entries(s@.take(i as int + 1)));
        i = i + 1;
    }
    assert(s@.take(s@.len() as int) =~= s@);
    assert(texts(out@) =~= texts(old(out)@) + calls_of_entries(s@));
}

fn calls_arms(s: &Vec<(Expr, Block)>, out: &mut Vec<String>)
    ensures
        texts(final(out)@) == texts(old(out)@) + calls_of_arms(s@),
    decreases *s, 2int,
{
    let mut i: usize = 0;
    while i < s.len()
        invariant
            i <= s@.len(),
            texts(out@) == texts(old(out)@) + calls_of_arms(s@.take(i as int)),
        decreases s@.len() - i,
    {
        let ghost before = texts(out@);
        calls_expr(&s[i].0, out);
        calls_block(&s[i].1, out);
        assert(s@.take(i as int + 1).drop_last() =~= s@.take(i as int));
        assert(texts(out@) =~= texts(old(out)@) + calls_of_arms(s@.take(i as int + 1)));
        i = i + 1;
    }
    assert(s@.take(s@.len() as int) =~= s@);
    assert(texts(out@) =~= texts(old(out)@) + calls_of_arms(s@));
}

fn calls_else(b: &Option<Block>, out: &mut Vec<String>)
    ensures
        texts(final(out)@) == texts(old(out)@) + calls_of_else(*b),
    decreases *b, 2int,
{
    match b {
        Some(b) => calls_block(b, out),
        None => {},
    }
    assert(texts(out@) =~= texts(old(out)@) + calls_of_else(*b));
}

fn calls_match(s: &Vec<Arm>, out: &mut Vec<String>)
    ensures
        texts(final(out)@) == texts(old(out)@) + calls_of_match(s@),
    decreases *s, 2int,
{
    let mut i: usize = 0;
    while i < s.len()
        invariant
            i <= s@.len(),
            texts(out@) == texts(old(out)@) + calls_of_match(s@.take(i as int)),
        decreases s@.len() - i,
    {
        let ghost before = texts(out@);
        calls_patterns(&s[i].patterns, out);
        calls_guard(&s[i].guard, out);
        calls_block(&s[i].body, out);
        assert(s@.take(i as int + 1).drop_last() =~= s@.take(i as int));
        assert(texts(out@) =~= texts(old(out)@) + calls_of_match(s@.take(i as int + 1)));
        i = i + 1;
    }
    assert(s@.take(s@.len() as int) =~= s@);
    assert(texts(out@) =~= texts(old(out)@) + calls_of_match(s@));
}

fn calls_patterns(s: &Vec<Pattern>, out: &mut Vec<String>)
    ensures
        texts(final(out)@) == texts(old(out)@) + calls_of_patterns(s@),
    decreases *s, 2int,
{
    let mut i: usize = 0;
    while i < s.len()
        invariant
            i <= s@.len(),
            texts(out@) == texts(old(out)@) + calls_of_patterns(s@.take(i as int)),
        decreases s@.len() - i,
    {
        let ghost before = texts(out@);
        calls_pattern(&s[i], out);
        assert(s@.take(i as int + 1).drop_last() =~= s@.take(i as int));
        assert(texts(out@) =~= texts(old(out)@) + calls_of_patterns(s@.take(i as int + 1)));
        i = i + 1;
    }
    assert(s@.take(s@.len() as int) =~= s@);
    assert(texts(out@) =~= texts(old(out)@) + calls_of_patterns(s@));
}

fn calls_pattern(p: &Pattern, out: &mut Vec<String>)
    ensures
        texts(final(out)@) == texts(old(out)@) + calls_of_pattern(*p),
    decreases *p, 1int,
{
    match p {
        Pattern::Lit(e) => {
            calls_expr(e, out);
        },
        _ => {},
    }
    assert(texts(out@) =~= texts(old(out)@) + calls_of_pattern(*p));
}

fn calls_guard(g: &Option<Expr>, out: &mut Vec<String>)
    ensures
        texts(final(out)@) == texts(old(out)@) + calls_of_guard(*g),
    decreases *g, 2int,
{
    match g {
        Some(e) => calls_expr(e, out),
        None => {},
    }
    assert(texts(out@) =~= texts(old(out)@) + calls_of_guard(*g));
}

fn calls_stat(st: &Stat, out: &mut Vec<String>)
    ensures
        texts(final(out)@) == texts(old(out)@) + calls_of_stat(*st),
    decreases *st, 1int,
{
    match st {
        Stat::Let(_, es) => {
            calls_exprs(es, out);
        },
        Stat::LetSlots(bs, es) => {
            calls_exprs(es, out);
        },
        Stat::Return(es) => {
            calls_exprs(es, out);
        },
        Stat::FnDecl(_, e) => {
            calls_expr(e, out);
        },
        Stat::FnSlot(b, e) => {
            calls_expr(e, out);
        },
        Stat::Expr(e) => {
            calls_expr(e, out);
        },
        Stat::Assign(ts, es) => {
            calls_exprs(ts, out);
            calls_exprs(es, out);
        },
        Stat::OpAssign(t, _, e) => {
            calls_expr(t, out);
            calls_expr(e, out);
        },
        Stat::While(_, c, b) => {
            calls_expr(c, out);
            calls_block(b, out);
        },
        Stat::Loop(_, b) => {
            calls_block(b, out);
        },
        Stat::ForRange { binding, start, end, body, .. } => {
            calls_expr(start, out);
            calls_expr(end, out);
            calls_block(body, out);
        },
        Stat::ForIn { bindings, iter, body, .. } => {
            calls_expr(iter, out);
            calls_block(body, out);
        },
        _ => {},
    }
    assert(texts(out@) =~= texts(old(out)@) + calls_of_stat(*st));
}

fn calls_expr(e: &Expr, out: &mut Vec<String>)
    ensures
        texts(final(out)@) == texts(old(out)@) + calls_of_expr(*e),
    decreases *e, 1int,
{
    match e {
        Expr::Call(f, args) => {
            note_callee(f, out);
            calls_expr(f, out);
            calls_exprs(args, out);
        },
        Expr::Method(o, name, args) => {
            calls_expr(o, out);
            calls_exprs(args, out);
        },
        Expr::Index(a, b) => {
            calls_expr(a, out);
            calls_expr(b, out);
        },
        Expr::Bin(_, a, b) => {
            calls_expr(a, out);
            calls_expr(b, out);
        },
        Expr::Range(a, b, _) => {
            calls_expr(a, out);
            calls_expr(b, out);
        },
        Expr::Un(_, a) => {
            calls_expr(a, out);
        },
        Expr::Array(items) => {
            calls_exprs(items, out);
        },
        Expr::Entries(items) => {
            calls_entries(items, out);
        },
        Expr::If(arms, els) => {
            calls_arms(arms, out);
            calls_else(els, out);
        },
        Expr::Match(subject, arms) => {
            calls_expr(subject, out);
            calls_match(arms, out);
        },
        Expr::Do(b) => {
            calls_block(b, out);
        },
        _ => {},
    }
    assert(texts(out@) =~= texts(old(out)@) + calls_of_expr(*e));
}

/// The globals this function calls: what has to be compiled before it.
pub fn called_globals(def: &FuncDef) -> (r: Vec<String>)
    ensures
        texts(r@) == calls_of_block(def.body),
{
    let mut out: Vec<String> = Vec::new();
    calls_block(&def.body, &mut out);
    assert(texts(out@) =~= calls_of_block(def.body));
    out
}

} // verus!
