//! The returns in a piece of code.
use crate::ast::{Arm, Block, Expr, Pattern, Stat};
use vstd::prelude::*;

verus! {

/// The returns of a block, wherever in it they stand, and whether each has a
/// value. A function written inside it returns for itself.
pub open spec fn exits_of_block(b: Block) -> Seq<bool>
    decreases b, 3int,
{
    exits_of_stats(b.stats@) + exits_of_tail(b.tail)
}

pub open spec fn exits_of_tail(t: Option<Box<Expr>>) -> Seq<bool>
    decreases t, 2int,
{
    match t {
        Some(e) => exits_of_expr(*e),
        None => Seq::empty(),
    }
}

pub open spec fn exits_of_stats(s: Seq<Stat>) -> Seq<bool>
    decreases s, 2int,
{
    if s.len() == 0 {
        Seq::empty()
    } else {
        exits_of_stats(s.drop_last()) + exits_of_stat(s[s.len() - 1])
    }
}

pub open spec fn exits_of_exprs(s: Seq<Expr>) -> Seq<bool>
    decreases s, 2int,
{
    if s.len() == 0 {
        Seq::empty()
    } else {
        exits_of_exprs(s.drop_last()) + exits_of_expr(s[s.len() - 1])
    }
}

pub open spec fn exits_of_entries(s: Seq<(Expr, Expr)>) -> Seq<bool>
    decreases s, 2int,
{
    if s.len() == 0 {
        Seq::empty()
    } else {
        exits_of_entries(s.drop_last()) + (exits_of_expr(s[s.len() - 1].0) + exits_of_expr(
            s[s.len() - 1].1,
        ))
    }
}

pub open spec fn exits_of_arms(s: Seq<(Expr, Block)>) -> Seq<bool>
    decreases s, 2int,
{
    if s.len() == 0 {
        Seq::empty()
    } else {
        exits_of_arms(s.drop_last()) + (exits_of_expr(s[s.len() - 1].0) + exits_of_block(
            s[s.len() - 1].1,
        ))
    }
}

pub open spec fn exits_of_patterns(s: Seq<Pattern>) -> Seq<bool>
    decreases s, 2int,
{
    if s.len() == 0 {
        Seq::empty()
    } else {
        exits_of_patterns(s.drop_last()) + exits_of_pattern(s[s.len() - 1])
    }
}

pub open spec fn exits_of_match(s: Seq<Arm>) -> Seq<bool>
    decreases s, 2int,
{
    if s.len() == 0 {
        Seq::empty()
    } else {
        exits_of_match(s.drop_last()) + exits_of_arm(s[s.len() - 1])
    }
}

pub open spec fn exits_of_pattern(p: Pattern) -> Seq<bool>
    decreases p, 1int,
{
    match p {
        Pattern::Lit(e) => exits_of_expr(e),
        _ => Seq::empty(),
    }
}

pub open spec fn exits_of_arm(a: Arm) -> Seq<bool>
    decreases a, 1int,
{
    exits_of_patterns(a.patterns@) + exits_of_guard(a.guard) + exits_of_block(a.body)
}

pub open spec fn exits_of_guard(g: Option<Expr>) -> Seq<bool>
    decreases g, 2int,
{
    match g {
        Some(e) => exits_of_expr(e),
        None => Seq::empty(),
    }
}

pub open spec fn exits_of_else(b: Option<Block>) -> Seq<bool>
    decreases b, 2int,
{
    match b {
        Some(b) => exits_of_block(b),
        None => Seq::empty(),
    }
}

pub open spec fn exits_of_stat(st: Stat) -> Seq<bool>
    decreases st, 1int,
{
    match st {
        Stat::Return(es) => exits_of_exprs(es@) + seq![es@.len() > 0],
        Stat::Let(_, es) => exits_of_exprs(es@),
        Stat::LetSlots(_, es) => exits_of_exprs(es@),
        Stat::Assign(ts, es) => exits_of_exprs(ts@) + exits_of_exprs(es@),
        Stat::OpAssign(t, _, e) => exits_of_expr(t) + exits_of_expr(e),
        Stat::Expr(e) => exits_of_expr(e),
        Stat::While(_, c, b) => exits_of_expr(c) + exits_of_block(b),
        Stat::Loop(_, b) => exits_of_block(b),
        Stat::ForRange { start, end, body, .. } => exits_of_expr(start) + exits_of_expr(end)
            + exits_of_block(body),
        Stat::ForIn { iter, body, .. } => exits_of_expr(iter) + exits_of_block(body),
        _ => Seq::empty(),
    }
}

pub open spec fn exits_of_expr(e: Expr) -> Seq<bool>
    decreases e, 1int,
{
    match e {
        Expr::Do(b) => exits_of_block(b),
        Expr::If(arms, els) => exits_of_arms(arms@) + exits_of_else(els),
        Expr::Match(s, arms) => exits_of_expr(*s) + exits_of_match(arms@),
        Expr::Index(a, b) => exits_of_expr(*a) + exits_of_expr(*b),
        Expr::Bin(_, a, b) => exits_of_expr(*a) + exits_of_expr(*b),
        Expr::Range(a, b, _) => exits_of_expr(*a) + exits_of_expr(*b),
        Expr::Un(_, a) => exits_of_expr(*a),
        Expr::Call(f, args) => exits_of_expr(*f) + exits_of_exprs(args@),
        Expr::Method(a, _, args) => exits_of_expr(*a) + exits_of_exprs(args@),
        Expr::Array(es) => exits_of_exprs(es@),
        Expr::Entries(es) => exits_of_entries(es@),
        _ => Seq::empty(),
    }
}

pub(super) fn exits_block(b: &Block, out: &mut Vec<bool>)
    ensures
        final(out)@ == old(out)@ + exits_of_block(*b),
    decreases *b, 3int,
{
    exits_stats(&b.stats, out);
    match &b.tail {
        Some(e) => exits_expr(e, out),
        None => {},
    }
    assert(out@ =~= old(out)@ + exits_of_block(*b));
}

fn exits_stats(s: &Vec<Stat>, out: &mut Vec<bool>)
    ensures
        final(out)@ == old(out)@ + exits_of_stats(s@),
    decreases *s, 2int,
{
    let mut i: usize = 0;
    while i < s.len()
        invariant
            i <= s@.len(),
            out@ == old(out)@ + exits_of_stats(s@.take(i as int)),
        decreases s@.len() - i,
    {
        exits_stat(&s[i], out);
        assert(s@.take(i as int + 1).drop_last() =~= s@.take(i as int));
        assert(out@ =~= old(out)@ + exits_of_stats(s@.take(i as int + 1)));
        i = i + 1;
    }
    assert(s@.take(s@.len() as int) =~= s@);
    assert(out@ =~= old(out)@ + exits_of_stats(s@));
}

fn exits_exprs(s: &Vec<Expr>, out: &mut Vec<bool>)
    ensures
        final(out)@ == old(out)@ + exits_of_exprs(s@),
    decreases *s, 2int,
{
    let mut i: usize = 0;
    while i < s.len()
        invariant
            i <= s@.len(),
            out@ == old(out)@ + exits_of_exprs(s@.take(i as int)),
        decreases s@.len() - i,
    {
        exits_expr(&s[i], out);
        assert(s@.take(i as int + 1).drop_last() =~= s@.take(i as int));
        assert(out@ =~= old(out)@ + exits_of_exprs(s@.take(i as int + 1)));
        i = i + 1;
    }
    assert(s@.take(s@.len() as int) =~= s@);
    assert(out@ =~= old(out)@ + exits_of_exprs(s@));
}

fn exits_entries(s: &Vec<(Expr, Expr)>, out: &mut Vec<bool>)
    ensures
        final(out)@ == old(out)@ + exits_of_entries(s@),
    decreases *s, 2int,
{
    let mut i: usize = 0;
    while i < s.len()
        invariant
            i <= s@.len(),
            out@ == old(out)@ + exits_of_entries(s@.take(i as int)),
        decreases s@.len() - i,
    {
        exits_expr(&s[i].0, out);
        exits_expr(&s[i].1, out);
        assert(s@.take(i as int + 1).drop_last() =~= s@.take(i as int));
        assert(out@ =~= old(out)@ + exits_of_entries(s@.take(i as int + 1)));
        i = i + 1;
    }
    assert(s@.take(s@.len() as int) =~= s@);
    assert(out@ =~= old(out)@ + exits_of_entries(s@));
}

fn exits_arms(s: &Vec<(Expr, Block)>, out: &mut Vec<bool>)
    ensures
        final(out)@ == old(out)@ + exits_of_arms(s@),
    decreases *s, 2int,
{
    let mut i: usize = 0;
    while i < s.len()
        invariant
            i <= s@.len(),
            out@ == old(out)@ + exits_of_arms(s@.take(i as int)),
        decreases s@.len() - i,
    {
        exits_expr(&s[i].0, out);
        exits_block(&s[i].1, out);
        assert(s@.take(i as int + 1).drop_last() =~= s@.take(i as int));
        assert(out@ =~= old(out)@ + exits_of_arms(s@.take(i as int + 1)));
        i = i + 1;
    }
    assert(s@.take(s@.len() as int) =~= s@);
    assert(out@ =~= old(out)@ + exits_of_arms(s@));
}

fn exits_patterns(s: &Vec<Pattern>, out: &mut Vec<bool>)
    ensures
        final(out)@ == old(out)@ + exits_of_patterns(s@),
    decreases *s, 2int,
{
    let mut i: usize = 0;
    while i < s.len()
        invariant
            i <= s@.len(),
            out@ == old(out)@ + exits_of_patterns(s@.take(i as int)),
        decreases s@.len() - i,
    {
        exits_pattern(&s[i], out);
        assert(s@.take(i as int + 1).drop_last() =~= s@.take(i as int));
        assert(out@ =~= old(out)@ + exits_of_patterns(s@.take(i as int + 1)));
        i = i + 1;
    }
    assert(s@.take(s@.len() as int) =~= s@);
    assert(out@ =~= old(out)@ + exits_of_patterns(s@));
}

fn exits_match(s: &Vec<Arm>, out: &mut Vec<bool>)
    ensures
        final(out)@ == old(out)@ + exits_of_match(s@),
    decreases *s, 2int,
{
    let mut i: usize = 0;
    while i < s.len()
        invariant
            i <= s@.len(),
            out@ == old(out)@ + exits_of_match(s@.take(i as int)),
        decreases s@.len() - i,
    {
        exits_arm(&s[i], out);
        assert(s@.take(i as int + 1).drop_last() =~= s@.take(i as int));
        assert(out@ =~= old(out)@ + exits_of_match(s@.take(i as int + 1)));
        i = i + 1;
    }
    assert(s@.take(s@.len() as int) =~= s@);
    assert(out@ =~= old(out)@ + exits_of_match(s@));
}

fn exits_pattern(p: &Pattern, out: &mut Vec<bool>)
    ensures
        final(out)@ == old(out)@ + exits_of_pattern(*p),
    decreases *p, 1int,
{
    match p {
        Pattern::Lit(e) => exits_expr(e, out),
        _ => {},
    }
    assert(out@ =~= old(out)@ + exits_of_pattern(*p));
}

fn exits_arm(a: &Arm, out: &mut Vec<bool>)
    ensures
        final(out)@ == old(out)@ + exits_of_arm(*a),
    decreases *a, 1int,
{
    exits_patterns(&a.patterns, out);
    match &a.guard {
        Some(e) => exits_expr(e, out),
        None => {},
    }
    exits_block(&a.body, out);
    assert(out@ =~= old(out)@ + exits_of_arm(*a));
}

fn exits_else(b: &Option<Block>, out: &mut Vec<bool>)
    ensures
        final(out)@ == old(out)@ + exits_of_else(*b),
    decreases *b, 2int,
{
    match b {
        Some(b) => exits_block(b, out),
        None => {},
    }
    assert(out@ =~= old(out)@ + exits_of_else(*b));
}

fn exits_stat(st: &Stat, out: &mut Vec<bool>)
    ensures
        final(out)@ == old(out)@ + exits_of_stat(*st),
    decreases *st, 1int,
{
    match st {
        Stat::Return(es) => {
            exits_exprs(es, out);
            out.push(es.len() > 0);
        },
        Stat::Let(_, es) => {
            exits_exprs(es, out);
        },
        Stat::LetSlots(_, es) => {
            exits_exprs(es, out);
        },
        Stat::Assign(ts, es) => {
            exits_exprs(ts, out);
            exits_exprs(es, out);
        },
        Stat::OpAssign(t, _, e) => {
            exits_expr(t, out);
            exits_expr(e, out);
        },
        Stat::Expr(e) => {
            exits_expr(e, out);
        },
        Stat::While(_, c, b) => {
            exits_expr(c, out);
            exits_block(b, out);
        },
        Stat::Loop(_, b) => {
            exits_block(b, out);
        },
        Stat::ForRange { start, end, body, .. } => {
            exits_expr(start, out);
            exits_expr(end, out);
            exits_block(body, out);
        },
        Stat::ForIn { iter, body, .. } => {
            exits_expr(iter, out);
            exits_block(body, out);
        },
        _ => {},
    }
    assert(out@ =~= old(out)@ + exits_of_stat(*st));
}

fn exits_expr(e: &Expr, out: &mut Vec<bool>)
    ensures
        final(out)@ == old(out)@ + exits_of_expr(*e),
    decreases *e, 1int,
{
    match e {
        Expr::Do(b) => {
            exits_block(b, out);
        },
        Expr::If(arms, els) => {
            exits_arms(arms, out);
            exits_else(els, out);
        },
        Expr::Match(s, arms) => {
            exits_expr(s, out);
            exits_match(arms, out);
        },
        Expr::Index(a, b) => {
            exits_expr(a, out);
            exits_expr(b, out);
        },
        Expr::Bin(_, a, b) => {
            exits_expr(a, out);
            exits_expr(b, out);
        },
        Expr::Range(a, b, _) => {
            exits_expr(a, out);
            exits_expr(b, out);
        },
        Expr::Un(_, a) => {
            exits_expr(a, out);
        },
        Expr::Call(f, args) => {
            exits_expr(f, out);
            exits_exprs(args, out);
        },
        Expr::Method(a, _, args) => {
            exits_expr(a, out);
            exits_exprs(args, out);
        },
        Expr::Array(es) => {
            exits_exprs(es, out);
        },
        Expr::Entries(es) => {
            exits_entries(es, out);
        },
        _ => {},
    }
    assert(out@ =~= old(out)@ + exits_of_expr(*e));
}

/// Does this loop return from its function? Such a loop stays interpreted.
pub fn contains_return(st: &Stat) -> (r: bool)
    ensures
        r == (exits_of_stat(*st).len() > 0),
{
    let mut all: Vec<bool> = Vec::new();
    exits_stat(st, &mut all);
    assert(all@ =~= exits_of_stat(*st));
    all.len() > 0
}

/// Does any path in this block return a value?
pub fn returns_a_value(b: &Block) -> (r: bool)
    ensures
        r == exits_of_block(*b).contains(true),
{
    let mut all: Vec<bool> = Vec::new();
    exits_block(b, &mut all);
    assert(all@ =~= exits_of_block(*b));
    let mut i: usize = 0;
    while i < all.len()
        invariant
            i <= all@.len(),
            all@ == exits_of_block(*b),
            forall|k: int| 0 <= k < i ==> !#[trigger] all@[k],
        decreases all@.len() - i,
    {
        if all[i] {
            assert(all@[i as int]);
            return true;
        }
        i = i + 1;
    }
    assert(!all@.contains(true));
    false
}

} // verus!
