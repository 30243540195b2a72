//! Where slots are defined.
use super::walk;
use crate::ast::{Arm, Block, Expr, Pattern, Stat};
use vstd::prelude::*;

verus! {

/// An assignment defines the local it names; any other target may hold blocks
/// that define something.
pub open spec fn defs_of_target(t: Expr) -> Seq<u16>
    decreases t, 2int,
{
    match t {
        Expr::Local(b, _) => seq![b.slot],
        _ => defs_of_expr(t),
    }
}

pub open spec fn defs_of_targets(s: Seq<Expr>) -> Seq<u16>
    decreases s, 2int,
{
    if s.len() == 0 {
        Seq::empty()
    } else {
        defs_of_targets(s.drop_last()) + defs_of_target(s[s.len() - 1])
    }
}

/// Every place that defines a slot: bindings of every sort, and assignments.
pub open spec fn defs_of_block(b: Block) -> Seq<u16>
    decreases b, 3int,
{
    defs_of_stats(b.stats@) + defs_of_tail(b.tail)
}

pub open spec fn defs_of_tail(t: Option<Box<Expr>>) -> Seq<u16>
    decreases t, 2int,
{
    match t {
        Some(e) => defs_of_expr(*e),
        None => Seq::empty(),
    }
}

pub open spec fn defs_of_stats(s: Seq<Stat>) -> Seq<u16>
    decreases s, 2int,
{
    if s.len() == 0 {
        Seq::empty()
    } else {
        defs_of_stats(s.drop_last()) + defs_of_stat(s[s.len() - 1])
    }
}

pub open spec fn defs_of_exprs(s: Seq<Expr>) -> Seq<u16>
    decreases s, 2int,
{
    if s.len() == 0 {
        Seq::empty()
    } else {
        defs_of_exprs(s.drop_last()) + defs_of_expr(s[s.len() - 1])
    }
}

pub open spec fn defs_of_entries(s: Seq<(Expr, Expr)>) -> Seq<u16>
    decreases s, 2int,
{
    if s.len() == 0 {
        Seq::empty()
    } else {
        defs_of_entries(s.drop_last()) + defs_of_expr(s[s.len() - 1].0) + defs_of_expr(s[s.len() - 1].1)
    }
}

pub open spec fn defs_of_arms(s: Seq<(Expr, Block)>) -> Seq<u16>
    decreases s, 2int,
{
    if s.len() == 0 {
        Seq::empty()
    } else {
        defs_of_arms(s.drop_last()) + defs_of_expr(s[s.len() - 1].0) + defs_of_block(s[s.len() - 1].1)
    }
}

pub open spec fn defs_of_else(b: Option<Block>) -> Seq<u16>
    decreases b, 2int,
{
    match b {
        Some(b) => defs_of_block(b),
        None => Seq::empty(),
    }
}

pub open spec fn defs_of_match(s: Seq<Arm>) -> Seq<u16>
    decreases s, 2int,
{
    if s.len() == 0 {
        Seq::empty()
    } else {
        defs_of_match(s.drop_last()) + defs_of_patterns(s[s.len() - 1].patterns@) + defs_of_block(s[s.len() - 1].body)
    }
}

pub open spec fn defs_of_patterns(s: Seq<Pattern>) -> Seq<u16>
    decreases s, 2int,
{
    if s.len() == 0 {
        Seq::empty()
    } else {
        defs_of_patterns(s.drop_last()) + defs_of_pattern(s[s.len() - 1])
    }
}

pub open spec fn defs_of_pattern(p: Pattern) -> Seq<u16>
    decreases p, 1int,
{
    match p {
        Pattern::Bind(_, Some(b)) => seq![b.slot],
        _ => Seq::empty(),
    }
}

pub open spec fn defs_of_stat(st: Stat) -> Seq<u16>
    decreases st, 1int,
{
    match st {
        Stat::Let(_, es) => defs_of_exprs(es@),
        Stat::LetSlots(bs, es) => walk::slots_of(bs@) + defs_of_exprs(es@),
        Stat::Return(es) => defs_of_exprs(es@),
        Stat::FnDecl(_, e) => defs_of_expr(e),
        Stat::FnSlot(b, e) => seq![b.slot] + defs_of_expr(e),
        Stat::Expr(e) => defs_of_expr(e),
        Stat::Assign(ts, es) => defs_of_targets(ts@) + defs_of_exprs(es@),
        Stat::OpAssign(t, _, e) => defs_of_target(t) + defs_of_expr(e),
        Stat::While(_, c, b) => defs_of_expr(c) + defs_of_block(b),
        Stat::Loop(_, b) => defs_of_block(b),
        Stat::ForRange { binding, start, end, body, .. } => walk::slot_if(binding) + defs_of_expr(start) + defs_of_expr(end) + defs_of_block(body),
        Stat::ForIn { bindings, iter, body, .. } => walk::slots_of(bindings@) + defs_of_expr(iter) + defs_of_block(body),
        _ => Seq::empty(),
    }
}

pub open spec fn defs_of_expr(e: Expr) -> Seq<u16>
    decreases e, 1int,
{
    match e {
        Expr::Call(f, args) => defs_of_expr(*f) + defs_of_exprs(args@),
        Expr::Method(o, name, args) => defs_of_expr(*o) + defs_of_exprs(args@),
        Expr::Index(a, b) => defs_of_expr(*a) + defs_of_expr(*b),
        Expr::Bin(_, a, b) => defs_of_expr(*a) + defs_of_expr(*b),
        Expr::Range(a, b, _) => defs_of_expr(*a) + defs_of_expr(*b),
        Expr::Un(_, a) => defs_of_expr(*a),
        Expr::Array(items) => defs_of_exprs(items@),
        Expr::Entries(items) => defs_of_entries(items@),
        Expr::If(arms, els) => defs_of_arms(arms@) + defs_of_else(els),
        Expr::Match(subject, arms) => defs_of_expr(*subject) + defs_of_match(arms@),
        Expr::Do(b) => defs_of_block(b),
        _ => Seq::empty(),
    }
}

fn defs_target(t: &Expr, out: &mut Vec<u16>)
    ensures
        final(out)@ == old(out)@ + defs_of_target(*t),
    decreases *t, 2int,
{
    match t {
        Expr::Local(b, _) => out.push(b.slot),
        _ => defs_expr(t, out),
    }
    assert(out@ =~= old(out)@ + defs_of_target(*t));
}

fn defs_targets(s: &Vec<Expr>, out: &mut Vec<u16>)
    ensures
        final(out)@ == old(out)@ + defs_of_targets(s@),
    decreases *s, 2int,
{
    let mut i: usize = 0;
    while i < s.len()
        invariant
            i <= s@.len(),
            out@ == old(out)@ + defs_of_targets(s@.take(i as int)),
        decreases s@.len() - i,
    {
        defs_target(&s[i], out);
        assert(s@.take(i as int + 1).drop_last() =~= s@.take(i as int));
        assert(out@ =~= old(out)@ + defs_of_targets(s@.take(i as int + 1)));
        i = i + 1;
    }
    assert(s@.take(s@.len() as int) =~= s@);
}

pub(super) fn defs_block(b: &Block, out: &mut Vec<u16>)
    ensures
        final(out)@ == old(out)@ + defs_of_block(*b),
    decreases *b, 3int,
{
    defs_stats(&b.stats, out);
    match &b.tail {
        Some(e) => defs_expr(e, out),
        None => {},
    }
    assert(out@ =~= old(out)@ + defs_of_block(*b));
}

fn defs_stats(s: &Vec<Stat>, out: &mut Vec<u16>)
    ensures
        final(out)@ == old(out)@ + defs_of_stats(s@),
    decreases *s, 2int,
{
    let mut i: usize = 0;
    while i < s.len()
        invariant
            i <= s@.len(),
            out@ == old(out)@ + defs_of_stats(s@.take(i as int)),
        decreases s@.len() - i,
    {
        let ghost before = out@;
        defs_stat(&s[i], out);
        assert(s@.take(i as int + 1).drop_last() =~= s@.take(i as int));
        assert(out@ =~= old(out)@ + defs_of_stats(s@.take(i as int + 1)));
        i = i + 1;
    }
    assert(s@.take(s@.len() as int) =~= s@);
    assert(out@ =~= old(out)@ + defs_of_stats(s@));
}

fn defs_exprs(s: &Vec<Expr>, out: &mut Vec<u16>)
    ensures
        final(out)@ == old(out)@ + defs_of_exprs(s@),
    decreases *s, 2int,
{
    let mut i: usize = 0;
    while i < s.len()
        invariant
            i <= s@.len(),
            out@ == old(out)@ + defs_of_exprs(s@.take(i as int)),
        decreases s@.len() - i,
    {
        let ghost before = out@;
        defs_expr(&s[i], out);
        assert(s@.take(i as int + 1).drop_last() =~= s@.take(i as int));
        assert(out@ =~= old(out)@ + defs_of_exprs(s@.take(i as int + 1)));
        i = i + 1;
    }
    assert(s@.take(s@.len() as int) =~= s@);
    assert(out@ =~= old(out)@ + defs_of_exprs(s@));
}

fn defs_entries(s: &Vec<(Expr, Expr)>, out: &mut Vec<u16>)
    ensures
        final(out)@ == old(out)@ + defs_of_entries(s@),
    decreases *s, 2int,
{
    let mut i: usize = 0;
    while i < s.len()
        invariant
            i <= s@.len(),
            out@ == old(out)@ + defs_of_entries(s@.take(i as int)),
        decreases s@.len() - i,
    {
        let ghost before = out@;
        defs_expr(&s[i].0, out);
        defs_expr(&s[i].1, out);
        assert(s@.take(i as int + 1).drop_last() =~= s@.take(i as int));
        assert(out@ =~= old(out)@ + defs_of_entries(s@.take(i as int + 1)));
        i = i + 1;
    }
    assert(s@.take(s@.len() as int) =~= s@);
    assert(out@ =~= old(out)@ + defs_of_entries(s@));
}

fn defs_arms(s: &Vec<(Expr, Block)>, out: &mut Vec<u16>)
    ensures
        final(out)@ == old(out)@ + defs_of_arms(s@),
    decreases *s, 2int,
{
    let mut i: usize = 0;
    while i < s.len()
        invariant
            i <= s@.len(),
            out@ == old(out)@ + defs_of_arms(s@.take(i as int)),
        decreases s@.len() - i,
    {
        let ghost before = out@;
        defs_expr(&s[i].0, out);
        defs_block(&s[i].1, out);
        assert(s@.take(i as int + 1).drop_last() =~= s@.take(i as int));
        assert(out@ =~= old(out)@ + defs_of_arms(s@.take(i as int + 1)));
        i = i + 1;
    }
    assert(s@.take(s@.len() as int) =~= s@);
    assert(out@ =~= old(out)@ + defs_of_arms(s@));
}

fn defs_else(b: &Option<Block>, out: &mut Vec<u16>)
    ensures
        final(out)@ == old(out)@ + defs_of_else(*b),
    decreases *b, 2int,
{
    match b {
        Some(b) => defs_block(b, out),
        None => {},
    }
    assert(out@ =~= old(out)@ + defs_of_else(*b));
}

fn defs_match(s: &Vec<Arm>, out: &mut Vec<u16>)
    ensures
        final(out)@ == old(out)@ + defs_of_match(s@),
    decreases *s, 2int,
{
    let mut i: usize = 0;
    while i < s.len()
        invariant
            i <= s@.len(),
            out@ == old(out)@ + defs_of_match(s@.take(i as int)),
        decreases s@.len() - i,
    {
        let ghost before = out@;
        defs_patterns(&s[i].patterns, out);
        defs_block(&s[i].body, out);
        assert(s@.take(i as int + 1).drop_last() =~= s@.take(i as int));
        assert(out@ =~= old(out)@ + defs_of_match(s@.take(i as int + 1)));
        i = i + 1;
    }
    assert(s@.take(s@.len() as int) =~= s@);
    assert(out@ =~= old(out)@ + defs_of_match(s@));
}

fn defs_patterns(s: &Vec<Pattern>, out: &mut Vec<u16>)
    ensures
        final(out)@ == old(out)@ + defs_of_patterns(s@),
    decreases *s, 2int,
{
    let mut i: usize = 0;
    while i < s.len()
        invariant
            i <= s@.len(),
            out@ == old(out)@ + defs_of_patterns(s@.take(i as int)),
        decreases s@.len() - i,
    {
        let ghost before = out@;
        defs_pattern(&s[i], out);
        assert(s@.take(i as int + 1).drop_last() =~= s@.take(i as int));
        assert(out@ =~= old(out)@ + defs_of_patterns(s@.take(i as int + 1)));
        i = i + 1;
    }
    assert(s@.take(s@.len() as int) =~= s@);
    assert(out@ =~= old(out)@ + defs_of_patterns(s@));
}

fn defs_pattern(p: &Pattern, out: &mut Vec<u16>)
    ensures
        final(out)@ == old(out)@ + defs_of_pattern(*p),
    decreases *p, 1int,
{
    match p {
        Pattern::Bind(_, Some(b)) => {
            out.push(b.slot);
        },
        _ => {},
    }
    assert(out@ =~= old(out)@ + defs_of_pattern(*p));
}

pub(super) fn defs_stat(st: &Stat, out: &mut Vec<u16>)
    ensures
        final(out)@ == old(out)@ + defs_of_stat(*st),
    decreases *st, 1int,
{
    match st {
        Stat::Let(_, es) => {
            defs_exprs(es, out);
        },
        Stat::LetSlots(bs, es) => {
            walk::push_slots(bs, out);
            defs_exprs(es, out);
        },
        Stat::Return(es) => {
            defs_exprs(es, out);
        },
        Stat::FnDecl(_, e) => {
            defs_expr(e, out);
        },
        Stat::FnSlot(b, e) => {
            out.push(b.slot);
            defs_expr(e, out);
        },
        Stat::Expr(e) => {
            defs_expr(e, out);
        },
        Stat::Assign(ts, es) => {
            defs_targets(ts, out);
            defs_exprs(es, out);
        },
        Stat::OpAssign(t, _, e) => {
            defs_target(t, out);
            defs_expr(e, out);
        },
        Stat::While(_, c, b) => {
            defs_expr(c, out);
            defs_block(b, out);
        },
        Stat::Loop(_, b) => {
            defs_block(b, out);
        },
        Stat::ForRange { binding, start, end, body, .. } => {
            walk::push_slot_if(binding, out);
            defs_expr(start, out);
            defs_expr(end, out);
            defs_block(body, out);
        },
        Stat::ForIn { bindings, iter, body, .. } => {
            walk::push_slots(bindings, out);
            defs_expr(iter, out);
            defs_block(body, out);
        },
        _ => {},
    }
    assert(out@ =~= old(out)@ + defs_of_stat(*st));
}

fn defs_expr(e: &Expr, out: &mut Vec<u16>)
    ensures
        final(out)@ == old(out)@ + defs_of_expr(*e),
    decreases *e, 1int,
{
    match e {
        Expr::Call(f, args) => {
            defs_expr(f, out);
            defs_exprs(args, out);
        },
        Expr::Method(o, name, args) => {
            defs_expr(o, out);
            defs_exprs(args, out);
        },
        Expr::Index(a, b) => {
            defs_expr(a, out);
            defs_expr(b, out);
        },
        Expr::Bin(_, a, b) => {
            defs_expr(a, out);
            defs_expr(b, out);
        },
        Expr::Range(a, b, _) => {
            defs_expr(a, out);
            defs_expr(b, out);
        },
        Expr::Un(_, a) => {
            defs_expr(a, out);
        },
        Expr::Array(items) => {
            defs_exprs(items, out);
        },
        Expr::Entries(items) => {
            defs_entries(items, out);
        },
        Expr::If(arms, els) => {
            defs_arms(arms, out);
            defs_else(els, out);
        },
        Expr::Match(subject, arms) => {
            defs_expr(subject, out);
            defs_match(arms, out);
        },
        Expr::Do(b) => {
            defs_block(b, out);
        },
        _ => {},
    }
    assert(out@ =~= old(out)@ + defs_of_expr(*e));
}

} // verus!
