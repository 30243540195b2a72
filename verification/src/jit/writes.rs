//! Which slots a block writes.
use super::walk;
use crate::ast::{Arm, Block, Expr, Pattern, Stat};
use vstd::prelude::*;

verus! {

/// The slot an assignment names, if it names a local.
pub open spec fn one_target(t: Expr) -> Seq<u16> {
    match t {
        Expr::Local(b, _) => seq![b.slot],
        _ => Seq::empty(),
    }
}

/// The slots a block assigns or binds anywhere inside it.
pub open spec fn writes_of_block(b: Block) -> Seq<u16>
    decreases b, 3int,
{
    writes_of_stats(b.stats@) + writes_of_tail(b.tail)
}

pub open spec fn writes_of_tail(t: Option<Box<Expr>>) -> Seq<u16>
    decreases t, 2int,
{
    match t {
        Some(e) => writes_of_expr(*e),
        None => Seq::empty(),
    }
}

pub open spec fn writes_of_stats(s: Seq<Stat>) -> Seq<u16>
    decreases s, 2int,
{
    if s.len() == 0 {
        Seq::empty()
    } else {
        writes_of_stats(s.drop_last()) + writes_of_stat(s[s.len() - 1])
    }
}

pub open spec fn writes_of_exprs(s: Seq<Expr>) -> Seq<u16>
    decreases s, 2int,
{
    if s.len() == 0 {
        Seq::empty()
    } else {
        writes_of_exprs(s.drop_last()) + writes_of_expr(s[s.len() - 1])
    }
}

pub open spec fn writes_of_entries(s: Seq<(Expr, Expr)>) -> Seq<u16>
    decreases s, 2int,
{
    if s.len() == 0 {
        Seq::empty()
    } else {
        writes_of_entries(s.drop_last()) + writes_of_expr(s[s.len() - 1].0) + writes_of_expr(s[s.len() - 1].1)
    }
}

pub open spec fn writes_of_arms(s: Seq<(Expr, Block)>) -> Seq<u16>
    decreases s, 2int,
{
    if s.len() == 0 {
        Seq::empty()
    } else {
        writes_of_arms(s.drop_last()) + writes_of_expr(s[s.len() - 1].0) + writes_of_block(s[s.len() - 1].1)
    }
}

pub open spec fn writes_of_else(b: Option<Block>) -> Seq<u16>
    decreases b, 2int,
{
    match b {
        Some(b) => writes_of_block(b),
        None => Seq::empty(),
    }
}

pub open spec fn writes_of_match(s: Seq<Arm>) -> Seq<u16>
    decreases s, 2int,
{
    if s.len() == 0 {
        Seq::empty()
    } else {
        writes_of_match(s.drop_last()) + writes_of_patterns(s[s.len() - 1].patterns@) + writes_of_guard(s[s.len() - 1].guard) + writes_of_block(s[s.len() - 1].body)
    }
}

pub open spec fn writes_of_patterns(s: Seq<Pattern>) -> Seq<u16>
    decreases s, 2int,
{
    if s.len() == 0 {
        Seq::empty()
    } else {
        writes_of_patterns(s.drop_last()) + writes_of_pattern(s[s.len() - 1])
    }
}

pub open spec fn writes_of_pattern(p: Pattern) -> Seq<u16>
    decreases p, 1int,
{
    match p {
        Pattern::Bind(_, Some(b)) => seq![b.slot],
        _ => Seq::empty(),
    }
}

pub open spec fn writes_of_guard(g: Option<Expr>) -> Seq<u16>
    decreases g, 2int,
{
    match g {
        Some(e) => writes_of_expr(e),
        None => Seq::empty(),
    }
}

pub open spec fn writes_of_stat(st: Stat) -> Seq<u16>
    decreases st, 1int,
{
    match st {
        Stat::Let(_, es) => writes_of_exprs(es@),
        Stat::LetSlots(bs, es) => walk::slots_of(bs@) + writes_of_exprs(es@),
        Stat::Return(es) => writes_of_exprs(es@),
        Stat::FnDecl(_, e) => writes_of_expr(e),
        Stat::FnSlot(b, e) => seq![b.slot] + writes_of_expr(e),
        Stat::Expr(e) => writes_of_expr(e),
        Stat::Assign(ts, es) => walk::target_slots(ts@) + writes_of_exprs(es@),
        Stat::OpAssign(t, _, e) => one_target(t) + writes_of_expr(e),
        Stat::While(_, c, b) => writes_of_expr(c) + writes_of_block(b),
        Stat::Loop(_, b) => writes_of_block(b),
        Stat::ForRange { binding, start, end, body, .. } => walk::slot_if(binding) + writes_of_expr(start) + writes_of_expr(end) + writes_of_block(body),
        Stat::ForIn { bindings, iter, body, .. } => walk::slots_of(bindings@) + writes_of_expr(iter) + writes_of_block(body),
        _ => Seq::empty(),
    }
}

pub open spec fn writes_of_expr(e: Expr) -> Seq<u16>
    decreases e, 1int,
{
    match e {
        Expr::Call(f, args) => writes_of_expr(*f) + writes_of_exprs(args@),
        Expr::Method(o, name, args) => writes_of_expr(*o) + writes_of_exprs(args@),
        Expr::Index(a, b) => writes_of_expr(*a) + writes_of_expr(*b),
        Expr::Bin(_, a, b) => writes_of_expr(*a) + writes_of_expr(*b),
        Expr::Range(a, b, _) => writes_of_expr(*a) + writes_of_expr(*b),
        Expr::Un(_, a) => writes_of_expr(*a),
        Expr::Array(items) => writes_of_exprs(items@),
        Expr::Entries(items) => writes_of_entries(items@),
        Expr::If(arms, els) => writes_of_arms(arms@) + writes_of_else(els),
        Expr::Match(subject, arms) => writes_of_expr(*subject) + writes_of_match(arms@),
        Expr::Do(b) => writes_of_block(b),
        _ => Seq::empty(),
    }
}

fn note_target(t: &Expr, out: &mut Vec<u16>)
    ensures
        final(out)@ == old(out)@ + one_target(*t),
{
    match t {
        Expr::Local(b, _) => out.push(b.slot),
        _ => {},
    }
    assert(out@ =~= old(out)@ + one_target(*t));
}

pub(super) fn writes_block(b: &Block, out: &mut Vec<u16>)
    ensures
        final(out)@ == old(out)@ + writes_of_block(*b),
    decreases *b, 3int,
{
    writes_stats(&b.stats, out);
    match &b.tail {
        Some(e) => writes_expr(e, out),
        None => {},
    }
    assert(out@ =~= old(out)@ + writes_of_block(*b));
}

fn writes_stats(s: &Vec<Stat>, out: &mut Vec<u16>)
    ensures
        final(out)@ == old(out)@ + writes_of_stats(s@),
    decreases *s, 2int,
{
    let mut i: usize = 0;
    while i < s.len()
        invariant
            i <= s@.len(),
            out@ == old(out)@ + writes_of_stats(s@.take(i as int)),
        decreases s@.len() - i,
    {
        let ghost before = out@;
        writes_stat(&s[i], out);
        assert(s@.take(i as int + 1).drop_last() =~= s@.take(i as int));
        assert(out@ =~= old(out)@ + writes_of_stats(s@.take(i as int + 1)));
        i = i + 1;
    }
    assert(s@.take(s@.len() as int) =~= s@);
    assert(out@ =~= old(out)@ + writes_of_stats(s@));
}

fn writes_exprs(s: &Vec<Expr>, out: &mut Vec<u16>)
    ensures
        final(out)@ == old(out)@ + writes_of_exprs(s@),
    decreases *s, 2int,
{
    let mut i: usize = 0;
    while i < s.len()
        invariant
            i <= s@.len(),
            out@ == old(out)@ + writes_of_exprs(s@.take(i as int)),
        decreases s@.len() - i,
    {
        let ghost before = out@;
        writes_expr(&s[i], out);
        assert(s@.take(i as int + 1).drop_last() =~= s@.take(i as int));
        assert(out@ =~= old(out)@ + writes_of_exprs(s@.take(i as int + 1)));
        i = i + 1;
    }
    assert(s@.take(s@.len() as int) =~= s@);
    assert(out@ =~= old(out)@ + writes_of_exprs(s@));
}

fn writes_entries(s: &Vec<(Expr, Expr)>, out: &mut Vec<u16>)
    ensures
        final(out)@ == old(out)@ + writes_of_entries(s@),
    decreases *s, 2int,
{
    let mut i: usize = 0;
    while i < s.len()
        invariant
            i <= s@.len(),
            out@ == old(out)@ + writes_of_entries(s@.take(i as int)),
        decreases s@.len() - i,
    {
        let ghost before = out@;
        writes_expr(&s[i].0, out);
        writes_expr(&s[i].1, out);
        assert(s@.take(i as int + 1).drop_last() =~= s@.take(i as int));
        assert(out@ =~= old(out)@ + writes_of_entries(s@.take(i as int + 1)));
        i = i + 1;
    }
    assert(s@.take(s@.len() as int) =~= s@);
    assert(out@ =~= old(out)@ + writes_of_entries(s@));
}

fn writes_arms(s: &Vec<(Expr, Block)>, out: &mut Vec<u16>)
    ensures
        final(out)@ == old(out)@ + writes_of_arms(s@),
    decreases *s, 2int,
{
    let mut i: usize = 0;
    while i < s.len()
        invariant
            i <= s@.len(),
            out@ == old(out)@ + writes_of_arms(s@.take(i as int)),
        decreases s@.len() - i,
    {
        let ghost before = out@;
        writes_expr(&s[i].0, out);
        writes_block(&s[i].1, out);
        assert(s@.take(i as int + 1).drop_last() =~= s@.take(i as int));
        assert(out@ =~= old(out)@ + writes_of_arms(s@.take(i as int + 1)));
        i = i + 1;
    }
    assert(s@.take(s@.len() as int) =~= s@);
    assert(out@ =~= old(out)@ + writes_of_arms(s@));
}

fn writes_else(b: &Option<Block>, out: &mut Vec<u16>)
    ensures
        final(out)@ == old(out)@ + writes_of_else(*b),
    decreases *b, 2int,
{
    match b {
        Some(b) => writes_block(b, out),
        None => {},
    }
    assert(out@ =~= old(out)@ + writes_of_else(*b));
}

fn writes_match(s: &Vec<Arm>, out: &mut Vec<u16>)
    ensures
        final(out)@ == old(out)@ + writes_of_match(s@),
    decreases *s, 2int,
{
    let mut i: usize = 0;
    while i < s.len()
        invariant
            i <= s@.len(),
            out@ == old(out)@ + writes_of_match(s@.take(i as int)),
        decreases s@.len() - i,
    {
        let ghost before = out@;
        writes_patterns(&s[i].patterns, out);
        writes_guard(&s[i].guard, out);
        writes_block(&s[i].body, out);
        assert(s@.take(i as int + 1).drop_last() =~= s@.take(i as int));
        assert(out@ =~= old(out)@ + writes_of_match(s@.take(i as int + 1)));
        i = i + 1;
    }
    assert(s@.take(s@.len() as int) =~= s@);
    assert(out@ =~= old(out)@ + writes_of_match(s@));
}

fn writes_patterns(s: &Vec<Pattern>, out: &mut Vec<u16>)
    ensures
        final(out)@ == old(out)@ + writes_of_patterns(s@),
    decreases *s, 2int,
{
    let mut i: usize = 0;
    while i < s.len()
        invariant
            i <= s@.len(),
            out@ == old(out)@ + writes_of_patterns(s@.take(i as int)),
        decreases s@.len() - i,
    {
        let ghost before = out@;
        writes_pattern(&s[i], out);
        assert(s@.take(i as int + 1).drop_last() =~= s@.take(i as int));
        assert(out@ =~= old(out)@ + writes_of_patterns(s@.take(i as int + 1)));
        i = i + 1;
    }
    assert(s@.take(s@.len() as int) =~= s@);
    assert(out@ =~= old(out)@ + writes_of_patterns(s@));
}

fn writes_pattern(p: &Pattern, out: &mut Vec<u16>)
    ensures
        final(out)@ == old(out)@ + writes_of_pattern(*p),
    decreases *p, 1int,
{
    match p {
        Pattern::Bind(_, Some(b)) => {
            out.push(b.slot);
        },
        _ => {},
    }
    assert(out@ =~= old(out)@ + writes_of_pattern(*p));
}

fn writes_guard(g: &Option<Expr>, out: &mut Vec<u16>)
    ensures
        final(out)@ == old(out)@ + writes_of_guard(*g),
    decreases *g, 2int,
{
    match g {
        Some(e) => writes_expr(e, out),
        None => {},
    }
    assert(out@ =~= old(out)@ + writes_of_guard(*g));
}

pub(super) fn writes_stat(st: &Stat, out: &mut Vec<u16>)
    ensures
        final(out)@ == old(out)@ + writes_of_stat(*st),
    decreases *st, 1int,
{
    match st {
        Stat::Let(_, es) => {
            writes_exprs(es, out);
        },
        Stat::LetSlots(bs, es) => {
            walk::push_slots(bs, out);
            writes_exprs(es, out);
        },
        Stat::Return(es) => {
            writes_exprs(es, out);
        },
        Stat::FnDecl(_, e) => {
            writes_expr(e, out);
        },
        Stat::FnSlot(b, e) => {
            out.push(b.slot);
            writes_expr(e, out);
        },
        Stat::Expr(e) => {
            writes_expr(e, out);
        },
        Stat::Assign(ts, es) => {
            walk::push_targets(ts, out);
            writes_exprs(es, out);
        },
        Stat::OpAssign(t, _, e) => {
            note_target(t, out);
            writes_expr(e, out);
        },
        Stat::While(_, c, b) => {
            writes_expr(c, out);
            writes_block(b, out);
        },
        Stat::Loop(_, b) => {
            writes_block(b, out);
        },
        Stat::ForRange { binding, start, end, body, .. } => {
            walk::push_slot_if(binding, out);
            writes_expr(start, out);
            writes_expr(end, out);
            writes_block(body, out);
        },
        Stat::ForIn { bindings, iter, body, .. } => {
            walk::push_slots(bindings, out);
            writes_expr(iter, out);
            writes_block(body, out);
        },
        _ => {},
    }
    assert(out@ =~= old(out)@ + writes_of_stat(*st));
}

pub(super) fn writes_expr(e: &Expr, out: &mut Vec<u16>)
    ensures
        final(out)@ == old(out)@ + writes_of_expr(*e),
    decreases *e, 1int,
{
    match e {
        Expr::Call(f, args) => {
            writes_expr(f, out);
            writes_exprs(args, out);
        },
        Expr::Method(o, name, args) => {
            writes_expr(o, out);
            writes_exprs(args, out);
        },
        Expr::Index(a, b) => {
            writes_expr(a, out);
            writes_expr(b, out);
        },
        Expr::Bin(_, a, b) => {
            writes_expr(a, out);
            writes_expr(b, out);
        },
        Expr::Range(a, b, _) => {
            writes_expr(a, out);
            writes_expr(b, out);
        },
        Expr::Un(_, a) => {
            writes_expr(a, out);
        },
        Expr::Array(items) => {
            writes_exprs(items, out);
        },
        Expr::Entries(items) => {
            writes_entries(items, out);
        },
        Expr::If(arms, els) => {
            writes_arms(arms, out);
            writes_else(els, out);
        },
        Expr::Match(subject, arms) => {
            writes_expr(subject, out);
            writes_match(arms, out);
        },
        Expr::Do(b) => {
            writes_block(b, out);
        },
        _ => {},
    }
    assert(out@ =~= old(out)@ + writes_of_expr(*e));
}

/// Does a block assign or bind this slot anywhere inside it? A proof that an
/// index stays in range is only worth anything if nothing moves it.
pub open spec fn writes(b: Block, slot: u16) -> bool {
    writes_of_block(b).contains(slot)
}

pub fn writes_slot(b: &Block, slot: u16) -> (r: bool)
    ensures
        r == writes(*b, slot),
{
    let mut all: Vec<u16> = Vec::new();
    writes_block(b, &mut all);
    assert(all@ =~= writes_of_block(*b));
    walk::has(&all, slot)
}

} // verus!
