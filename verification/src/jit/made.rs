//! The tables compiled code makes for itself.
use super::defs;
use super::walk;
use crate::ast::{Arm, Binding, Block, Expr, Stat};
use vstd::prelude::*;

verus! {

/// The slot of `let t = [..]`.
pub open spec fn array_let(bs: Seq<Binding>, es: Seq<Expr>) -> Seq<u16> {
    if bs.len() == 1 && es.len() == 1 && es[0] is Array {
        seq![bs[0].slot]
    } else {
        Seq::empty()
    }
}

/// The slots a block binds to an array literal.
pub open spec fn made_of_block(b: Block) -> Seq<u16>
    decreases b, 3int,
{
    made_of_stats(b.stats@) + made_of_tail(b.tail)
}

pub open spec fn made_of_tail(t: Option<Box<Expr>>) -> Seq<u16>
    decreases t, 2int,
{
    match t {
        Some(e) => made_of_expr(*e),
        None => Seq::empty(),
    }
}

pub open spec fn made_of_stats(s: Seq<Stat>) -> Seq<u16>
    decreases s, 2int,
{
    if s.len() == 0 {
        Seq::empty()
    } else {
        made_of_stats(s.drop_last()) + made_of_stat(s[s.len() - 1])
    }
}

pub open spec fn made_of_exprs(s: Seq<Expr>) -> Seq<u16>
    decreases s, 2int,
{
    if s.len() == 0 {
        Seq::empty()
    } else {
        made_of_exprs(s.drop_last()) + made_of_expr(s[s.len() - 1])
    }
}

pub open spec fn made_of_arms(s: Seq<(Expr, Block)>) -> Seq<u16>
    decreases s, 2int,
{
    if s.len() == 0 {
        Seq::empty()
    } else {
        made_of_arms(s.drop_last()) + made_of_block(s[s.len() - 1].1)
    }
}

pub open spec fn made_of_else(b: Option<Block>) -> Seq<u16>
    decreases b, 2int,
{
    match b {
        Some(b) => made_of_block(b),
        None => Seq::empty(),
    }
}

pub open spec fn made_of_match(s: Seq<Arm>) -> Seq<u16>
    decreases s, 2int,
{
    if s.len() == 0 {
        Seq::empty()
    } else {
        made_of_match(s.drop_last()) + made_of_block(s[s.len() - 1].body)
    }
}

pub open spec fn made_of_stat(st: Stat) -> Seq<u16>
    decreases st, 1int,
{
    match st {
        Stat::Let(_, es) => made_of_exprs(es@),
        Stat::LetSlots(bs, es) => array_let(bs@, es@) + made_of_exprs(es@),
        Stat::Return(es) => made_of_exprs(es@),
        Stat::FnDecl(_, e) => made_of_expr(e),
        Stat::FnSlot(b, e) => made_of_expr(e),
        Stat::Expr(e) => made_of_expr(e),
        Stat::Assign(ts, es) => made_of_exprs(ts@) + made_of_exprs(es@),
        Stat::OpAssign(t, _, e) => made_of_expr(t) + made_of_expr(e),
        Stat::While(_, c, b) => made_of_expr(c) + made_of_block(b),
        Stat::Loop(_, b) => made_of_block(b),
        Stat::ForRange { binding, start, end, body, .. } => made_of_expr(start) + made_of_expr(end) + made_of_block(body),
        Stat::ForIn { bindings, iter, body, .. } => made_of_expr(iter) + made_of_block(body),
        _ => Seq::empty(),
    }
}

pub open spec fn made_of_expr(e: Expr) -> Seq<u16>
    decreases e, 1int,
{
    match e {
        Expr::Do(b) => made_of_block(b),
        Expr::If(arms, els) => made_of_arms(arms@) + made_of_else(els),
        Expr::Match(_, arms) => made_of_match(arms@),
        _ => Seq::empty(),
    }
}

fn note_array_let(bs: &Vec<Binding>, es: &Vec<Expr>, out: &mut Vec<u16>)
    ensures
        final(out)@ == old(out)@ + array_let(bs@, es@),
{
    if bs.len() == 1 && es.len() == 1 {
        match &es[0] {
            Expr::Array(_) => out.push(bs[0].slot),
            _ => {},
        }
    }
    assert(out@ =~= old(out)@ + array_let(bs@, es@));
}

pub(super) fn made_block(b: &Block, out: &mut Vec<u16>)
    ensures
        final(out)@ == old(out)@ + made_of_block(*b),
    decreases *b, 3int,
{
    made_stats(&b.stats, out);
    match &b.tail {
        Some(e) => made_expr(e, out),
        None => {},
    }
    assert(out@ =~= old(out)@ + made_of_block(*b));
}

fn made_stats(s: &Vec<Stat>, out: &mut Vec<u16>)
    ensures
        final(out)@ == old(out)@ + made_of_stats(s@),
    decreases *s, 2int,
{
    let mut i: usize = 0;
    while i < s.len()
        invariant
            i <= s@.len(),
            out@ == old(out)@ + made_of_stats(s@.take(i as int)),
        decreases s@.len() - i,
    {
        let ghost before = out@;
        made_stat(&s[i], out);
        assert(s@.take(i as int + 1).drop_last() =~= s@.take(i as int));
        assert(out@ =~= old(out)@ + made_of_stats(s@.take(i as int + 1)));
        i = i + 1;
    }
    assert(s@.take(s@.len() as int) =~= s@);
    assert(out@ =~= old(out)@ + made_of_stats(s@));
}

fn made_exprs(s: &Vec<Expr>, out: &mut Vec<u16>)
    ensures
        final(out)@ == old(out)@ + made_of_exprs(s@),
    decreases *s, 2int,
{
    let mut i: usize = 0;
    while i < s.len()
        invariant
            i <= s@.len(),
            out@ == old(out)@ + made_of_exprs(s@.take(i as int)),
        decreases s@.len() - i,
    {
        let ghost before = out@;
        made_expr(&s[i], out);
        assert(s@.take(i as int + 1).drop_last() =~= s@.take(i as int));
        assert(out@ =~= old(out)@ + made_of_exprs(s@.take(i as int + 1)));
        i = i + 1;
    }
    assert(s@.take(s@.len() as int) =~= s@);
    assert(out@ =~= old(out)@ + made_of_exprs(s@));
}

fn made_arms(s: &Vec<(Expr, Block)>, out: &mut Vec<u16>)
    ensures
        final(out)@ == old(out)@ + made_of_arms(s@),
    decreases *s, 2int,
{
    let mut i: usize = 0;
    while i < s.len()
        invariant
            i <= s@.len(),
            out@ == old(out)@ + made_of_arms(s@.take(i as int)),
        decreases s@.len() - i,
    {
        let ghost before = out@;
        made_block(&s[i].1, out);
        assert(s@.take(i as int + 1).drop_last() =~= s@.take(i as int));
        assert(out@ =~= old(out)@ + made_of_arms(s@.take(i as int + 1)));
        i = i + 1;
    }
    assert(s@.take(s@.len() as int) =~= s@);
    assert(out@ =~= old(out)@ + made_of_arms(s@));
}

fn made_else(b: &Option<Block>, out: &mut Vec<u16>)
    ensures
        final(out)@ == old(out)@ + made_of_else(*b),
    decreases *b, 2int,
{
    match b {
        Some(b) => made_block(b, out),
        None => {},
    }
    assert(out@ =~= old(out)@ + made_of_else(*b));
}

fn made_match(s: &Vec<Arm>, out: &mut Vec<u16>)
    ensures
        final(out)@ == old(out)@ + made_of_match(s@),
    decreases *s, 2int,
{
    let mut i: usize = 0;
    while i < s.len()
        invariant
            i <= s@.len(),
            out@ == old(out)@ + made_of_match(s@.take(i as int)),
        decreases s@.len() - i,
    {
        let ghost before = out@;
        made_block(&s[i].body, out);
        assert(s@.take(i as int + 1).drop_last() =~= s@.take(i as int));
        assert(out@ =~= old(out)@ + made_of_match(s@.take(i as int + 1)));
        i = i + 1;
    }
    assert(s@.take(s@.len() as int) =~= s@);
    assert(out@ =~= old(out)@ + made_of_match(s@));
}

pub(super) fn made_stat(st: &Stat, out: &mut Vec<u16>)
    ensures
        final(out)@ == old(out)@ + made_of_stat(*st),
    decreases *st, 1int,
{
    match st {
        Stat::Let(_, es) => {
            made_exprs(es, out);
        },
        Stat::LetSlots(bs, es) => {
            note_array_let(bs, es, out);
            made_exprs(es, out);
        },
        Stat::Return(es) => {
            made_exprs(es, out);
        },
        Stat::FnDecl(_, e) => {
            made_expr(e, out);
        },
        Stat::FnSlot(b, e) => {
            made_expr(e, out);
        },
        Stat::Expr(e) => {
            made_expr(e, out);
        },
        Stat::Assign(ts, es) => {
            made_exprs(ts, out);
            made_exprs(es, out);
        },
        Stat::OpAssign(t, _, e) => {
            made_expr(t, out);
            made_expr(e, out);
        },
        Stat::While(_, c, b) => {
            made_expr(c, out);
            made_block(b, out);
        },
        Stat::Loop(_, b) => {
            made_block(b, out);
        },
        Stat::ForRange { binding, start, end, body, .. } => {
            made_expr(start, out);
            made_expr(end, out);
            made_block(body, out);
        },
        Stat::ForIn { bindings, iter, body, .. } => {
            made_expr(iter, out);
            made_block(body, out);
        },
        _ => {},
    }
    assert(out@ =~= old(out)@ + made_of_stat(*st));
}

fn made_expr(e: &Expr, out: &mut Vec<u16>)
    ensures
        final(out)@ == old(out)@ + made_of_expr(*e),
    decreases *e, 1int,
{
    match e {
        Expr::Do(b) => {
            made_block(b, out);
        },
        Expr::If(arms, els) => {
            made_arms(arms, out);
            made_else(els, out);
        },
        Expr::Match(_, arms) => {
            made_match(arms, out);
        },
        _ => {},
    }
    assert(out@ =~= old(out)@ + made_of_expr(*e));
}

/// Those of some slots that are defined in one place only.
pub open spec fn defined_once(all: Seq<u16>, places: Seq<u16>) -> Seq<u16>
    decreases all.len(),
{
    if all.len() == 0 {
        Seq::empty()
    } else {
        defined_once(all.drop_last(), places) + if walk::occurrences(places, all.last()) == 1 {
            seq![all.last()]
        } else {
            Seq::empty()
        }
    }
}

/// The slots a block makes tables in: those where that binding is the one
/// thing that ever defines the slot. Registers are reused once their scope
/// closes, and what a slot holds must not depend on where one stands.
pub open spec fn made_slots(b: Block) -> Seq<u16> {
    defined_once(made_of_block(b), defs::defs_of_block(b))
}

fn once_only(all: &Vec<u16>, places: &Vec<u16>) -> (r: Vec<u16>)
    ensures
        r@ == defined_once(all@, places@),
{
    let mut out: Vec<u16> = Vec::new();
    let mut i: usize = 0;
    while i < all.len()
        invariant
            i <= all@.len(),
            out@ == defined_once(all@.take(i as int), places@),
        decreases all@.len() - i,
    {
        assert(all@.take(i as int + 1).drop_last() =~= all@.take(i as int));
        if walk::count(places, all[i]) == 1 {
            out.push(all[i]);
        }
        assert(out@ =~= defined_once(all@.take(i as int + 1), places@));
        i = i + 1;
    }
    assert(all@.take(all@.len() as int) =~= all@);
    out
}

pub fn made_tables(b: &Block) -> (r: Vec<u16>)
    ensures
        r@ == made_slots(*b),
{
    let mut all: Vec<u16> = Vec::new();
    made_block(b, &mut all);
    assert(all@ =~= made_of_block(*b));
    let mut places: Vec<u16> = Vec::new();
    defs::defs_block(b, &mut places);
    assert(places@ =~= defs::defs_of_block(*b));
    once_only(&all, &places)
}

/// The same of one statement.
pub open spec fn made_slots_in(st: Stat) -> Seq<u16> {
    defined_once(made_of_stat(st), defs::defs_of_stat(st))
}

pub(super) fn made_tables_in(st: &Stat) -> (r: Vec<u16>)
    ensures
        r@ == made_slots_in(*st),
{
    let mut all: Vec<u16> = Vec::new();
    made_stat(st, &mut all);
    assert(all@ =~= made_of_stat(*st));
    let mut places: Vec<u16> = Vec::new();
    defs::defs_stat(st, &mut places);
    assert(places@ =~= defs::defs_of_stat(*st));
    once_only(&all, &places)
}

} // verus!
