//! Whether every return hands back the same local.
use crate::ast::{Arm, Block, Expr, Stat};
use vstd::prelude::*;

verus! {

/// Is this list of values this local and nothing else?
pub open spec fn only(es: Seq<Expr>, slot: u16) -> bool {
    es.len() == 1 && match es[0] {
        Expr::Local(b, _) => b.slot == slot,
        _ => false,
    }
}

/// The returns of a block, and whether each hands back this local.
pub open spec fn agree_of_block(slot: u16, b: Block) -> Seq<bool>
    decreases b, 3int,
{
    agree_of_stats(slot, b.stats@) + agree_of_tail(slot, b.tail)
}

pub open spec fn agree_of_tail(slot: u16, t: Option<Box<Expr>>) -> Seq<bool>
    decreases t, 2int,
{
    match t {
        Some(e) => agree_of_expr(slot, *e),
        None => Seq::empty(),
    }
}

pub open spec fn agree_of_stats(slot: u16, s: Seq<Stat>) -> Seq<bool>
    decreases s, 2int,
{
    if s.len() == 0 {
        Seq::empty()
    } else {
        agree_of_stats(slot, s.drop_last()) + agree_of_stat(slot, s[s.len() - 1])
    }
}

pub open spec fn agree_of_arms(slot: u16, s: Seq<(Expr, Block)>) -> Seq<bool>
    decreases s, 2int,
{
    if s.len() == 0 {
        Seq::empty()
    } else {
        agree_of_arms(slot, s.drop_last()) + agree_of_block(slot, s[s.len() - 1].1)
    }
}

pub open spec fn agree_of_else(slot: u16, b: Option<Block>) -> Seq<bool>
    decreases b, 2int,
{
    match b {
        Some(b) => agree_of_block(slot, b),
        None => Seq::empty(),
    }
}

pub open spec fn agree_of_match(slot: u16, s: Seq<Arm>) -> Seq<bool>
    decreases s, 2int,
{
    if s.len() == 0 {
        Seq::empty()
    } else {
        agree_of_match(slot, s.drop_last()) + agree_of_block(slot, s[s.len() - 1].body)
    }
}

pub open spec fn agree_of_stat(slot: u16, st: Stat) -> Seq<bool>
    decreases st, 1int,
{
    match st {
        Stat::Return(es) => seq![only(es@, slot)],
        Stat::While(_, c, b) => agree_of_expr(slot, c) + agree_of_block(slot, b),
        Stat::Loop(_, b) => agree_of_block(slot, b),
        Stat::ForRange { body, .. } => agree_of_block(slot, body),
        Stat::ForIn { body, .. } => agree_of_block(slot, body),
        Stat::Expr(e) => agree_of_expr(slot, e),
        Stat::FnDecl(_, e) => agree_of_expr(slot, e),
        Stat::FnSlot(_, e) => agree_of_expr(slot, e),
        _ => Seq::empty(),
    }
}

pub open spec fn agree_of_expr(slot: u16, e: Expr) -> Seq<bool>
    decreases e, 1int,
{
    match e {
        Expr::Do(b) => agree_of_block(slot, b),
        Expr::If(arms, els) => agree_of_arms(slot, arms@) + agree_of_else(slot, els),
        Expr::Match(_, arms) => agree_of_match(slot, arms@),
        _ => Seq::empty(),
    }
}

fn is_only(es: &Vec<Expr>, slot: u16) -> (r: bool)
    ensures
        r == only(es@, slot),
{
    es.len() == 1 && match &es[0] {
        Expr::Local(b, _) => b.slot == slot,
        _ => false,
    }
}

pub(super) fn agree_block(slot: u16, b: &Block, out: &mut Vec<bool>)
    ensures
        final(out)@ == old(out)@ + agree_of_block(slot, *b),
    decreases *b, 3int,
{
    agree_stats(slot, &b.stats, out);
    match &b.tail {
        Some(e) => agree_expr(slot, e, out),
        None => {},
    }
    assert(out@ =~= old(out)@ + agree_of_block(slot, *b));
}

fn agree_stats(slot: u16, s: &Vec<Stat>, out: &mut Vec<bool>)
    ensures
        final(out)@ == old(out)@ + agree_of_stats(slot, s@),
    decreases *s, 2int,
{
    let mut i: usize = 0;
    while i < s.len()
        invariant
            i <= s@.len(),
            out@ == old(out)@ + agree_of_stats(slot, s@.take(i as int)),
        decreases s@.len() - i,
    {
        let ghost before = out@;
        agree_stat(slot, &s[i], out);
        assert(s@.take(i as int + 1).drop_last() =~= s@.take(i as int));
        assert(out@ =~= old(out)@ + agree_of_stats(slot, s@.take(i as int + 1)));
        i = i + 1;
    }
    assert(s@.take(s@.len() as int) =~= s@);
    assert(out@ =~= old(out)@ + agree_of_stats(slot, s@));
}

fn agree_arms(slot: u16, s: &Vec<(Expr, Block)>, out: &mut Vec<bool>)
    ensures
        final(out)@ == old(out)@ + agree_of_arms(slot, s@),
    decreases *s, 2int,
{
    let mut i: usize = 0;
    while i < s.len()
        invariant
            i <= s@.len(),
            out@ == old(out)@ + agree_of_arms(slot, s@.take(i as int)),
        decreases s@.len() - i,
    {
        let ghost before = out@;
        agree_block(slot, &s[i].1, out);
        assert(s@.take(i as int + 1).drop_last() =~= s@.take(i as int));
        assert(out@ =~= old(out)@ + agree_of_arms(slot, s@.take(i as int + 1)));
        i = i + 1;
    }
    assert(s@.take(s@.len() as int) =~= s@);
    assert(out@ =~= old(out)@ + agree_of_arms(slot, s@));
}

fn agree_else(slot: u16, b: &Option<Block>, out: &mut Vec<bool>)
    ensures
        final(out)@ == old(out)@ + agree_of_else(slot, *b),
    decreases *b, 2int,
{
    match b {
        Some(b) => agree_block(slot, b, out),
        None => {},
    }
    assert(out@ =~= old(out)@ + agree_of_else(slot, *b));
}

fn agree_match(slot: u16, s: &Vec<Arm>, out: &mut Vec<bool>)
    ensures
        final(out)@ == old(out)@ + agree_of_match(slot, s@),
    decreases *s, 2int,
{
    let mut i: usize = 0;
    while i < s.len()
        invariant
            i <= s@.len(),
            out@ == old(out)@ + agree_of_match(slot, s@.take(i as int)),
        decreases s@.len() - i,
    {
        let ghost before = out@;
        agree_block(slot, &s[i].body, out);
        assert(s@.take(i as int + 1).drop_last() =~= s@.take(i as int));
        assert(out@ =~= old(out)@ + agree_of_match(slot, s@.take(i as int + 1)));
        i = i + 1;
    }
    assert(s@.take(s@.len() as int) =~= s@);
    assert(out@ =~= old(out)@ + agree_of_match(slot, s@));
}

fn agree_stat(slot: u16, st: &Stat, out: &mut Vec<bool>)
    ensures
        final(out)@ == old(out)@ + agree_of_stat(slot, *st),
    decreases *st, 1int,
{
    match st {
        Stat::Return(es) => {
            out.push(is_only(es, slot));
        },
        Stat::While(_, c, b) => {
            agree_expr(slot, c, out);
            agree_block(slot, b, out);
        },
        Stat::Loop(_, b) => {
            agree_block(slot, b, out);
        },
        Stat::ForRange { body, .. } => {
            agree_block(slot, body, out);
        },
        Stat::ForIn { body, .. } => {
            agree_block(slot, body, out);
        },
        Stat::Expr(e) => {
            agree_expr(slot, e, out);
        },
        Stat::FnDecl(_, e) => {
            agree_expr(slot, e, out);
        },
        Stat::FnSlot(_, e) => {
            agree_expr(slot, e, out);
        },
        _ => {},
    }
    assert(out@ =~= old(out)@ + agree_of_stat(slot, *st));
}

fn agree_expr(slot: u16, e: &Expr, out: &mut Vec<bool>)
    ensures
        final(out)@ == old(out)@ + agree_of_expr(slot, *e),
    decreases *e, 1int,
{
    match e {
        Expr::Do(b) => {
            agree_block(slot, b, out);
        },
        Expr::If(arms, els) => {
            agree_arms(slot, arms, out);
            agree_else(slot, els, out);
        },
        Expr::Match(_, arms) => {
            agree_match(slot, arms, out);
        },
        _ => {},
    }
    assert(out@ =~= old(out)@ + agree_of_expr(slot, *e));
}

/// Does every return in this body hand back this local? A table leaves one
/// way and a number another, so a function cannot do both.
pub fn returns_only(b: &Block, slot: u16) -> (r: bool)
    ensures
        r == !agree_of_block(slot, *b).contains(false),
{
    let mut all: Vec<bool> = Vec::new();
    agree_block(slot, b, &mut all);
    assert(all@ =~= agree_of_block(slot, *b));
    let mut i: usize = 0;
    while i < all.len()
        invariant
            i <= all@.len(),
            all@ == agree_of_block(slot, *b),
            forall|k: int| 0 <= k < i ==> #[trigger] all@[k],
        decreases all@.len() - i,
    {
        if !all[i] {
            assert(!all@[i as int]);
            return false;
        }
        i = i + 1;
    }
    assert(!all@.contains(false));
    true
}

} // verus!
