//! Slots a region defines before it reads them.
use crate::ast::{Arm, Binding, Block, Expr, Stat};
use vstd::prelude::*;

verus! {

/// These slots come into being.
pub open spec fn binds(bs: Seq<Binding>) -> Seq<(u16, bool)> {
    Seq::new(bs.len(), |i: int| (bs[i].slot, true))
}

pub open spec fn bind_if(b: Option<Binding>) -> Seq<(u16, bool)> {
    match b {
        Some(b) => seq![(b.slot, true)],
        None => Seq::empty(),
    }
}

/// What happens to slots, in order: a binding is `true`, a read is `false`.
pub open spec fn first_of_block(b: Block) -> Seq<(u16, bool)>
    decreases b, 3int,
{
    first_of_stats(b.stats@) + first_of_tail(b.tail)
}

pub open spec fn first_of_tail(t: Option<Box<Expr>>) -> Seq<(u16, bool)>
    decreases t, 2int,
{
    match t {
        Some(e) => first_of_expr(*e),
        None => Seq::empty(),
    }
}

pub open spec fn first_of_stats(s: Seq<Stat>) -> Seq<(u16, bool)>
    decreases s, 2int,
{
    if s.len() == 0 {
        Seq::empty()
    } else {
        first_of_stats(s.drop_last()) + first_of_stat(s[s.len() - 1])
    }
}

pub open spec fn first_of_exprs(s: Seq<Expr>) -> Seq<(u16, bool)>
    decreases s, 2int,
{
    if s.len() == 0 {
        Seq::empty()
    } else {
        first_of_exprs(s.drop_last()) + first_of_expr(s[s.len() - 1])
    }
}

pub open spec fn first_of_arms(s: Seq<(Expr, Block)>) -> Seq<(u16, bool)>
    decreases s, 2int,
{
    if s.len() == 0 {
        Seq::empty()
    } else {
        first_of_arms(s.drop_last()) + first_of_expr(s[s.len() - 1].0) + first_of_block(s[s.len() - 1].1)
    }
}

pub open spec fn first_of_else(b: Option<Block>) -> Seq<(u16, bool)>
    decreases b, 2int,
{
    match b {
        Some(b) => first_of_block(b),
        None => Seq::empty(),
    }
}

pub open spec fn first_of_match(s: Seq<Arm>) -> Seq<(u16, bool)>
    decreases s, 2int,
{
    if s.len() == 0 {
        Seq::empty()
    } else {
        first_of_match(s.drop_last()) + first_of_block(s[s.len() - 1].body)
    }
}

pub open spec fn first_of_stat(st: Stat) -> Seq<(u16, bool)>
    decreases st, 1int,
{
    match st {
        Stat::Let(_, es) => first_of_exprs(es@),
        Stat::LetSlots(bs, es) => first_of_exprs(es@) + binds(bs@),
        Stat::Return(es) => first_of_exprs(es@),
        Stat::FnDecl(_, e) => first_of_expr(e),
        Stat::FnSlot(b, e) => first_of_expr(e),
        Stat::Expr(e) => first_of_expr(e),
        Stat::Assign(ts, es) => first_of_exprs(es@) + first_of_exprs(ts@),
        Stat::OpAssign(t, _, e) => first_of_expr(t) + first_of_expr(e),
        Stat::While(_, c, b) => first_of_expr(c) + first_of_block(b),
        Stat::Loop(_, b) => first_of_block(b),
        Stat::ForRange { binding, start, end, body, .. } => first_of_expr(start) + first_of_expr(end) + bind_if(binding) + first_of_block(body),
        Stat::ForIn { bindings, iter, body, .. } => first_of_expr(iter) + binds(bindings@) + first_of_block(body),
        _ => Seq::empty(),
    }
}

pub open spec fn first_of_expr(e: Expr) -> Seq<(u16, bool)>
    decreases e, 1int,
{
    match e {
        Expr::Local(b, _) => seq![(b.slot, false)],
        Expr::Call(f, args) => first_of_expr(*f) + first_of_exprs(args@),
        Expr::Method(o, name, args) => first_of_expr(*o) + first_of_exprs(args@),
        Expr::Index(a, b) => first_of_expr(*a) + first_of_expr(*b),
        Expr::Bin(_, a, b) => first_of_expr(*a) + first_of_expr(*b),
        Expr::Range(a, b, _) => first_of_expr(*a) + first_of_expr(*b),
        Expr::Un(_, a) => first_of_expr(*a),
        Expr::If(arms, els) => first_of_arms(arms@) + first_of_else(els),
        Expr::Match(subject, arms) => first_of_expr(*subject) + first_of_match(arms@),
        Expr::Do(b) => first_of_block(b),
        _ => Seq::empty(),
    }
}

fn note_binds(bs: &Vec<Binding>, out: &mut Vec<(u16, bool)>)
    ensures
        final(out)@ == old(out)@ + binds(bs@),
{
    let mut i: usize = 0;
    while i < bs.len()
        invariant
            i <= bs@.len(),
            out@ == old(out)@ + binds(bs@).take(i as int),
        decreases bs@.len() - i,
    {
        out.push((bs[i].slot, true));
        assert(out@ =~= old(out)@ + binds(bs@).take(i as int + 1));
        i = i + 1;
    }
    assert(out@ =~= old(out)@ + binds(bs@));
}

fn note_bind_if(b: &Option<Binding>, out: &mut Vec<(u16, bool)>)
    ensures
        final(out)@ == old(out)@ + bind_if(*b),
{
    match b {
        Some(b) => out.push((b.slot, true)),
        None => {},
    }
    assert(out@ =~= old(out)@ + bind_if(*b));
}

pub(super) fn first_block(b: &Block, out: &mut Vec<(u16, bool)>)
    ensures
        final(out)@ == old(out)@ + first_of_block(*b),
    decreases *b, 3int,
{
    first_stats(&b.stats, out);
    match &b.tail {
        Some(e) => first_expr(e, out),
        None => {},
    }
    assert(out@ =~= old(out)@ + first_of_block(*b));
}

fn first_stats(s: &Vec<Stat>, out: &mut Vec<(u16, bool)>)
    ensures
        final(out)@ == old(out)@ + first_of_stats(s@),
    decreases *s, 2int,
{
    let mut i: usize = 0;
    while i < s.len()
        invariant
            i <= s@.len(),
            out@ == old(out)@ + first_of_stats(s@.take(i as int)),
        decreases s@.len() - i,
    {
        let ghost before = out@;
        first_stat(&s[i], out);
        assert(s@.take(i as int + 1).drop_last() =~= s@.take(i as int));
        assert(out@ =~= old(out)@ + first_of_stats(s@.take(i as int + 1)));
        i = i + 1;
    }
    assert(s@.take(s@.len() as int) =~= s@);
    assert(out@ =~= old(out)@ + first_of_stats(s@));
}

fn first_exprs(s: &Vec<Expr>, out: &mut Vec<(u16, bool)>)
    ensures
        final(out)@ == old(out)@ + first_of_exprs(s@),
    decreases *s, 2int,
{
    let mut i: usize = 0;
    while i < s.len()
        invariant
            i <= s@.len(),
            out@ == old(out)@ + first_of_exprs(s@.take(i as int)),
        decreases s@.len() - i,
    {
        let ghost before = out@;
        first_expr(&s[i], out);
        assert(s@.take(i as int + 1).drop_last() =~= s@.take(i as int));
        assert(out@ =~= old(out)@ + first_of_exprs(s@.take(i as int + 1)));
        i = i + 1;
    }
    assert(s@.take(s@.len() as int) =~= s@);
    assert(out@ =~= old(out)@ + first_of_exprs(s@));
}

fn first_arms(s: &Vec<(Expr, Block)>, out: &mut Vec<(u16, bool)>)
    ensures
        final(out)@ == old(out)@ + first_of_arms(s@),
    decreases *s, 2int,
{
    let mut i: usize = 0;
    while i < s.len()
        invariant
            i <= s@.len(),
            out@ == old(out)@ + first_of_arms(s@.take(i as int)),
        decreases s@.len() - i,
    {
        let ghost before = out@;
        first_expr(&s[i].0, out);
        first_block(&s[i].1, out);
        assert(s@.take(i as int + 1).drop_last() =~= s@.take(i as int));
        assert(out@ =~= old(out)@ + first_of_arms(s@.take(i as int + 1)));
        i = i + 1;
    }
    assert(s@.take(s@.len() as int) =~= s@);
    assert(out@ =~= old(out)@ + first_of_arms(s@));
}

fn first_else(b: &Option<Block>, out: &mut Vec<(u16, bool)>)
    ensures
        final(out)@ == old(out)@ + first_of_else(*b),
    decreases *b, 2int,
{
    match b {
        Some(b) => first_block(b, out),
        None => {},
    }
    assert(out@ =~= old(out)@ + first_of_else(*b));
}

fn first_match(s: &Vec<Arm>, out: &mut Vec<(u16, bool)>)
    ensures
        final(out)@ == old(out)@ + first_of_match(s@),
    decreases *s, 2int,
{
    let mut i: usize = 0;
    while i < s.len()
        invariant
            i <= s@.len(),
            out@ == old(out)@ + first_of_match(s@.take(i as int)),
        decreases s@.len() - i,
    {
        let ghost before = out@;
        first_block(&s[i].body, out);
        assert(s@.take(i as int + 1).drop_last() =~= s@.take(i as int));
        assert(out@ =~= old(out)@ + first_of_match(s@.take(i as int + 1)));
        i = i + 1;
    }
    assert(s@.take(s@.len() as int) =~= s@);
    assert(out@ =~= old(out)@ + first_of_match(s@));
}

pub(super) fn first_stat(st: &Stat, out: &mut Vec<(u16, bool)>)
    ensures
        final(out)@ == old(out)@ + first_of_stat(*st),
    decreases *st, 1int,
{
    match st {
        Stat::Let(_, es) => {
            first_exprs(es, out);
        },
        Stat::LetSlots(bs, es) => {
            first_exprs(es, out);
            note_binds(bs, out);
        },
        Stat::Return(es) => {
            first_exprs(es, out);
        },
        Stat::FnDecl(_, e) => {
            first_expr(e, out);
        },
        Stat::FnSlot(b, e) => {
            first_expr(e, out);
        },
        Stat::Expr(e) => {
            first_expr(e, out);
        },
        Stat::Assign(ts, es) => {
            first_exprs(es, out);
            first_exprs(ts, out);
        },
        Stat::OpAssign(t, _, e) => {
            first_expr(t, out);
            first_expr(e, out);
        },
        Stat::While(_, c, b) => {
            first_expr(c, out);
            first_block(b, out);
        },
        Stat::Loop(_, b) => {
            first_block(b, out);
        },
        Stat::ForRange { binding, start, end, body, .. } => {
            first_expr(start, out);
            first_expr(end, out);
            note_bind_if(binding, out);
            first_block(body, out);
        },
        Stat::ForIn { bindings, iter, body, .. } => {
            first_expr(iter, out);
            note_binds(bindings, out);
            first_block(body, out);
        },
        _ => {},
    }
    assert(out@ =~= old(out)@ + first_of_stat(*st));
}

fn first_expr(e: &Expr, out: &mut Vec<(u16, bool)>)
    ensures
        final(out)@ == old(out)@ + first_of_expr(*e),
    decreases *e, 1int,
{
    match e {
        Expr::Local(b, _) => {
            out.push((b.slot, false));
        },
        Expr::Call(f, args) => {
            first_expr(f, out);
            first_exprs(args, out);
        },
        Expr::Method(o, name, args) => {
            first_expr(o, out);
            first_exprs(args, out);
        },
        Expr::Index(a, b) => {
            first_expr(a, out);
            first_expr(b, out);
        },
        Expr::Bin(_, a, b) => {
            first_expr(a, out);
            first_expr(b, out);
        },
        Expr::Range(a, b, _) => {
            first_expr(a, out);
            first_expr(b, out);
        },
        Expr::Un(_, a) => {
            first_expr(a, out);
        },
        Expr::If(arms, els) => {
            first_arms(arms, out);
            first_else(els, out);
        },
        Expr::Match(subject, arms) => {
            first_expr(subject, out);
            first_match(arms, out);
        },
        Expr::Do(b) => {
            first_block(b, out);
        },
        _ => {},
    }
    assert(out@ =~= old(out)@ + first_of_expr(*e));
}

/// The first thing that happens to a slot from place `i` on.
pub open spec fn first_of(s: Seq<(u16, bool)>, slot: u16, i: nat) -> Option<bool>
    decreases s.len() - i,
{
    if i >= s.len() {
        None
    } else if s[i as int].0 == slot {
        Some(s[i as int].1)
    } else {
        first_of(s, slot, i + 1)
    }
}

/// Is this slot bound before it is read? Then what it holds on the way in
/// cannot matter.
pub open spec fn is_dead(s: Seq<(u16, bool)>, slot: u16) -> bool {
    first_of(s, slot, 0) == Some(true)
}

fn bound_first(all: &Vec<(u16, bool)>, slots: &Vec<u16>) -> (r: Vec<bool>)
    ensures
        r@.len() == slots@.len(),
        forall|i: int| 0 <= i < r@.len() ==> #[trigger] r@[i] == is_dead(all@, slots@[i]),
{
    let mut out: Vec<bool> = Vec::new();
    let mut i: usize = 0;
    while i < slots.len()
        invariant
            i <= slots@.len(),
            out@.len() == i,
            forall|k: int| 0 <= k < i ==> #[trigger] out@[k] == is_dead(all@, slots@[k]),
        decreases slots@.len() - i,
    {
        let slot: u16 = slots[i];
        let mut dead: bool = false;
        let mut j: usize = 0;
        while j < all.len()
            invariant_except_break
                !dead,
                first_of(all@, slot, j as nat) == first_of(all@, slot, 0),
            invariant
                j <= all@.len(),
            ensures
                dead == (first_of(all@, slot, 0) == Some(true)),
            decreases all@.len() - j,
        {
            if all[j].0 == slot {
                dead = all[j].1;
                break;
            }
            j = j + 1;
        }
        out.push(dead);
        i = i + 1;
    }
    out
}

/// Which of these slots are dead on the way into a statement.
pub fn dead_on_entry(st: &Stat, slots: &Vec<u16>) -> (r: Vec<bool>)
    ensures
        r@.len() == slots@.len(),
        forall|i: int|
            0 <= i < r@.len() ==> #[trigger] r@[i] == is_dead(first_of_stat(*st), slots@[i]),
{
    let mut all: Vec<(u16, bool)> = Vec::new();
    first_stat(st, &mut all);
    assert(all@ =~= first_of_stat(*st));
    bound_first(&all, slots)
}

} // verus!
