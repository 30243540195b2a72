//! Which tables a region reads and writes.
use crate::ast::{Arm, Block, Expr, Stat};
use crate::text;
use vstd::prelude::*;

verus! {

/// One thing done to a table.
#[derive(Clone, Copy, Debug, PartialEq, Eq, Structural)]
pub enum TableUse {
    Read(u16),
    Written(u16),
}

/// A write to `t[i]`: the table, if it is a local. `both` says whether it is
/// read as well, as in `t[i] += 1`.
pub open spec fn write_to(obj: Expr, both: bool) -> Seq<TableUse> {
    match obj {
        Expr::Local(b, _) => if both {
            seq![TableUse::Written(b.slot), TableUse::Read(b.slot)]
        } else {
            seq![TableUse::Written(b.slot)]
        },
        _ => Seq::empty(),
    }
}

/// What an assignment does to its target.
pub open spec fn uses_of_target(t: Expr, both: bool) -> Seq<TableUse>
    decreases t, 2int,
{
    match t {
        Expr::Index(obj, key) => write_to(*obj, both) + uses_of_expr(*key),
        _ => uses_of_expr(t),
    }
}

pub open spec fn uses_of_targets(s: Seq<Expr>) -> Seq<TableUse>
    decreases s, 2int,
{
    if s.len() == 0 {
        Seq::empty()
    } else {
        uses_of_targets(s.drop_last()) + uses_of_target(s[s.len() - 1], false)
    }
}

/// What reading `obj[..]` does to `obj`.
pub open spec fn uses_of_indexed(obj: Expr) -> Seq<TableUse>
    decreases obj, 2int,
{
    match obj {
        Expr::Local(b, _) => seq![TableUse::Read(b.slot)],
        _ => uses_of_expr(obj),
    }
}

/// What `obj.name(..)` does to `obj`: only an append writes it.
pub open spec fn uses_of_receiver(obj: Expr, name: Seq<char>) -> Seq<TableUse>
    decreases obj, 2int,
{
    match obj {
        Expr::Local(b, _) => if name == "push"@ {
            seq![TableUse::Written(b.slot)]
        } else {
            Seq::empty()
        },
        _ => uses_of_expr(obj),
    }
}

/// What a block does to tables it names.
pub open spec fn uses_of_block(b: Block) -> Seq<TableUse>
    decreases b, 3int,
{
    uses_of_stats(b.stats@) + uses_of_tail(b.tail)
}

pub open spec fn uses_of_tail(t: Option<Box<Expr>>) -> Seq<TableUse>
    decreases t, 2int,
{
    match t {
        Some(e) => uses_of_expr(*e),
        None => Seq::empty(),
    }
}

pub open spec fn uses_of_stats(s: Seq<Stat>) -> Seq<TableUse>
    decreases s, 2int,
{
    if s.len() == 0 {
        Seq::empty()
    } else {
        uses_of_stats(s.drop_last()) + uses_of_stat(s[s.len() - 1])
    }
}

pub open spec fn uses_of_exprs(s: Seq<Expr>) -> Seq<TableUse>
    decreases s, 2int,
{
    if s.len() == 0 {
        Seq::empty()
    } else {
        uses_of_exprs(s.drop_last()) + uses_of_expr(s[s.len() - 1])
    }
}

pub open spec fn uses_of_entries(s: Seq<(Expr, Expr)>) -> Seq<TableUse>
    decreases s, 2int,
{
    if s.len() == 0 {
        Seq::empty()
    } else {
        uses_of_entries(s.drop_last()) + uses_of_expr(s[s.len() - 1].0) + uses_of_expr(s[s.len() - 1].1)
    }
}

pub open spec fn uses_of_arms(s: Seq<(Expr, Block)>) -> Seq<TableUse>
    decreases s, 2int,
{
    if s.len() == 0 {
        Seq::empty()
    } else {
        uses_of_arms(s.drop_last()) + uses_of_expr(s[s.len() - 1].0) + uses_of_block(s[s.len() - 1].1)
    }
}

pub open spec fn uses_of_else(b: Option<Block>) -> Seq<TableUse>
    decreases b, 2int,
{
    match b {
        Some(b) => uses_of_block(b),
        None => Seq::empty(),
    }
}

pub open spec fn uses_of_match(s: Seq<Arm>) -> Seq<TableUse>
    decreases s, 2int,
{
    if s.len() == 0 {
        Seq::empty()
    } else {
        uses_of_match(s.drop_last()) + uses_of_guard(s[s.len() - 1].guard) + uses_of_block(s[s.len() - 1].body)
    }
}

pub open spec fn uses_of_guard(g: Option<Expr>) -> Seq<TableUse>
    decreases g, 2int,
{
    match g {
        Some(e) => uses_of_expr(e),
        None => Seq::empty(),
    }
}

pub open spec fn uses_of_stat(st: Stat) -> Seq<TableUse>
    decreases st, 1int,
{
    match st {
        Stat::Let(_, es) => uses_of_exprs(es@),
        Stat::LetSlots(bs, es) => uses_of_exprs(es@),
        Stat::Return(es) => uses_of_exprs(es@),
        Stat::FnDecl(_, e) => uses_of_expr(e),
        Stat::FnSlot(b, e) => uses_of_expr(e),
        Stat::Expr(e) => uses_of_expr(e),
        Stat::Assign(ts, es) => uses_of_targets(ts@) + uses_of_exprs(es@),
        Stat::OpAssign(t, _, e) => uses_of_target(t, true) + uses_of_expr(e),
        Stat::While(_, c, b) => uses_of_expr(c) + uses_of_block(b),
        Stat::Loop(_, b) => uses_of_block(b),
        Stat::ForRange { binding, start, end, body, .. } => uses_of_expr(start) + uses_of_expr(end) + uses_of_block(body),
        Stat::ForIn { bindings, iter, body, .. } => uses_of_expr(iter) + uses_of_block(body),
        _ => Seq::empty(),
    }
}

pub open spec fn uses_of_expr(e: Expr) -> Seq<TableUse>
    decreases e, 1int,
{
    match e {
        Expr::Call(f, args) => uses_of_expr(*f) + uses_of_exprs(args@),
        Expr::Method(o, name, args) => uses_of_receiver(*o, name@) + uses_of_exprs(args@),
        Expr::Index(a, b) => uses_of_indexed(*a) + uses_of_expr(*b),
        Expr::Bin(_, a, b) => uses_of_expr(*a) + uses_of_expr(*b),
        Expr::Range(a, b, _) => uses_of_expr(*a) + uses_of_expr(*b),
        Expr::Un(_, a) => uses_of_expr(*a),
        Expr::Array(items) => uses_of_exprs(items@),
        Expr::Entries(items) => uses_of_entries(items@),
        Expr::If(arms, els) => uses_of_arms(arms@) + uses_of_else(els),
        Expr::Match(subject, arms) => uses_of_expr(*subject) + uses_of_match(arms@),
        Expr::Do(b) => uses_of_block(b),
        _ => Seq::empty(),
    }
}

fn uses_target(t: &Expr, both: bool, out: &mut Vec<TableUse>)
    ensures
        final(out)@ == old(out)@ + uses_of_target(*t, both),
    decreases *t, 2int,
{
    match t {
        Expr::Index(obj, key) => {
            match &**obj {
                Expr::Local(b, _) => {
                    out.push(TableUse::Written(b.slot));
                    if both {
                        out.push(TableUse::Read(b.slot));
                    }
                },
                _ => {},
            }
            assert(out@ =~= old(out)@ + write_to(**obj, both));
            uses_expr(key, out);
        },
        _ => uses_expr(t, out),
    }
    assert(out@ =~= old(out)@ + uses_of_target(*t, both));
}

fn uses_targets(s: &Vec<Expr>, out: &mut Vec<TableUse>)
    ensures
        final(out)@ == old(out)@ + uses_of_targets(s@),
    decreases *s, 2int,
{
    let mut i: usize = 0;
    while i < s.len()
        invariant
            i <= s@.len(),
            out@ == old(out)@ + uses_of_targets(s@.take(i as int)),
        decreases s@.len() - i,
    {
        uses_target(&s[i], false, out);
        assert(s@.take(i as int + 1).drop_last() =~= s@.take(i as int));
        assert(out@ =~= old(out)@ + uses_of_targets(s@.take(i as int + 1)));
        i = i + 1;
    }
    assert(s@.take(s@.len() as int) =~= s@);
}

fn uses_indexed(obj: &Expr, out: &mut Vec<TableUse>)
    ensures
        final(out)@ == old(out)@ + uses_of_indexed(*obj),
    decreases *obj, 2int,
{
    match obj {
        Expr::Local(b, _) => out.push(TableUse::Read(b.slot)),
        _ => uses_expr(obj, out),
    }
    assert(out@ =~= old(out)@ + uses_of_indexed(*obj));
}

fn uses_receiver(obj: &Expr, name: &String, out: &mut Vec<TableUse>)
    ensures
        final(out)@ == old(out)@ + uses_of_receiver(*obj, name@),
    decreases *obj, 2int,
{
    match obj {
        Expr::Local(b, _) => {
            if text::same(name.as_str(), "push") {
                out.push(TableUse::Written(b.slot));
            }
        },
        _ => uses_expr(obj, out),
    }
    assert(out@ =~= old(out)@ + uses_of_receiver(*obj, name@));
}

pub(super) fn uses_block(b: &Block, out: &mut Vec<TableUse>)
    ensures
        final(out)@ == old(out)@ + uses_of_block(*b),
    decreases *b, 3int,
{
    uses_stats(&b.stats, out);
    match &b.tail {
        Some(e) => uses_expr(e, out),
        None => {},
    }
    assert(out@ =~= old(out)@ + uses_of_block(*b));
}

fn uses_stats(s: &Vec<Stat>, out: &mut Vec<TableUse>)
    ensures
        final(out)@ == old(out)@ + uses_of_stats(s@),
    decreases *s, 2int,
{
    let mut i: usize = 0;
    while i < s.len()
        invariant
            i <= s@.len(),
            out@ == old(out)@ + uses_of_stats(s@.take(i as int)),
        decreases s@.len() - i,
    {
        let ghost before = out@;
        uses_stat(&s[i], out);
        assert(s@.take(i as int + 1).drop_last() =~= s@.take(i as int));
        assert(out@ =~= old(out)@ + uses_of_stats(s@.take(i as int + 1)));
        i = i + 1;
    }
    assert(s@.take(s@.len() as int) =~= s@);
    assert(out@ =~= old(out)@ + uses_of_stats(s@));
}

fn uses_exprs(s: &Vec<Expr>, out: &mut Vec<TableUse>)
    ensures
        final(out)@ == old(out)@ + uses_of_exprs(s@),
    decreases *s, 2int,
{
    let mut i: usize = 0;
    while i < s.len()
        invariant
            i <= s@.len(),
            out@ == old(out)@ + uses_of_exprs(s@.take(i as int)),
        decreases s@.len() - i,
    {
        let ghost before = out@;
        uses_expr(&s[i], out);
        assert(s@.take(i as int + 1).drop_last() =~= s@.take(i as int));
        assert(out@ =~= old(out)@ + uses_of_exprs(s@.take(i as int + 1)));
        i = i + 1;
    }
    assert(s@.take(s@.len() as int) =~= s@);
    assert(out@ =~= old(out)@ + uses_of_exprs(s@));
}

fn uses_entries(s: &Vec<(Expr, Expr)>, out: &mut Vec<TableUse>)
    ensures
        final(out)@ == old(out)@ + uses_of_entries(s@),
    decreases *s, 2int,
{
    let mut i: usize = 0;
    while i < s.len()
        invariant
            i <= s@.len(),
            out@ == old(out)@ + uses_of_entries(s@.take(i as int)),
        decreases s@.len() - i,
    {
        let ghost before = out@;
        uses_expr(&s[i].0, out);
        uses_expr(&s[i].1, out);
        assert(s@.take(i as int + 1).drop_last() =~= s@.take(i as int));
        assert(out@ =~= old(out)@ + uses_of_entries(s@.take(i as int + 1)));
        i = i + 1;
    }
    assert(s@.take(s@.len() as int) =~= s@);
    assert(out@ =~= old(out)@ + uses_of_entries(s@));
}

fn uses_arms(s: &Vec<(Expr, Block)>, out: &mut Vec<TableUse>)
    ensures
        final(out)@ == old(out)@ + uses_of_arms(s@),
    decreases *s, 2int,
{
    let mut i: usize = 0;
    while i < s.len()
        invariant
            i <= s@.len(),
            out@ == old(out)@ + uses_of_arms(s@.take(i as int)),
        decreases s@.len() - i,
    {
        let ghost before = out@;
        uses_expr(&s[i].0, out);
        uses_block(&s[i].1, out);
        assert(s@.take(i as int + 1).drop_last() =~= s@.take(i as int));
        assert(out@ =~= old(out)@ + uses_of_arms(s@.take(i as int + 1)));
        i = i + 1;
    }
    assert(s@.take(s@.len() as int) =~= s@);
    assert(out@ =~= old(out)@ + uses_of_arms(s@));
}

fn uses_else(b: &Option<Block>, out: &mut Vec<TableUse>)
    ensures
        final(out)@ == old(out)@ + uses_of_else(*b),
    decreases *b, 2int,
{
    match b {
        Some(b) => uses_block(b, out),
        None => {},
    }
    assert(out@ =~= old(out)@ + uses_of_else(*b));
}

fn uses_match(s: &Vec<Arm>, out: &mut Vec<TableUse>)
    ensures
        final(out)@ == old(out)@ + uses_of_match(s@),
    decreases *s, 2int,
{
    let mut i: usize = 0;
    while i < s.len()
        invariant
            i <= s@.len(),
            out@ == old(out)@ + uses_of_match(s@.take(i as int)),
        decreases s@.len() - i,
    {
        let ghost before = out@;
        uses_guard(&s[i].guard, out);
        uses_block(&s[i].body, out);
        assert(s@.take(i as int + 1).drop_last() =~= s@.take(i as int));
        assert(out@ =~= old(out)@ + uses_of_match(s@.take(i as int + 1)));
        i = i + 1;
    }
    assert(s@.take(s@.len() as int) =~= s@);
    assert(out@ =~= old(out)@ + uses_of_match(s@));
}

fn uses_guard(g: &Option<Expr>, out: &mut Vec<TableUse>)
    ensures
        final(out)@ == old(out)@ + uses_of_guard(*g),
    decreases *g, 2int,
{
    match g {
        Some(e) => uses_expr(e, out),
        None => {},
    }
    assert(out@ =~= old(out)@ + uses_of_guard(*g));
}

pub(super) fn uses_stat(st: &Stat, out: &mut Vec<TableUse>)
    ensures
        final(out)@ == old(out)@ + uses_of_stat(*st),
    decreases *st, 1int,
{
    match st {
        Stat::Let(_, es) => {
            uses_exprs(es, out);
        },
        Stat::LetSlots(bs, es) => {
            uses_exprs(es, out);
        },
        Stat::Return(es) => {
            uses_exprs(es, out);
        },
        Stat::FnDecl(_, e) => {
            uses_expr(e, out);
        },
        Stat::FnSlot(b, e) => {
            uses_expr(e, out);
        },
        Stat::Expr(e) => {
            uses_expr(e, out);
        },
        Stat::Assign(ts, es) => {
            uses_targets(ts, out);
            uses_exprs(es, out);
        },
        Stat::OpAssign(t, _, e) => {
            uses_target(t, true, out);
            uses_expr(e, out);
        },
        Stat::While(_, c, b) => {
            uses_expr(c, out);
            uses_block(b, out);
        },
        Stat::Loop(_, b) => {
            uses_block(b, out);
        },
        Stat::ForRange { binding, start, end, body, .. } => {
            uses_expr(start, out);
            uses_expr(end, out);
            uses_block(body, out);
        },
        Stat::ForIn { bindings, iter, body, .. } => {
            uses_expr(iter, out);
            uses_block(body, out);
        },
        _ => {},
    }
    assert(out@ =~= old(out)@ + uses_of_stat(*st));
}

fn uses_expr(e: &Expr, out: &mut Vec<TableUse>)
    ensures
        final(out)@ == old(out)@ + uses_of_expr(*e),
    decreases *e, 1int,
{
    match e {
        Expr::Call(f, args) => {
            uses_expr(f, out);
            uses_exprs(args, out);
        },
        Expr::Method(o, name, args) => {
            uses_receiver(o, name, out);
            uses_exprs(args, out);
        },
        Expr::Index(a, b) => {
            uses_indexed(a, out);
            uses_expr(b, out);
        },
        Expr::Bin(_, a, b) => {
            uses_expr(a, out);
            uses_expr(b, out);
        },
        Expr::Range(a, b, _) => {
            uses_expr(a, out);
            uses_expr(b, out);
        },
        Expr::Un(_, a) => {
            uses_expr(a, out);
        },
        Expr::Array(items) => {
            uses_exprs(items, out);
        },
        Expr::Entries(items) => {
            uses_entries(items, out);
        },
        Expr::If(arms, els) => {
            uses_arms(arms, out);
            uses_else(els, out);
        },
        Expr::Match(subject, arms) => {
            uses_expr(subject, out);
            uses_match(arms, out);
        },
        Expr::Do(b) => {
            uses_block(b, out);
        },
        _ => {},
    }
    assert(out@ =~= old(out)@ + uses_of_expr(*e));
}

/// What a block does to tables it names.
pub fn table_usage(b: &Block) -> (r: Vec<TableUse>)
    ensures
        r@ == uses_of_block(*b),
{
    let mut out: Vec<TableUse> = Vec::new();
    uses_block(b, &mut out);
    assert(out@ =~= uses_of_block(*b));
    out
}

/// The same of one statement.
pub(super) fn table_usage_in(st: &Stat) -> (r: Vec<TableUse>)
    ensures
        r@ == uses_of_stat(*st),
{
    let mut out: Vec<TableUse> = Vec::new();
    uses_stat(st, &mut out);
    assert(out@ =~= uses_of_stat(*st));
    out
}

/// Is this table written?
pub(super) fn is_written(s: &Vec<TableUse>, slot: u16) -> (r: bool)
    ensures
        r == s@.contains(TableUse::Written(slot)),
{
    let mut i: usize = 0;
    while i < s.len()
        invariant
            i <= s@.len(),
            forall|k: int| 0 <= k < i ==> #[trigger] s@[k] != TableUse::Written(slot),
        decreases s@.len() - i,
    {
        if s[i] == TableUse::Written(slot) {
            assert(s@[i as int] == TableUse::Written(slot));
            return true;
        }
        i = i + 1;
    }
    false
}

} // verus!
