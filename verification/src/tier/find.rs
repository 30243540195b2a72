//! Finding a loop by the number stamped on its back edge.
use crate::ast::{Arm, Block, Expr, Stat};
use vstd::prelude::*;

verus! {

pub open spec fn first_found(a: Option<Stat>, b: Option<Stat>) -> Option<Stat> {
    if a is Some {
        a
    } else {
        b
    }
}

/// The first loop of a block with this number, in the order it is written but
/// for a loop's condition, which comes after its body.
pub open spec fn in_block(b: Block, id: u32) -> Option<Stat>
    decreases b, 2int, 0int,
{
    first_found(in_stats(b.stats@, id), in_tail(b.tail, id))
}

pub open spec fn in_tail(t: Option<Box<Expr>>, id: u32) -> Option<Stat>
    decreases t, 2int, 0int,
{
    match t {
        Some(e) => in_expr(*e, id),
        None => None,
    }
}

pub open spec fn in_else(t: Option<Block>, id: u32) -> Option<Stat>
    decreases t, 3int, 0int,
{
    match t {
        Some(b) => in_block(b, id),
        None => None,
    }
}

pub open spec fn in_guard(t: Option<Expr>, id: u32) -> Option<Stat>
    decreases t, 2int, 0int,
{
    match t {
        Some(e) => in_expr(e, id),
        None => None,
    }
}

pub open spec fn in_stats(s: Seq<Stat>, id: u32) -> Option<Stat>
    decreases s, 2int, 0int,
{
    if s.len() == 0 {
        None
    } else {
        first_found(in_stats(s.drop_last(), id), in_stat(s[s.len() - 1], id))
    }
}

pub open spec fn in_exprs(s: Seq<Expr>, id: u32) -> Option<Stat>
    decreases s, 2int, 0int,
{
    if s.len() == 0 {
        None
    } else {
        first_found(in_exprs(s.drop_last(), id), in_expr(s[s.len() - 1], id))
    }
}

pub open spec fn in_entries(s: Seq<(Expr, Expr)>, id: u32) -> Option<Stat>
    decreases s, 2int, 0int,
{
    if s.len() == 0 {
        None
    } else {
        first_found(
            in_entries(s.drop_last(), id),
            first_found(in_expr(s[s.len() - 1].0, id), in_expr(s[s.len() - 1].1, id)),
        )
    }
}

pub open spec fn in_arms(s: Seq<(Expr, Block)>, id: u32) -> Option<Stat>
    decreases s, 3int, 0int,
{
    if s.len() == 0 {
        None
    } else {
        first_found(
            in_arms(s.drop_last(), id),
            first_found(in_expr(s[s.len() - 1].0, id), in_block(s[s.len() - 1].1, id)),
        )
    }
}

pub open spec fn in_match(s: Seq<Arm>, id: u32) -> Option<Stat>
    decreases s, 3int, 0int,
{
    if s.len() == 0 {
        None
    } else {
        first_found(
            in_match(s.drop_last(), id),
            first_found(in_guard(s[s.len() - 1].guard, id), in_block(s[s.len() - 1].body, id)),
        )
    }
}

pub open spec fn in_stat(st: Stat, id: u32) -> Option<Stat>
    decreases st, 1int, 0int,
{
    match st {
        Stat::While(i, c, b) => if i == id {
            Some(st)
        } else {
            first_found(in_block(b, id), in_expr(c, id))
        },
        Stat::Loop(i, b) => if i == id {
            Some(st)
        } else {
            in_block(b, id)
        },
        Stat::ForRange { id: i, var, binding, start, end, inclusive, body } => if i == id {
            Some(st)
        } else {
            first_found(in_block(body, id), in_expr(end, id))
        },
        Stat::ForIn { id: i, vars, bindings, iter, body } => if i == id {
            Some(st)
        } else {
            first_found(in_block(body, id), in_expr(iter, id))
        },
        Stat::Expr(e) => in_expr(e, id),
        Stat::FnSlot(_, e) => in_expr(e, id),
        Stat::LetSlots(_, es) => in_exprs(es@, id),
        Stat::Return(es) => in_exprs(es@, id),
        Stat::Assign(ts, es) => first_found(in_exprs(ts@, id), in_exprs(es@, id)),
        Stat::OpAssign(t, _, e) => first_found(in_expr(t, id), in_expr(e, id)),
        _ => None,
    }
}

pub open spec fn in_expr(e: Expr, id: u32) -> Option<Stat>
    decreases e, 1int, 0int,
{
    match e {
        Expr::Do(b) => in_block(b, id),
        Expr::If(arms, els) => first_found(in_arms(arms@, id), in_else(els, id)),
        Expr::Match(subject, arms) => first_found(in_expr(*subject, id), in_match(arms@, id)),
        Expr::Bin(_, a, b) => first_found(in_expr(*a, id), in_expr(*b, id)),
        Expr::Index(a, b) => first_found(in_expr(*a, id), in_expr(*b, id)),
        Expr::Range(a, b, _) => first_found(in_expr(*a, id), in_expr(*b, id)),
        Expr::Un(_, a) => in_expr(*a, id),
        Expr::Call(f, args) => first_found(in_expr(*f, id), in_exprs(args@, id)),
        Expr::Method(o, _, args) => first_found(in_expr(*o, id), in_exprs(args@, id)),
        Expr::Array(items) => in_exprs(items@, id),
        Expr::Entries(items) => in_entries(items@, id),
        _ => None,
    }
}

pub open spec fn found(r: Option<&Stat>) -> Option<Stat> {
    match r {
        Some(s) => Some(*s),
        None => None,
    }
}

/// Find a loop statement by its number.
pub fn find_loop(b: &Block, id: u32) -> (r: Option<&Stat>)
    ensures
        found(r) == in_block(*b, id),
    decreases *b, 2int, 0int,
{
    match find_stats(&b.stats, id) {
        Some(s) => Some(s),
        None => find_tail(&b.tail, id),
    }
}

fn find_tail(t: &Option<Box<Expr>>, id: u32) -> (r: Option<&Stat>)
    ensures
        found(r) == in_tail(*t, id),
    decreases *t, 2int, 0int,
{
    match t {
        Some(e) => find_expr(e, id),
        None => None,
    }
}

fn find_else(t: &Option<Block>, id: u32) -> (r: Option<&Stat>)
    ensures
        found(r) == in_else(*t, id),
    decreases *t, 3int, 0int,
{
    match t {
        Some(b) => find_loop(b, id),
        None => None,
    }
}

fn find_guard(t: &Option<Expr>, id: u32) -> (r: Option<&Stat>)
    ensures
        found(r) == in_guard(*t, id),
    decreases *t, 2int, 0int,
{
    match t {
        Some(e) => find_expr(e, id),
        None => None,
    }
}

fn find_stats(s: &Vec<Stat>, id: u32) -> (r: Option<&Stat>)
    ensures
        found(r) == in_stats(s@, id),
    decreases *s, 2int, 0int,
{
    let mut i: usize = 0;
    while i < s.len()
        invariant
            i <= s@.len(),
            in_stats(s@.take(i as int), id) is None,
        decreases s@.len() - i,
    {
        assert(s@.take(i as int + 1).drop_last() =~= s@.take(i as int));
        match find_stat(&s[i], id) {
            Some(x) => {
                proof {
                    lemma_stats(s@, id, i as int + 1);
                }
                return Some(x);
            },
            None => {},
        }
        i = i + 1;
    }
    assert(s@.take(s@.len() as int) =~= s@);
    None
}

proof fn lemma_stats(s: Seq<Stat>, id: u32, i: int)
    requires
        0 <= i <= s.len(),
        in_stats(s.take(i), id) is Some,
    ensures
        in_stats(s, id) == in_stats(s.take(i), id),
    decreases s.len() - i,
{
    if i < s.len() {
        assert(s.take(i + 1).drop_last() =~= s.take(i));
        lemma_stats(s, id, i + 1);
    } else {
        assert(s.take(i) =~= s);
    }
}

fn find_exprs(s: &Vec<Expr>, id: u32) -> (r: Option<&Stat>)
    ensures
        found(r) == in_exprs(s@, id),
    decreases *s, 2int, 0int,
{
    let mut i: usize = 0;
    while i < s.len()
        invariant
            i <= s@.len(),
            in_exprs(s@.take(i as int), id) is None,
        decreases s@.len() - i,
    {
        assert(s@.take(i as int + 1).drop_last() =~= s@.take(i as int));
        match find_expr(&s[i], id) {
            Some(x) => {
                proof {
                    lemma_exprs(s@, id, i as int + 1);
                }
                return Some(x);
            },
            None => {},
        }
        i = i + 1;
    }
    assert(s@.take(s@.len() as int) =~= s@);
    None
}

proof fn lemma_exprs(s: Seq<Expr>, id: u32, i: int)
    requires
        0 <= i <= s.len(),
        in_exprs(s.take(i), id) is Some,
    ensures
        in_exprs(s, id) == in_exprs(s.take(i), id),
    decreases s.len() - i,
{
    if i < s.len() {
        assert(s.take(i + 1).drop_last() =~= s.take(i));
        lemma_exprs(s, id, i + 1);
    } else {
        assert(s.take(i) =~= s);
    }
}

fn find_entries(s: &Vec<(Expr, Expr)>, id: u32) -> (r: Option<&Stat>)
    ensures
        found(r) == in_entries(s@, id),
    decreases *s, 2int, 0int,
{
    let mut i: usize = 0;
    while i < s.len()
        invariant
            i <= s@.len(),
            in_entries(s@.take(i as int), id) is None,
        decreases s@.len() - i,
    {
        assert(s@.take(i as int + 1).drop_last() =~= s@.take(i as int));
        let one = match find_expr(&s[i].0, id) {
            Some(x) => Some(x),
            None => find_expr(&s[i].1, id),
        };
        match one {
            Some(x) => {
                proof {
                    lemma_entries(s@, id, i as int + 1);
                }
                return Some(x);
            },
            None => {},
        }
        i = i + 1;
    }
    assert(s@.take(s@.len() as int) =~= s@);
    None
}

proof fn lemma_entries(s: Seq<(Expr, Expr)>, id: u32, i: int)
    requires
        0 <= i <= s.len(),
        in_entries(s.take(i), id) is Some,
    ensures
        in_entries(s, id) == in_entries(s.take(i), id),
    decreases s.len() - i,
{
    if i < s.len() {
        assert(s.take(i + 1).drop_last() =~= s.take(i));
        lemma_entries(s, id, i + 1);
    } else {
        assert(s.take(i) =~= s);
    }
}

fn find_arms(s: &Vec<(Expr, Block)>, id: u32) -> (r: Option<&Stat>)
    ensures
        found(r) == in_arms(s@, id),
    decreases *s, 3int, 0int,
{
    let mut i: usize = 0;
    while i < s.len()
        invariant
            i <= s@.len(),
            in_arms(s@.take(i as int), id) is None,
        decreases s@.len() - i,
    {
        assert(s@.take(i as int + 1).drop_last() =~= s@.take(i as int));
        let one = match find_expr(&s[i].0, id) {
            Some(x) => Some(x),
            None => find_loop(&s[i].1, id),
        };
        match one {
            Some(x) => {
                proof {
                    lemma_arms(s@, id, i as int + 1);
                }
                return Some(x);
            },
            None => {},
        }
        i = i + 1;
    }
    assert(s@.take(s@.len() as int) =~= s@);
    None
}

proof fn lemma_arms(s: Seq<(Expr, Block)>, id: u32, i: int)
    requires
        0 <= i <= s.len(),
        in_arms(s.take(i), id) is Some,
    ensures
        in_arms(s, id) == in_arms(s.take(i), id),
    decreases s.len() - i,
{
    if i < s.len() {
        assert(s.take(i + 1).drop_last() =~= s.take(i));
        lemma_arms(s, id, i + 1);
    } else {
        assert(s.take(i) =~= s);
    }
}

fn find_match(s: &Vec<Arm>, id: u32) -> (r: Option<&Stat>)
    ensures
        found(r) == in_match(s@, id),
    decreases *s, 3int, 0int,
{
    let mut i: usize = 0;
    while i < s.len()
        invariant
            i <= s@.len(),
            in_match(s@.take(i as int), id) is None,
        decreases s@.len() - i,
    {
        assert(s@.take(i as int + 1).drop_last() =~= s@.take(i as int));
        let one = match find_guard(&s[i].guard, id) {
            Some(x) => Some(x),
            None => find_loop(&s[i].body, id),
        };
        match one {
            Some(x) => {
                proof {
                    lemma_match(s@, id, i as int + 1);
                }
                return Some(x);
            },
            None => {},
        }
        i = i + 1;
    }
    assert(s@.take(s@.len() as int) =~= s@);
    None
}

proof fn lemma_match(s: Seq<Arm>, id: u32, i: int)
    requires
        0 <= i <= s.len(),
        in_match(s.take(i), id) is Some,
    ensures
        in_match(s, id) == in_match(s.take(i), id),
    decreases s.len() - i,
{
    if i < s.len() {
        assert(s.take(i + 1).drop_last() =~= s.take(i));
        lemma_match(s, id, i + 1);
    } else {
        assert(s.take(i) =~= s);
    }
}

fn find_stat(st: &Stat, id: u32) -> (r: Option<&Stat>)
    ensures
        found(r) == in_stat(*st, id),
    decreases *st, 1int, 0int,
{
    match st {
        Stat::While(i, c, b) => {
            if *i == id {
                return Some(st);
            }
            match find_loop(b, id) {
                Some(x) => Some(x),
                None => find_expr(c, id),
            }
        },
        Stat::Loop(i, b) => {
            if *i == id {
                return Some(st);
            }
            find_loop(b, id)
        },
        Stat::ForRange { id: i, var, binding, start, end, inclusive, body } => {
            if *i == id {
                return Some(st);
            }
            match find_loop(body, id) {
                Some(x) => Some(x),
                None => find_expr(end, id),
            }
        },
        Stat::ForIn { id: i, vars, bindings, iter, body } => {
            if *i == id {
                return Some(st);
            }
            match find_loop(body, id) {
                Some(x) => Some(x),
                None => find_expr(iter, id),
            }
        },
        Stat::Expr(e) => find_expr(e, id),
        Stat::FnSlot(_, e) => find_expr(e, id),
        Stat::LetSlots(_, es) => find_exprs(es, id),
        Stat::Return(es) => find_exprs(es, id),
        Stat::Assign(ts, es) => match find_exprs(ts, id) {
            Some(x) => Some(x),
            None => find_exprs(es, id),
        },
        Stat::OpAssign(t, _, e) => match find_expr(t, id) {
            Some(x) => Some(x),
            None => find_expr(e, id),
        },
        _ => None,
    }
}

fn find_expr(e: &Expr, id: u32) -> (r: Option<&Stat>)
    ensures
        found(r) == in_expr(*e, id),
    decreases *e, 1int, 0int,
{
    match e {
        Expr::Do(b) => find_loop(b, id),
        Expr::If(arms, els) => match find_arms(arms, id) {
            Some(x) => Some(x),
            None => find_else(els, id),
        },
        Expr::Match(subject, arms) => match find_expr(subject, id) {
            Some(x) => Some(x),
            None => find_match(arms, id),
        },
        Expr::Bin(_, a, b) => match find_expr(a, id) {
            Some(x) => Some(x),
            None => find_expr(b, id),
        },
        Expr::Index(a, b) => match find_expr(a, id) {
            Some(x) => Some(x),
            None => find_expr(b, id),
        },
        Expr::Range(a, b, _) => match find_expr(a, id) {
            Some(x) => Some(x),
            None => find_expr(b, id),
        },
        Expr::Un(_, a) => find_expr(a, id),
        Expr::Call(f, args) => match find_expr(f, id) {
            Some(x) => Some(x),
            None => find_exprs(args, id),
        },
        Expr::Method(o, _, args) => match find_expr(o, id) {
            Some(x) => Some(x),
            None => find_exprs(args, id),
        },
        Expr::Array(items) => find_exprs(items, id),
        Expr::Entries(items) => find_entries(items, id),
        _ => None,
    }
}

// ---- what is found --------------------------------------------------------------------------

/// Is this a loop with this number?
pub open spec fn is_loop(st: Stat, id: u32) -> bool {
    match st {
        Stat::While(i, _, _) => i == id,
        Stat::Loop(i, _) => i == id,
        Stat::ForRange { id: i, .. } => i == id,
        Stat::ForIn { id: i, .. } => i == id,
        _ => false,
    }
}

pub open spec fn right(r: Option<Stat>, id: u32) -> bool {
    match r {
        Some(st) => is_loop(st, id),
        None => true,
    }
}

/// The loop that is found is a loop, and the one with that number.
pub proof fn lemma_the_loop_that_was_asked_for(b: Block, id: u32)
    ensures
        match in_block(b, id) {
            Some(st) => is_loop(st, id),
            None => true,
        },
{
    lemma_right_block(b, id);
}

proof fn lemma_right_block(b: Block, id: u32)
    ensures
        right(in_block(b, id), id),
    decreases b, 2int, 0int,
{
    lemma_right_stats(b.stats@, id);
    match b.tail {
        Some(e) => {
            lemma_right_expr(*e, id);
        },
        None => {},
    }
}

proof fn lemma_right_else(t: Option<Block>, id: u32)
    ensures
        right(in_else(t, id), id),
    decreases t, 3int, 0int,
{
    match t {
        Some(b) => {
            lemma_right_block(b, id);
        },
        None => {},
    }
}

proof fn lemma_right_guard(t: Option<Expr>, id: u32)
    ensures
        right(in_guard(t, id), id),
    decreases t, 2int, 0int,
{
    match t {
        Some(e) => {
            lemma_right_expr(e, id);
        },
        None => {},
    }
}

proof fn lemma_right_stats(s: Seq<Stat>, id: u32)
    ensures
        right(in_stats(s, id), id),
    decreases s, 2int, 0int,
{
    if s.len() > 0 {
        lemma_right_stats(s.drop_last(), id);
        lemma_right_stat(s[s.len() - 1], id);
    }
}

proof fn lemma_right_exprs(s: Seq<Expr>, id: u32)
    ensures
        right(in_exprs(s, id), id),
    decreases s, 2int, 0int,
{
    if s.len() > 0 {
        lemma_right_exprs(s.drop_last(), id);
        lemma_right_expr(s[s.len() - 1], id);
    }
}

proof fn lemma_right_entries(s: Seq<(Expr, Expr)>, id: u32)
    ensures
        right(in_entries(s, id), id),
    decreases s, 2int, 0int,
{
    if s.len() > 0 {
        lemma_right_entries(s.drop_last(), id);
        lemma_right_expr(s[s.len() - 1].0, id);
        lemma_right_expr(s[s.len() - 1].1, id);
    }
}

proof fn lemma_right_arms(s: Seq<(Expr, Block)>, id: u32)
    ensures
        right(in_arms(s, id), id),
    decreases s, 3int, 0int,
{
    if s.len() > 0 {
        lemma_right_arms(s.drop_last(), id);
        lemma_right_expr(s[s.len() - 1].0, id);
        lemma_right_block(s[s.len() - 1].1, id);
    }
}

proof fn lemma_right_match(s: Seq<Arm>, id: u32)
    ensures
        right(in_match(s, id), id),
    decreases s, 3int, 0int,
{
    if s.len() > 0 {
        lemma_right_match(s.drop_last(), id);
        lemma_right_guard(s[s.len() - 1].guard, id);
        lemma_right_block(s[s.len() - 1].body, id);
    }
}

proof fn lemma_right_stat(st: Stat, id: u32)
    ensures
        right(in_stat(st, id), id),
    decreases st, 1int, 0int,
{
    match st {
        Stat::While(i, c, b) => {
            lemma_right_block(b, id);
            lemma_right_expr(c, id);
        },
        Stat::Loop(i, b) => {
            lemma_right_block(b, id);
        },
        Stat::ForRange { id: i, var, binding, start, end, inclusive, body } => {
            lemma_right_block(body, id);
            lemma_right_expr(end, id);
        },
        Stat::ForIn { id: i, vars, bindings, iter, body } => {
            lemma_right_block(body, id);
            lemma_right_expr(iter, id);
        },
        Stat::Expr(e) => {
            lemma_right_expr(e, id);
        },
        Stat::FnSlot(_, e) => {
            lemma_right_expr(e, id);
        },
        Stat::LetSlots(_, es) => {
            lemma_right_exprs(es@, id);
        },
        Stat::Return(es) => {
            lemma_right_exprs(es@, id);
        },
        Stat::Assign(ts, es) => {
            lemma_right_exprs(ts@, id);
            lemma_right_exprs(es@, id);
        },
        Stat::OpAssign(t, _, e) => {
            lemma_right_expr(t, id);
            lemma_right_expr(e, id);
        },
        _ => {},
    }
}

proof fn lemma_right_expr(e: Expr, id: u32)
    ensures
        right(in_expr(e, id), id),
    decreases e, 1int, 0int,
{
    match e {
        Expr::Do(b) => {
            lemma_right_block(b, id);
        },
        Expr::If(arms, els) => {
            lemma_right_arms(arms@, id);
            lemma_right_else(els, id);
        },
        Expr::Match(subject, arms) => {
            lemma_right_expr(*subject, id);
            lemma_right_match(arms@, id);
        },
        Expr::Bin(_, a, b) => {
            lemma_right_expr(*a, id);
            lemma_right_expr(*b, id);
        },
        Expr::Index(a, b) => {
            lemma_right_expr(*a, id);
            lemma_right_expr(*b, id);
        },
        Expr::Range(a, b, _) => {
            lemma_right_expr(*a, id);
            lemma_right_expr(*b, id);
        },
        Expr::Un(_, a) => {
            lemma_right_expr(*a, id);
        },
        Expr::Call(f, args) => {
            lemma_right_expr(*f, id);
            lemma_right_exprs(args@, id);
        },
        Expr::Method(o, _, args) => {
            lemma_right_expr(*o, id);
            lemma_right_exprs(args@, id);
        },
        Expr::Array(items) => {
            lemma_right_exprs(items@, id);
        },
        Expr::Entries(items) => {
            lemma_right_entries(items@, id);
        },
        _ => {},
    }
}

} // verus!
