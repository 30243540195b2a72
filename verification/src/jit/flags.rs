//! Locals that only ever hold a boolean.
use super::walk;
use crate::ast::{Arm, BinOp, Binding, Block, Expr, Stat, UnOp};
use vstd::prelude::*;

verus! {

/// One thing done to a local.
#[derive(Clone, Copy, Debug, PartialEq, Eq, Structural)]
pub enum FlagUse {
    /// It is given something, which is or is not a boolean for all to see.
    Given(u16, bool),
    /// It is counted with, or given nothing.
    Spoilt(u16),
    /// It is declared here.
    Bound(u16),
}

/// Is this operator a comparison?
pub open spec fn compares(op: BinOp) -> bool {
    match op {
        BinOp::Lt | BinOp::Le | BinOp::Gt | BinOp::Ge | BinOp::Eq | BinOp::Ne => true,
        _ => false,
    }
}

pub fn is_comparison(op: BinOp) -> (r: bool)
    ensures
        r == compares(op),
{
    match op {
        BinOp::Lt | BinOp::Le | BinOp::Gt | BinOp::Ge | BinOp::Eq | BinOp::Ne => true,
        _ => false,
    }
}

/// Is this expression one that anybody can see is a boolean?
pub open spec fn bool_like(e: Expr) -> bool
    decreases e,
{
    match e {
        Expr::Bool(_) => true,
        Expr::Bin(op, a, b) => compares(op) || ((op == BinOp::And || op == BinOp::Or) && bool_like(
            *a,
        ) && bool_like(*b)),
        Expr::Un(UnOp::Not, a) => bool_like(*a),
        _ => false,
    }
}

pub fn bool_valued(e: &Expr) -> (r: bool)
    ensures
        r == bool_like(*e),
    decreases *e,
{
    match e {
        Expr::Bool(_) => true,
        Expr::Bin(op, a, b) => is_comparison(*op) || ((*op == BinOp::And || *op == BinOp::Or)
            && bool_valued(a) && bool_valued(b)),
        Expr::Un(UnOp::Not, a) => bool_valued(a),
        _ => false,
    }
}

/// What a slot is given: the value at its place, or nothing.
pub open spec fn given(slot: u16, es: Seq<Expr>, i: int) -> FlagUse {
    if 0 <= i < es.len() {
        FlagUse::Given(slot, bool_like(es[i]))
    } else {
        FlagUse::Spoilt(slot)
    }
}

/// What a `let` does, for its first `n` names.
pub open spec fn let_flags(bs: Seq<Binding>, es: Seq<Expr>, n: nat) -> Seq<FlagUse>
    decreases n,
{
    if n == 0 {
        Seq::empty()
    } else {
        let_flags(bs, es, (n - 1) as nat) + seq![
            FlagUse::Bound(bs[n - 1].slot),
            given(bs[n - 1].slot, es, n - 1),
        ]
    }
}

/// What an assignment does, for its first `n` targets.
pub open spec fn set_flags(ts: Seq<Expr>, es: Seq<Expr>, n: nat) -> Seq<FlagUse>
    decreases n,
{
    if n == 0 {
        Seq::empty()
    } else {
        set_flags(ts, es, (n - 1) as nat) + match walk::local_slot(ts[n - 1]) {
            Some(slot) => seq![given(slot, es, n - 1)],
            None => Seq::empty(),
        }
    }
}

pub open spec fn spoils(bs: Seq<Binding>) -> Seq<FlagUse> {
    Seq::new(bs.len(), |i: int| FlagUse::Spoilt(bs[i].slot))
}

pub open spec fn spoils_if(b: Option<Binding>) -> Seq<FlagUse> {
    match b {
        Some(b) => seq![FlagUse::Spoilt(b.slot)],
        None => Seq::empty(),
    }
}

pub open spec fn spoils_target(t: Expr) -> Seq<FlagUse> {
    match walk::local_slot(t) {
        Some(slot) => seq![FlagUse::Spoilt(slot)],
        None => Seq::empty(),
    }
}

/// What is done with locals that might be flags.
pub open spec fn flags_of_block(b: Block) -> Seq<FlagUse>
    decreases b, 3int,
{
    flags_of_stats(b.stats@) + flags_of_tail(b.tail)
}

pub open spec fn flags_of_tail(t: Option<Box<Expr>>) -> Seq<FlagUse>
    decreases t, 2int,
{
    match t {
        Some(e) => flags_of_expr(*e),
        None => Seq::empty(),
    }
}

pub open spec fn flags_of_stats(s: Seq<Stat>) -> Seq<FlagUse>
    decreases s, 2int,
{
    if s.len() == 0 {
        Seq::empty()
    } else {
        flags_of_stats(s.drop_last()) + flags_of_stat(s[s.len() - 1])
    }
}

pub open spec fn flags_of_exprs(s: Seq<Expr>) -> Seq<FlagUse>
    decreases s, 2int,
{
    if s.len() == 0 {
        Seq::empty()
    } else {
        flags_of_exprs(s.drop_last()) + flags_of_expr(s[s.len() - 1])
    }
}

pub open spec fn flags_of_arms(s: Seq<(Expr, Block)>) -> Seq<FlagUse>
    decreases s, 2int,
{
    if s.len() == 0 {
        Seq::empty()
    } else {
        flags_of_arms(s.drop_last()) + flags_of_expr(s[s.len() - 1].0) + flags_of_block(s[s.len() - 1].1)
    }
}

pub open spec fn flags_of_else(b: Option<Block>) -> Seq<FlagUse>
    decreases b, 2int,
{
    match b {
        Some(b) => flags_of_block(b),
        None => Seq::empty(),
    }
}

pub open spec fn flags_of_match(s: Seq<Arm>) -> Seq<FlagUse>
    decreases s, 2int,
{
    if s.len() == 0 {
        Seq::empty()
    } else {
        flags_of_match(s.drop_last()) + flags_of_block(s[s.len() - 1].body)
    }
}

pub open spec fn flags_of_stat(st: Stat) -> Seq<FlagUse>
    decreases st, 1int,
{
    match st {
        Stat::Let(_, es) => flags_of_exprs(es@),
        Stat::LetSlots(bs, es) => let_flags(bs@, es@, bs@.len()) + flags_of_exprs(es@),
        Stat::Return(es) => flags_of_exprs(es@),
        Stat::FnDecl(_, e) => flags_of_expr(e),
        Stat::FnSlot(b, e) => flags_of_expr(e),
        Stat::Expr(e) => flags_of_expr(e),
        Stat::Assign(ts, es) => set_flags(ts@, es@, ts@.len()) + flags_of_exprs(es@),
        Stat::OpAssign(t, _, e) => spoils_target(t) + flags_of_expr(e),
        Stat::While(_, c, b) => flags_of_expr(c) + flags_of_block(b),
        Stat::Loop(_, b) => flags_of_block(b),
        Stat::ForRange { binding, start, end, body, .. } => spoils_if(binding) + flags_of_block(body),
        Stat::ForIn { bindings, iter, body, .. } => spoils(bindings@) + flags_of_block(body),
        _ => Seq::empty(),
    }
}

pub open spec fn flags_of_expr(e: Expr) -> Seq<FlagUse>
    decreases e, 1int,
{
    match e {
        Expr::Call(f, args) => flags_of_expr(*f) + flags_of_exprs(args@),
        Expr::Method(o, name, args) => flags_of_expr(*o) + flags_of_exprs(args@),
        Expr::Index(a, b) => flags_of_expr(*a) + flags_of_expr(*b),
        Expr::Bin(_, a, b) => flags_of_expr(*a) + flags_of_expr(*b),
        Expr::Range(a, b, _) => flags_of_expr(*a) + flags_of_expr(*b),
        Expr::Un(_, a) => flags_of_expr(*a),
        Expr::If(arms, els) => flags_of_arms(arms@) + flags_of_else(els),
        Expr::Match(subject, arms) => flags_of_expr(*subject) + flags_of_match(arms@),
        Expr::Do(b) => flags_of_block(b),
        _ => Seq::empty(),
    }
}

fn note_given(slot: u16, es: &Vec<Expr>, i: usize, out: &mut Vec<FlagUse>)
    ensures
        final(out)@ == old(out)@.push(given(slot, es@, i as int)),
{
    if i < es.len() {
        out.push(FlagUse::Given(slot, bool_valued(&es[i])));
    } else {
        out.push(FlagUse::Spoilt(slot));
    }
}

fn note_let(bs: &Vec<Binding>, es: &Vec<Expr>, out: &mut Vec<FlagUse>)
    ensures
        final(out)@ == old(out)@ + let_flags(bs@, es@, bs@.len()),
{
    let mut i: usize = 0;
    while i < bs.len()
        invariant
            i <= bs@.len(),
            out@ == old(out)@ + let_flags(bs@, es@, i as nat),
        decreases bs@.len() - i,
    {
        out.push(FlagUse::Bound(bs[i].slot));
        note_given(bs[i].slot, es, i, out);
        i = i + 1;
        assert(out@ =~= old(out)@ + let_flags(bs@, es@, i as nat));
    }
}

fn note_set(ts: &Vec<Expr>, es: &Vec<Expr>, out: &mut Vec<FlagUse>)
    ensures
        final(out)@ == old(out)@ + set_flags(ts@, es@, ts@.len()),
{
    let mut i: usize = 0;
    while i < ts.len()
        invariant
            i <= ts@.len(),
            out@ == old(out)@ + set_flags(ts@, es@, i as nat),
        decreases ts@.len() - i,
    {
        match &ts[i] {
            Expr::Local(b, _) => note_given(b.slot, es, i, out),
            _ => {},
        }
        i = i + 1;
        assert(out@ =~= old(out)@ + set_flags(ts@, es@, i as nat));
    }
}

fn note_spoilt(bs: &Vec<Binding>, out: &mut Vec<FlagUse>)
    ensures
        final(out)@ == old(out)@ + spoils(bs@),
{
    let mut i: usize = 0;
    while i < bs.len()
        invariant
            i <= bs@.len(),
            out@ == old(out)@ + spoils(bs@).take(i as int),
        decreases bs@.len() - i,
    {
        out.push(FlagUse::Spoilt(bs[i].slot));
        assert(out@ =~= old(out)@ + spoils(bs@).take(i as int + 1));
        i = i + 1;
    }
    assert(out@ =~= old(out)@ + spoils(bs@));
}

fn note_spoilt_if(b: &Option<Binding>, out: &mut Vec<FlagUse>)
    ensures
        final(out)@ == old(out)@ + spoils_if(*b),
{
    match b {
        Some(b) => out.push(FlagUse::Spoilt(b.slot)),
        None => {},
    }
    assert(out@ =~= old(out)@ + spoils_if(*b));
}

fn note_spoilt_target(t: &Expr, out: &mut Vec<FlagUse>)
    ensures
        final(out)@ == old(out)@ + spoils_target(*t),
{
    match t {
        Expr::Local(b, _) => out.push(FlagUse::Spoilt(b.slot)),
        _ => {},
    }
    assert(out@ =~= old(out)@ + spoils_target(*t));
}

pub(super) fn flags_block(b: &Block, out: &mut Vec<FlagUse>)
    ensures
        final(out)@ == old(out)@ + flags_of_block(*b),
    decreases *b, 3int,
{
    flags_stats(&b.stats, out);
    match &b.tail {
        Some(e) => flags_expr(e, out),
        None => {},
    }
    assert(out@ =~= old(out)@ + flags_of_block(*b));
}

fn flags_stats(s: &Vec<Stat>, out: &mut Vec<FlagUse>)
    ensures
        final(out)@ == old(out)@ + flags_of_stats(s@),
    decreases *s, 2int,
{
    let mut i: usize = 0;
    while i < s.len()
        invariant
            i <= s@.len(),
            out@ == old(out)@ + flags_of_stats(s@.take(i as int)),
        decreases s@.len() - i,
    {
        let ghost before = out@;
        flags_stat(&s[i], out);
        assert(s@.take(i as int + 1).drop_last() =~= s@.take(i as int));
        assert(out@ =~= old(out)@ + flags_of_stats(s@.take(i as int + 1)));
        i = i + 1;
    }
    assert(s@.take(s@.len() as int) =~= s@);
    assert(out@ =~= old(out)@ + flags_of_stats(s@));
}

fn flags_exprs(s: &Vec<Expr>, out: &mut Vec<FlagUse>)
    ensures
        final(out)@ == old(out)@ + flags_of_exprs(s@),
    decreases *s, 2int,
{
    let mut i: usize = 0;
    while i < s.len()
        invariant
            i <= s@.len(),
            out@ == old(out)@ + flags_of_exprs(s@.take(i as int)),
        decreases s@.len() - i,
    {
        let ghost before = out@;
        flags_expr(&s[i], out);
        assert(s@.take(i as int + 1).drop_last() =~= s@.take(i as int));
        assert(out@ =~= old(out)@ + flags_of_exprs(s@.take(i as int + 1)));
        i = i + 1;
    }
    assert(s@.take(s@.len() as int) =~= s@);
    assert(out@ =~= old(out)@ + flags_of_exprs(s@));
}

fn flags_arms(s: &Vec<(Expr, Block)>, out: &mut Vec<FlagUse>)
    ensures
        final(out)@ == old(out)@ + flags_of_arms(s@),
    decreases *s, 2int,
{
    let mut i: usize = 0;
    while i < s.len()
        invariant
            i <= s@.len(),
            out@ == old(out)@ + flags_of_arms(s@.take(i as int)),
        decreases s@.len() - i,
    {
        let ghost before = out@;
        flags_expr(&s[i].0, out);
        flags_block(&s[i].1, out);
        assert(s@.take(i as int + 1).drop_last() =~= s@.take(i as int));
        assert(out@ =~= old(out)@ + flags_of_arms(s@.take(i as int + 1)));
        i = i + 1;
    }
    assert(s@.take(s@.len() as int) =~= s@);
    assert(out@ =~= old(out)@ + flags_of_arms(s@));
}

fn flags_else(b: &Option<Block>, out: &mut Vec<FlagUse>)
    ensures
        final(out)@ == old(out)@ + flags_of_else(*b),
    decreases *b, 2int,
{
    match b {
        Some(b) => flags_block(b, out),
        None => {},
    }
    assert(out@ =~= old(out)@ + flags_of_else(*b));
}

fn flags_match(s: &Vec<Arm>, out: &mut Vec<FlagUse>)
    ensures
        final(out)@ == old(out)@ + flags_of_match(s@),
    decreases *s, 2int,
{
    let mut i: usize = 0;
    while i < s.len()
        invariant
            i <= s@.len(),
            out@ == old(out)@ + flags_of_match(s@.take(i as int)),
        decreases s@.len() - i,
    {
        let ghost before = out@;
        flags_block(&s[i].body, out);
        assert(s@.take(i as int + 1).drop_last() =~= s@.take(i as int));
        assert(out@ =~= old(out)@ + flags_of_match(s@.take(i as int + 1)));
        i = i + 1;
    }
    assert(s@.take(s@.len() as int) =~= s@);
    assert(out@ =~= old(out)@ + flags_of_match(s@));
}

pub(super) fn flags_stat(st: &Stat, out: &mut Vec<FlagUse>)
    ensures
        final(out)@ == old(out)@ + flags_of_stat(*st),
    decreases *st, 1int,
{
    match st {
        Stat::Let(_, es) => {
            flags_exprs(es, out);
        },
        Stat::LetSlots(bs, es) => {
            note_let(bs, es, out);
            flags_exprs(es, out);
        },
        Stat::Return(es) => {
            flags_exprs(es, out);
        },
        Stat::FnDecl(_, e) => {
            flags_expr(e, out);
        },
        Stat::FnSlot(b, e) => {
            flags_expr(e, out);
        },
        Stat::Expr(e) => {
            flags_expr(e, out);
        },
        Stat::Assign(ts, es) => {
            note_set(ts, es, out);
            flags_exprs(es, out);
        },
        Stat::OpAssign(t, _, e) => {
            note_spoilt_target(t, out);
            flags_expr(e, out);
        },
        Stat::While(_, c, b) => {
            flags_expr(c, out);
            flags_block(b, out);
        },
        Stat::Loop(_, b) => {
            flags_block(b, out);
        },
        Stat::ForRange { binding, start, end, body, .. } => {
            note_spoilt_if(binding, out);
            flags_block(body, out);
        },
        Stat::ForIn { bindings, iter, body, .. } => {
            note_spoilt(bindings, out);
            flags_block(body, out);
        },
        _ => {},
    }
    assert(out@ =~= old(out)@ + flags_of_stat(*st));
}

fn flags_expr(e: &Expr, out: &mut Vec<FlagUse>)
    ensures
        final(out)@ == old(out)@ + flags_of_expr(*e),
    decreases *e, 1int,
{
    match e {
        Expr::Call(f, args) => {
            flags_expr(f, out);
            flags_exprs(args, out);
        },
        Expr::Method(o, name, args) => {
            flags_expr(o, out);
            flags_exprs(args, out);
        },
        Expr::Index(a, b) => {
            flags_expr(a, out);
            flags_expr(b, out);
        },
        Expr::Bin(_, a, b) => {
            flags_expr(a, out);
            flags_expr(b, out);
        },
        Expr::Range(a, b, _) => {
            flags_expr(a, out);
            flags_expr(b, out);
        },
        Expr::Un(_, a) => {
            flags_expr(a, out);
        },
        Expr::If(arms, els) => {
            flags_arms(arms, out);
            flags_else(els, out);
        },
        Expr::Match(subject, arms) => {
            flags_expr(subject, out);
            flags_match(arms, out);
        },
        Expr::Do(b) => {
            flags_block(b, out);
        },
        _ => {},
    }
    assert(out@ =~= old(out)@ + flags_of_expr(*e));
}

/// Is this local a flag: given something, nothing but booleans, never counted
/// with, and either declared here or not handed in from outside?
pub open spec fn is_flag(s: Seq<FlagUse>, outside: Seq<u16>, slot: u16) -> bool {
    &&& s.contains(FlagUse::Given(slot, true))
    &&& !s.contains(FlagUse::Given(slot, false))
    &&& !s.contains(FlagUse::Spoilt(slot))
    &&& (s.contains(FlagUse::Bound(slot)) || !outside.contains(slot))
}

/// The flags, as they are met up to place `n`.
pub open spec fn flag_slots(s: Seq<FlagUse>, outside: Seq<u16>, n: nat) -> Seq<u16>
    decreases n,
{
    if n == 0 {
        Seq::empty()
    } else {
        let r = flag_slots(s, outside, (n - 1) as nat);
        match s[n - 1] {
            FlagUse::Given(slot, true) => if is_flag(s, outside, slot) {
                r.push(slot)
            } else {
                r
            },
            _ => r,
        }
    }
}

/// Just the flags are met.
proof fn lemma_flags_met(s: Seq<FlagUse>, outside: Seq<u16>, slot: u16, n: nat)
    requires
        n <= s.len(),
    ensures
        flag_slots(s, outside, n).contains(slot) == (is_flag(s, outside, slot) && s.take(
            n as int,
        ).contains(FlagUse::Given(slot, true))),
    decreases n,
{
    let want = FlagUse::Given(slot, true);
    if n > 0 {
        lemma_flags_met(s, outside, slot, (n - 1) as nat);
        let a = s.take(n - 1);
        let b = s.take(n as int);
        let r = flag_slots(s, outside, (n - 1) as nat);
        assert(b =~= a.push(s[n - 1]));
        assert(b[n - 1] == s[n - 1]);
        if a.contains(want) {
            let k = choose|k: int| 0 <= k < a.len() && a[k] == want;
            assert(b[k] == want);
        }
        if b.contains(want) && s[n - 1] != want {
            let k = choose|k: int| 0 <= k < b.len() && b[k] == want;
            assert(a[k] == want);
        }
        if r.contains(slot) {
            let k = choose|k: int| 0 <= k < r.len() && r[k] == slot;
            assert(flag_slots(s, outside, n)[k] == slot);
        }
        let f = flag_slots(s, outside, n);
        if f.contains(slot) && s[n - 1] != want {
            let k = choose|k: int| 0 <= k < f.len() && f[k] == slot;
            assert(r[k] == slot);
        }
        if s[n - 1] == want && is_flag(s, outside, slot) {
            assert(f[f.len() - 1] == slot);
        }
    }
}

fn seen(s: &Vec<FlagUse>, x: FlagUse) -> (r: bool)
    ensures
        r == s@.contains(x),
{
    let mut i: usize = 0;
    while i < s.len()
        invariant
            i <= s@.len(),
            forall|k: int| 0 <= k < i ==> #[trigger] s@[k] != x,
        decreases s@.len() - i,
    {
        if s[i] == x {
            assert(s@[i as int] == x);
            return true;
        }
        i = i + 1;
    }
    false
}

fn flags_among(all: &Vec<FlagUse>, outside: &Vec<u16>) -> (r: Vec<u16>)
    ensures
        r@ == flag_slots(all@, outside@, all@.len()),
{
    let mut out: Vec<u16> = Vec::new();
    let mut i: usize = 0;
    while i < all.len()
        invariant
            i <= all@.len(),
            out@ == flag_slots(all@, outside@, i as nat),
        decreases all@.len() - i,
    {
        match all[i] {
            FlagUse::Given(slot, true) => {
                assert(all@[i as int] == FlagUse::Given(slot, true));
                if !seen(all, FlagUse::Given(slot, false)) && !seen(all, FlagUse::Spoilt(slot)) && (
                seen(all, FlagUse::Bound(slot)) || !walk::has(outside, slot)) {
                    out.push(slot);
                }
            },
            _ => {},
        }
        i = i + 1;
    }
    out
}

/// The locals of a block that only ever hold a boolean. Compiled code has
/// nothing but numbers and a zero is true, so a condition has to be provably
/// a boolean; a local given nothing but conditions is one.
pub fn boolean_locals(b: &Block, outside: &Vec<u16>) -> (r: Vec<u16>)
    ensures
        r@ == flag_slots(flags_of_block(*b), outside@, flags_of_block(*b).len()),
        forall|slot: u16| #[trigger]
            r@.contains(slot) == is_flag(flags_of_block(*b), outside@, slot),
{
    let mut all: Vec<FlagUse> = Vec::new();
    flags_block(b, &mut all);
    assert(all@ =~= flags_of_block(*b));
    let out = flags_among(&all, outside);
    proof {
        let s = all@;
        assert(s.take(s.len() as int) =~= s);
        assert forall|slot: u16| #[trigger] out@.contains(slot) == is_flag(s, outside@, slot) by {
            lemma_flags_met(s, outside@, slot, s.len());
        }
    }
    out
}

/// The same of one statement, with nothing handed in.
pub(super) fn boolean_locals_in(st: &Stat) -> (r: Vec<u16>)
    ensures
        r@ == flag_slots(flags_of_stat(*st), Seq::empty(), flags_of_stat(*st).len()),
{
    let mut all: Vec<FlagUse> = Vec::new();
    flags_stat(st, &mut all);
    assert(all@ =~= flags_of_stat(*st));
    let none: Vec<u16> = Vec::new();
    assert(none@ =~= Seq::empty());
    flags_among(&all, &none)
}

} // verus!
