//! The frame slots a loop reads or writes.
use crate::ast::{Arm, Binding, Block, Expr, Pattern, Stat};
use crate::text;
use vstd::prelude::*;

verus! {

/// One thing met in a loop: a slot, or a reason to leave it alone.
pub enum SlotUse {
    Slot(u16),
    Bad(String),
}

pub enum SlotSeen {
    Slot(u16),
    Bad(Seq<char>),
}

pub open spec fn slot_view(s: SlotUse) -> SlotSeen {
    match s {
        SlotUse::Slot(n) => SlotSeen::Slot(n),
        SlotUse::Bad(e) => SlotSeen::Bad(e@),
    }
}

pub open spec fn slot_views(s: Seq<SlotUse>) -> Seq<SlotSeen> {
    Seq::new(s.len(), |i: int| slot_view(s[i]))
}

/// A binding: a captured one is shared with a closure, which numbers cannot
/// express.
pub open spec fn bound(b: Binding, why: Seq<char>) -> Seq<SlotSeen> {
    if b.cell {
        seq![SlotSeen::Bad(why), SlotSeen::Slot(b.slot)]
    } else {
        seq![SlotSeen::Slot(b.slot)]
    }
}

pub open spec fn captured(name: Seq<char>) -> Seq<char> {
    "`"@ + name + "` is captured by a closure"@
}

pub open spec fn all_bound(bs: Seq<Binding>) -> Seq<SlotSeen>
    decreases bs.len(),
{
    if bs.len() == 0 {
        Seq::empty()
    } else {
        all_bound(bs.drop_last()) + bound(
            bs.last(),
            "a local in the loop is captured by a closure"@,
        )
    }
}

pub open spec fn bound_if(b: Option<Binding>) -> Seq<SlotSeen> {
    match b {
        Some(b) => bound(b, "the loop variable is captured by a closure"@),
        None => Seq::empty(),
    }
}

pub open spec fn refused(why: Seq<char>) -> Seq<SlotSeen> {
    seq![SlotSeen::Bad(why)]
}

/// The slots a block touches, and what keeps it from being compiled.
pub open spec fn slots_of_block(b: Block) -> Seq<SlotSeen>
    decreases b, 3int,
{
    slots_of_stats(b.stats@) + slots_of_tail(b.tail)
}

pub open spec fn slots_of_tail(t: Option<Box<Expr>>) -> Seq<SlotSeen>
    decreases t, 2int,
{
    match t {
        Some(e) => slots_of_expr(*e),
        None => Seq::empty(),
    }
}

pub open spec fn slots_of_stats(s: Seq<Stat>) -> Seq<SlotSeen>
    decreases s, 2int,
{
    if s.len() == 0 {
        Seq::empty()
    } else {
        slots_of_stats(s.drop_last()) + slots_of_stat(s[s.len() - 1])
    }
}

pub open spec fn slots_of_exprs(s: Seq<Expr>) -> Seq<SlotSeen>
    decreases s, 2int,
{
    if s.len() == 0 {
        Seq::empty()
    } else {
        slots_of_exprs(s.drop_last()) + slots_of_expr(s[s.len() - 1])
    }
}

pub open spec fn slots_of_entries(s: Seq<(Expr, Expr)>) -> Seq<SlotSeen>
    decreases s, 2int,
{
    if s.len() == 0 {
        Seq::empty()
    } else {
        slots_of_entries(s.drop_last()) + slots_of_expr(s[s.len() - 1].0) + slots_of_expr(s[s.len() - 1].1)
    }
}

pub open spec fn slots_of_arms(s: Seq<(Expr, Block)>) -> Seq<SlotSeen>
    decreases s, 2int,
{
    if s.len() == 0 {
        Seq::empty()
    } else {
        slots_of_arms(s.drop_last()) + slots_of_expr(s[s.len() - 1].0) + slots_of_block(s[s.len() - 1].1)
    }
}

pub open spec fn slots_of_else(b: Option<Block>) -> Seq<SlotSeen>
    decreases b, 2int,
{
    match b {
        Some(b) => slots_of_block(b),
        None => Seq::empty(),
    }
}

pub open spec fn slots_of_match(s: Seq<Arm>) -> Seq<SlotSeen>
    decreases s, 2int,
{
    if s.len() == 0 {
        Seq::empty()
    } else {
        slots_of_match(s.drop_last()) + slots_of_patterns(s[s.len() - 1].patterns@) + slots_of_guard(s[s.len() - 1].guard) + slots_of_block(s[s.len() - 1].body)
    }
}

pub open spec fn slots_of_patterns(s: Seq<Pattern>) -> Seq<SlotSeen>
    decreases s, 2int,
{
    if s.len() == 0 {
        Seq::empty()
    } else {
        slots_of_patterns(s.drop_last()) + slots_of_pattern(s[s.len() - 1])
    }
}

pub open spec fn slots_of_pattern(p: Pattern) -> Seq<SlotSeen>
    decreases p, 1int,
{
    match p {
        Pattern::Lit(e) => slots_of_expr(e),
        Pattern::Bind(name, Some(b)) => bound(b, captured(name@)),
        _ => Seq::empty(),
    }
}

pub open spec fn slots_of_guard(g: Option<Expr>) -> Seq<SlotSeen>
    decreases g, 2int,
{
    match g {
        Some(e) => slots_of_expr(e),
        None => Seq::empty(),
    }
}

pub open spec fn slots_of_stat(st: Stat) -> Seq<SlotSeen>
    decreases st, 1int,
{
    match st {
        Stat::Let(_, es) => slots_of_exprs(es@),
        Stat::LetSlots(bs, es) => all_bound(bs@) + slots_of_exprs(es@),
        Stat::Return(es) => slots_of_exprs(es@),
        Stat::FnDecl(..) => refused("the loop defines a function"@),
        Stat::FnSlot(..) => refused("the loop defines a function"@),
        Stat::Expr(e) => slots_of_expr(e),
        Stat::Assign(ts, es) => slots_of_exprs(ts@) + slots_of_exprs(es@),
        Stat::OpAssign(t, _, e) => slots_of_expr(t) + slots_of_expr(e),
        Stat::While(_, c, b) => slots_of_expr(c) + slots_of_block(b),
        Stat::Loop(_, b) => slots_of_block(b),
        Stat::ForRange { binding, start, end, body, .. } => bound_if(binding) + slots_of_expr(start) + slots_of_expr(end) + slots_of_block(body),
        Stat::ForIn { .. } => refused("`for ... in` over an iterator"@),
        _ => Seq::empty(),
    }
}

pub open spec fn slots_of_expr(e: Expr) -> Seq<SlotSeen>
    decreases e, 1int,
{
    match e {
        Expr::Local(b, name) => bound(b, captured(name@)),
        Expr::Func(_) => refused("the loop makes a closure"@),
        Expr::Call(f, args) => slots_of_expr(*f) + slots_of_exprs(args@),
        Expr::Method(o, name, args) => slots_of_expr(*o) + slots_of_exprs(args@),
        Expr::Index(a, b) => slots_of_expr(*a) + slots_of_expr(*b),
        Expr::Bin(_, a, b) => slots_of_expr(*a) + slots_of_expr(*b),
        Expr::Range(a, b, _) => slots_of_expr(*a) + slots_of_expr(*b),
        Expr::Un(_, a) => slots_of_expr(*a),
        Expr::Array(items) => slots_of_exprs(items@),
        Expr::Entries(items) => slots_of_entries(items@),
        Expr::If(arms, els) => slots_of_arms(arms@) + slots_of_else(els),
        Expr::Match(subject, arms) => slots_of_expr(*subject) + slots_of_match(arms@),
        Expr::Do(b) => slots_of_block(b),
        _ => Seq::empty(),
    }
}

fn note_bad(why: String, out: &mut Vec<SlotUse>)
    ensures
        slot_views(final(out)@) == slot_views(old(out)@) + refused(why@),
{
    let ghost w = why@;
    out.push(SlotUse::Bad(why));
    assert(slot_views(out@) =~= slot_views(old(out)@) + refused(w));
}

fn note_bound(b: Binding, why: String, out: &mut Vec<SlotUse>)
    ensures
        slot_views(final(out)@) == slot_views(old(out)@) + bound(b, why@),
{
    let ghost w = why@;
    if b.cell {
        out.push(SlotUse::Bad(why));
    }
    out.push(SlotUse::Slot(b.slot));
    assert(slot_views(out@) =~= slot_views(old(out)@) + bound(b, w));
}

fn note_named(b: Binding, name: &String, out: &mut Vec<SlotUse>)
    ensures
        slot_views(final(out)@) == slot_views(old(out)@) + bound(b, captured(name@)),
{
    let mut why = text::owned("`");
    why.append(name.as_str());
    why.append("` is captured by a closure");
    note_bound(b, why, out);
}

fn note_if(b: &Option<Binding>, out: &mut Vec<SlotUse>)
    ensures
        slot_views(final(out)@) == slot_views(old(out)@) + bound_if(*b),
{
    match b {
        Some(b) => note_bound(*b, text::owned("the loop variable is captured by a closure"), out),
        None => {},
    }
    assert(slot_views(out@) =~= slot_views(old(out)@) + bound_if(*b));
}

fn note_all(bs: &Vec<Binding>, out: &mut Vec<SlotUse>)
    ensures
        slot_views(final(out)@) == slot_views(old(out)@) + all_bound(bs@),
{
    let mut i: usize = 0;
    while i < bs.len()
        invariant
            i <= bs@.len(),
            slot_views(out@) == slot_views(old(out)@) + all_bound(bs@.take(i as int)),
        decreases bs@.len() - i,
    {
        assert(bs@.take(i as int + 1).drop_last() =~= bs@.take(i as int));
        note_bound(bs[i], text::owned("a local in the loop is captured by a closure"), out);
        assert(slot_views(out@) =~= slot_views(old(out)@) + all_bound(bs@.take(i as int + 1)));
        i = i + 1;
    }
    assert(bs@.take(bs@.len() as int) =~= bs@);
}

pub(super) fn slots_block(b: &Block, out: &mut Vec<SlotUse>)
    ensures
        slot_views(final(out)@) == slot_views(old(out)@) + slots_of_block(*b),
    decreases *b, 3int,
{
    slots_stats(&b.stats, out);
    match &b.tail {
        Some(e) => slots_expr(e, out),
        None => {},
    }
    assert(slot_views(out@) =~= slot_views(old(out)@) + slots_of_block(*b));
}

fn slots_stats(s: &Vec<Stat>, out: &mut Vec<SlotUse>)
    ensures
        slot_views(final(out)@) == slot_views(old(out)@) + slots_of_stats(s@),
    decreases *s, 2int,
{
    let mut i: usize = 0;
    while i < s.len()
        invariant
            i <= s@.len(),
            slot_views(out@) == slot_views(old(out)@) + slots_of_stats(s@.take(i as int)),
        decreases s@.len() - i,
    {
        let ghost before = slot_views(out@);
        slots_stat(&s[i], out);
        assert(s@.take(i as int + 1).drop_last() =~= s@.take(i as int));
        assert(slot_views(out@) =~= slot_views(old(out)@) + slots_of_stats(s@.take(i as int + 1)));
        i = i + 1;
    }
    assert(s@.take(s@.len() as int) =~= s@);
    assert(slot_views(out@) =~= slot_views(old(out)@) + slots_of_stats(s@));
}

fn slots_exprs(s: &Vec<Expr>, out: &mut Vec<SlotUse>)
    ensures
        slot_views(final(out)@) == slot_views(old(out)@) + slots_of_exprs(s@),
    decreases *s, 2int,
{
    let mut i: usize = 0;
    while i < s.len()
        invariant
            i <= s@.len(),
            slot_views(out@) == slot_views(old(out)@) + slots_of_exprs(s@.take(i as int)),
        decreases s@.len() - i,
    {
        let ghost before = slot_views(out@);
        slots_expr(&s[i], out);
        assert(s@.take(i as int + 1).drop_last() =~= s@.take(i as int));
        assert(slot_views(out@) =~= slot_views(old(out)@) + slots_of_exprs(s@.take(i as int + 1)));
        i = i + 1;
    }
    assert(s@.take(s@.len() as int) =~= s@);
    assert(slot_views(out@) =~= slot_views(old(out)@) + slots_of_exprs(s@));
}

fn slots_entries(s: &Vec<(Expr, Expr)>, out: &mut Vec<SlotUse>)
    ensures
        slot_views(final(out)@) == slot_views(old(out)@) + slots_of_entries(s@),
    decreases *s, 2int,
{
    let mut i: usize = 0;
    while i < s.len()
        invariant
            i <= s@.len(),
            slot_views(out@) == slot_views(old(out)@) + slots_of_entries(s@.take(i as int)),
        decreases s@.len() - i,
    {
        let ghost before = slot_views(out@);
        slots_expr(&s[i].0, out);
        slots_expr(&s[i].1, out);
        assert(s@.take(i as int + 1).drop_last() =~= s@.take(i as int));
        assert(slot_views(out@) =~= slot_views(old(out)@) + slots_of_entries(s@.take(i as int + 1)));
        i = i + 1;
    }
    assert(s@.take(s@.len() as int) =~= s@);
    assert(slot_views(out@) =~= slot_views(old(out)@) + slots_of_entries(s@));
}

fn slots_arms(s: &Vec<(Expr, Block)>, out: &mut Vec<SlotUse>)
    ensures
        slot_views(final(out)@) == slot_views(old(out)@) + slots_of_arms(s@),
    decreases *s, 2int,
{
    let mut i: usize = 0;
    while i < s.len()
        invariant
            i <= s@.len(),
            slot_views(out@) == slot_views(old(out)@) + slots_of_arms(s@.take(i as int)),
        decreases s@.len() - i,
    {
        let ghost before = slot_views(out@);
        slots_expr(&s[i].0, out);
        slots_block(&s[i].1, out);
        assert(s@.take(i as int + 1).drop_last() =~= s@.take(i as int));
        assert(slot_views(out@) =~= slot_views(old(out)@) + slots_of_arms(s@.take(i as int + 1)));
        i = i + 1;
    }
    assert(s@.take(s@.len() as int) =~= s@);
    assert(slot_views(out@) =~= slot_views(old(out)@) + slots_of_arms(s@));
}

fn slots_else(b: &Option<Block>, out: &mut Vec<SlotUse>)
    ensures
        slot_views(final(out)@) == slot_views(old(out)@) + slots_of_else(*b),
    decreases *b, 2int,
{
    match b {
        Some(b) => slots_block(b, out),
        None => {},
    }
    assert(slot_views(out@) =~= slot_views(old(out)@) + slots_of_else(*b));
}

fn slots_match(s: &Vec<Arm>, out: &mut Vec<SlotUse>)
    ensures
        slot_views(final(out)@) == slot_views(old(out)@) + slots_of_match(s@),
    decreases *s, 2int,
{
    let mut i: usize = 0;
    while i < s.len()
        invariant
            i <= s@.len(),
            slot_views(out@) == slot_views(old(out)@) + slots_of_match(s@.take(i as int)),
        decreases s@.len() - i,
    {
        let ghost before = slot_views(out@);
        slots_patterns(&s[i].patterns, out);
        slots_guard(&s[i].guard, out);
        slots_block(&s[i].body, out);
        assert(s@.take(i as int + 1).drop_last() =~= s@.take(i as int));
        assert(slot_views(out@) =~= slot_views(old(out)@) + slots_of_match(s@.take(i as int + 1)));
        i = i + 1;
    }
    assert(s@.take(s@.len() as int) =~= s@);
    assert(slot_views(out@) =~= slot_views(old(out)@) + slots_of_match(s@));
}

fn slots_patterns(s: &Vec<Pattern>, out: &mut Vec<SlotUse>)
    ensures
        slot_views(final(out)@) == slot_views(old(out)@) + slots_of_patterns(s@),
    decreases *s, 2int,
{
    let mut i: usize = 0;
    while i < s.len()
        invariant
            i <= s@.len(),
            slot_views(out@) == slot_views(old(out)@) + slots_of_patterns(s@.take(i as int)),
        decreases s@.len() - i,
    {
        let ghost before = slot_views(out@);
        slots_pattern(&s[i], out);
        assert(s@.take(i as int + 1).drop_last() =~= s@.take(i as int));
        assert(slot_views(out@) =~= slot_views(old(out)@) + slots_of_patterns(s@.take(i as int + 1)));
        i = i + 1;
    }
    assert(s@.take(s@.len() as int) =~= s@);
    assert(slot_views(out@) =~= slot_views(old(out)@) + slots_of_patterns(s@));
}

fn slots_pattern(p: &Pattern, out: &mut Vec<SlotUse>)
    ensures
        slot_views(final(out)@) == slot_views(old(out)@) + slots_of_pattern(*p),
    decreases *p, 1int,
{
    match p {
        Pattern::Lit(e) => {
            slots_expr(e, out);
        },
        Pattern::Bind(name, Some(b)) => {
            note_named(*b, name, out);
        },
        _ => {},
    }
    assert(slot_views(out@) =~= slot_views(old(out)@) + slots_of_pattern(*p));
}

fn slots_guard(g: &Option<Expr>, out: &mut Vec<SlotUse>)
    ensures
        slot_views(final(out)@) == slot_views(old(out)@) + slots_of_guard(*g),
    decreases *g, 2int,
{
    match g {
        Some(e) => slots_expr(e, out),
        None => {},
    }
    assert(slot_views(out@) =~= slot_views(old(out)@) + slots_of_guard(*g));
}

fn slots_stat(st: &Stat, out: &mut Vec<SlotUse>)
    ensures
        slot_views(final(out)@) == slot_views(old(out)@) + slots_of_stat(*st),
    decreases *st, 1int,
{
    match st {
        Stat::Let(_, es) => {
            slots_exprs(es, out);
        },
        Stat::LetSlots(bs, es) => {
            note_all(bs, out);
            slots_exprs(es, out);
        },
        Stat::Return(es) => {
            slots_exprs(es, out);
        },
        Stat::FnDecl(..) => {
            note_bad(text::owned("the loop defines a function"), out);
        },
        Stat::FnSlot(..) => {
            note_bad(text::owned("the loop defines a function"), out);
        },
        Stat::Expr(e) => {
            slots_expr(e, out);
        },
        Stat::Assign(ts, es) => {
            slots_exprs(ts, out);
            slots_exprs(es, out);
        },
        Stat::OpAssign(t, _, e) => {
            slots_expr(t, out);
            slots_expr(e, out);
        },
        Stat::While(_, c, b) => {
            slots_expr(c, out);
            slots_block(b, out);
        },
        Stat::Loop(_, b) => {
            slots_block(b, out);
        },
        Stat::ForRange { binding, start, end, body, .. } => {
            note_if(binding, out);
            slots_expr(start, out);
            slots_expr(end, out);
            slots_block(body, out);
        },
        Stat::ForIn { .. } => {
            note_bad(text::owned("`for ... in` over an iterator"), out);
        },
        _ => {},
    }
    assert(slot_views(out@) =~= slot_views(old(out)@) + slots_of_stat(*st));
}

fn slots_expr(e: &Expr, out: &mut Vec<SlotUse>)
    ensures
        slot_views(final(out)@) == slot_views(old(out)@) + slots_of_expr(*e),
    decreases *e, 1int,
{
    match e {
        Expr::Local(b, name) => {
            note_named(*b, name, out);
        },
        Expr::Func(_) => {
            note_bad(text::owned("the loop makes a closure"), out);
        },
        Expr::Call(f, args) => {
            slots_expr(f, out);
            slots_exprs(args, out);
        },
        Expr::Method(o, name, args) => {
            slots_expr(o, out);
            slots_exprs(args, out);
        },
        Expr::Index(a, b) => {
            slots_expr(a, out);
            slots_expr(b, out);
        },
        Expr::Bin(_, a, b) => {
            slots_expr(a, out);
            slots_expr(b, out);
        },
        Expr::Range(a, b, _) => {
            slots_expr(a, out);
            slots_expr(b, out);
        },
        Expr::Un(_, a) => {
            slots_expr(a, out);
        },
        Expr::Array(items) => {
            slots_exprs(items, out);
        },
        Expr::Entries(items) => {
            slots_entries(items, out);
        },
        Expr::If(arms, els) => {
            slots_arms(arms, out);
            slots_else(els, out);
        },
        Expr::Match(subject, arms) => {
            slots_expr(subject, out);
            slots_match(arms, out);
        },
        Expr::Do(b) => {
            slots_block(b, out);
        },
        _ => {},
    }
    assert(slot_views(out@) =~= slot_views(old(out)@) + slots_of_expr(*e));
}

/// The last reason met to leave a loop alone.
pub open spec fn last_bad(s: Seq<SlotSeen>) -> Option<Seq<char>>
    decreases s.len(),
{
    if s.len() == 0 {
        None
    } else {
        match s.last() {
            SlotSeen::Bad(e) => Some(e),
            SlotSeen::Slot(_) => last_bad(s.drop_last()),
        }
    }
}

/// In ascending order, each once.
pub open spec fn ascending(s: Seq<u16>) -> bool {
    forall|i: int, j: int| 0 <= i < j < s.len() ==> #[trigger] s[i] < #[trigger] s[j]
}

/// Two ascending lists of the same slots are the same list.
proof fn lemma_ascending_unique(a: Seq<u16>, b: Seq<u16>)
    requires
        ascending(a),
        ascending(b),
        forall|x: u16| #[trigger] a.contains(x) == b.contains(x),
    ensures
        a == b,
    decreases a.len(),
{
    if a.len() == 0 {
        if b.len() > 0 {
            assert(b.contains(b[0]));
            assert(a.contains(b[0]));
        }
        assert(a =~= b);
    } else {
        assert(a.contains(a.last()));
        let j = choose|j: int| 0 <= j < b.len() && b[j] == a.last();
        assert(b.contains(b.last()));
        assert(a.contains(b.last()));
        let i = choose|i: int| 0 <= i < a.len() && a[i] == b.last();
        if j < b.len() - 1 {
            assert(b[j] < b[b.len() - 1]);
            if i < a.len() - 1 {
                assert(a[i] < a[a.len() - 1]);
            }
        }
        assert(a.last() == b.last());
        let x0 = a.last();
        let c = a.drop_last();
        let d = b.drop_last();
        assert forall|x: u16| #[trigger] c.contains(x) == d.contains(x) by {
            if c.contains(x) {
                let k = choose|k: int| 0 <= k < c.len() && c[k] == x;
                assert(a[k] == x);
                assert(a[k] < a[a.len() - 1]);
                assert(a.contains(x));
                let m = choose|m: int| 0 <= m < b.len() && b[m] == x;
                assert(m < b.len() - 1);
                assert(d[m] == x);
            }
            if d.contains(x) {
                let k = choose|k: int| 0 <= k < d.len() && d[k] == x;
                assert(b[k] == x);
                assert(b[k] < b[b.len() - 1]);
                assert(b.contains(x));
                assert(a.contains(x));
                let m = choose|m: int| 0 <= m < a.len() && a[m] == x;
                assert(m < a.len() - 1);
                assert(c[m] == x);
            }
        }
        lemma_ascending_unique(c, d);
        assert(a =~= c.push(x0));
        assert(b =~= d.push(x0));
    }
}

/// Are these the slots a loop touches, in ascending order, each once?
pub open spec fn is_slots(v: Seq<u16>, st: Stat) -> bool {
    &&& ascending(v)
    &&& forall|x: u16| #[trigger] v.contains(x) == slots_of_stat(st).contains(SlotSeen::Slot(x))
}

/// The slots a loop touches.
pub open spec fn slot_seq(st: Stat) -> Seq<u16> {
    choose|v: Seq<u16>| is_slots(v, st)
}

/// Put a slot in its place, unless it is there.
fn insert(out: &mut Vec<u16>, slot: u16)
    requires
        ascending(old(out)@),
    ensures
        ascending(final(out)@),
        forall|x: u16| #[trigger]
            final(out)@.contains(x) == (x == slot || old(out)@.contains(x)),
{
    let mut i: usize = 0;
    while i < out.len() && out[i] < slot
        invariant
            i <= out@.len(),
            *out == *old(out),
            forall|k: int| 0 <= k < i ==> #[trigger] out@[k] < slot,
        decreases out@.len() - i,
    {
        i = i + 1;
    }
    if i < out.len() && out[i] == slot {
        assert(out@[i as int] == slot);
        return;
    }
    let ghost before = out@;
    out.insert(i, slot);
    assert(out@ =~= before.insert(i as int, slot));
    assert forall|x: u16| #[trigger] out@.contains(x) == (x == slot || before.contains(x)) by {
        if before.contains(x) {
            let k = choose|k: int| 0 <= k < before.len() && before[k] == x;
            if k < i {
                assert(out@[k] == x);
            } else {
                assert(out@[k + 1] == x);
            }
        }
        if x == slot {
            assert(out@[i as int] == x);
        }
        if out@.contains(x) && x != slot {
            let k = choose|k: int| 0 <= k < out@.len() && out@[k] == x;
            if k < i {
                assert(before[k] == x);
            } else {
                assert(before[k - 1] == x);
            }
        }
    }
    assert(ascending(out@)) by {
        assert forall|a: int, b: int| 0 <= a < b < out@.len() implies #[trigger] out@[a]
            < #[trigger] out@[b] by {
            if b < i {
                assert(before[a] < before[b]);
            } else if a > i {
                assert(before[a - 1] < before[b - 1]);
            } else if b > i {
                if a < i {
                    assert(before[a] < before[b - 1]);
                } else if b - 1 > i {
                    assert(before[i as int] < before[b - 1]);
                }
            }
        }
    }
}

/// The frame slots a loop touches, in ascending order, unless something in it
/// keeps it from being compiled.
pub fn loop_slots(st: &Stat) -> (r: Result<Vec<u16>, String>)
    ensures
        match r {
            Ok(v) => {
                &&& last_bad(slots_of_stat(*st)) is None
                &&& is_slots(v@, *st)
                &&& v@ == slot_seq(*st)
            },
            Err(e) => last_bad(slots_of_stat(*st)) == Some(e@),
        },
{
    let mut all: Vec<SlotUse> = Vec::new();
    slots_stat(st, &mut all);
    let ghost seen = slots_of_stat(*st);
    assert(slot_views(all@) =~= seen);
    assert(seen.take(seen.len() as int) =~= seen);
    let mut i: usize = all.len();
    while i > 0
        invariant
            i <= all@.len(),
            slot_views(all@) == seen,
            last_bad(seen) == last_bad(seen.take(i as int)),
            seen == slots_of_stat(*st),
        decreases i,
    {
        i = i - 1;
        assert(seen.take(i as int + 1).drop_last() =~= seen.take(i as int));
        assert(seen.take(i as int + 1).last() == slot_view(all@[i as int]));
        match &all[i] {
            SlotUse::Bad(e) => {
                return Err(e.clone());
            },
            SlotUse::Slot(_) => {},
        }
    }
    assert(seen.take(seen.len() as int) =~= seen);
    let mut out: Vec<u16> = Vec::new();
    let mut j: usize = 0;
    while j < all.len()
        invariant
            j <= all@.len(),
            slot_views(all@) == seen,
            ascending(out@),
            forall|x: u16| #[trigger]
                out@.contains(x) == seen.take(j as int).contains(SlotSeen::Slot(x)),
        decreases all@.len() - j,
    {
        let ghost before = out@;
        assert(seen[j as int] == slot_view(all@[j as int]));
        match &all[j] {
            SlotUse::Slot(s) => insert(&mut out, *s),
            SlotUse::Bad(_) => {},
        }
        assert forall|x: u16| #[trigger]
            out@.contains(x) == seen.take(j as int + 1).contains(SlotSeen::Slot(x)) by {
            let a = seen.take(j as int);
            let b = seen.take(j as int + 1);
            assert(b =~= a.push(seen[j as int]));
            if a.contains(SlotSeen::Slot(x)) {
                let k = choose|k: int| 0 <= k < a.len() && a[k] == SlotSeen::Slot(x);
                assert(b[k] == SlotSeen::Slot(x));
            }
            if b.contains(SlotSeen::Slot(x)) {
                let k = choose|k: int| 0 <= k < b.len() && b[k] == SlotSeen::Slot(x);
                if k < j {
                    assert(a[k] == SlotSeen::Slot(x));
                }
            }
            if seen[j as int] == SlotSeen::Slot(x) {
                assert(b[j as int] == SlotSeen::Slot(x));
            }
            assert(before.contains(x) == a.contains(SlotSeen::Slot(x)));
        }
        j = j + 1;
    }
    assert(seen.take(seen.len() as int) =~= seen);
    assert(is_slots(out@, *st));
    proof {
        lemma_ascending_unique(out@, slot_seq(*st));
    }
    Ok(out)
}

} // verus!
