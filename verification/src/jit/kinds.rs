//! How slots are used, which decides what each of them holds.
use super::walk;
use crate::ast::{Arm, Binding, Block, Expr, FuncDef, Pattern, Stat};
use crate::num;
use crate::text;
use std::rc::Rc;
use vstd::prelude::*;

verus! {

/// What a slot holds, as far as compiled code is concerned.
#[derive(Clone, Copy, Debug, PartialEq, Eq, Structural)]
pub enum Kind {
    Num,
    /// A table compiled code reads, through a view of its array part.
    Table,
    /// A table compiled code only ever appends to.
    TableOut,
    /// A table compiled code made itself.
    New,
    /// A local that only ever holds a boolean.
    Bool,
    /// A slot the region defines before it reads.
    Dead,
    /// A table whose elements are themselves tables, each at least `min`
    /// long; `checked` says whether the runtime walks it on the way in.
    Tables { checked: bool, min: u32 },
}

/// A compiled global this code may call: what its parameters have to be, and
/// the syntax it was compiled from.
pub struct Callable {
    pub name: String,
    pub kinds: Vec<Kind>,
    pub def: Option<Rc<FuncDef>>,
}

/// One use of a slot.
#[derive(Clone, Copy, Debug, PartialEq, Eq, Structural)]
pub enum KindUse {
    /// It is used as this.
    As(u16, Kind),
    /// It is bound to an element of that: which of the two a table is depends
    /// on how it is used.
    Element(u16, u16),
    /// It is read at a constant index, so it has to be this long; with the
    /// flag, each of its elements has to be.
    Long(u16, bool, u32),
}

/// The place of a compiled global, or their number.
pub open spec fn callable_at(cs: Seq<Callable>, name: Seq<char>, i: nat) -> nat
    decreases cs.len() - i,
{
    if i >= cs.len() {
        cs.len()
    } else if cs[i as int].name@ == name {
        i
    } else {
        callable_at(cs, name, i + 1)
    }
}

pub fn find_callable(cs: &Vec<Callable>, name: &str) -> (r: usize)
    ensures
        r == callable_at(cs@, name@, 0),
{
    let mut i: usize = 0;
    while i < cs.len()
        invariant
            i <= cs@.len(),
            callable_at(cs@, name@, i as nat) == callable_at(cs@, name@, 0),
        decreases cs@.len() - i,
    {
        if text::same(cs[i].name.as_str(), name) {
            return i;
        }
        i = i + 1;
    }
    i
}

/// The constant index of an expression, if it is one that fits.
pub open spec fn const_index(key: Expr) -> Option<u32> {
    match key {
        Expr::Num(b) => match num::index_of(b) {
            Some(n) => if n < 0xffff_ffff {
                Some(n as u32)
            } else {
                None
            },
            None => None,
        },
        _ => None,
    }
}

pub fn constant_index(key: &Expr) -> (r: Option<u32>)
    ensures
        r == const_index(*key),
{
    match key {
        Expr::Num(b) => match num::num_index(*b) {
            Some(n) => if n < 0xffff_ffff {
                Some(n as u32)
            } else {
                None
            },
            None => None,
        },
        _ => None,
    }
}

/// What a constant index demands.
pub open spec fn demand(slot: u16, of_elements: bool, key: Expr) -> Seq<KindUse> {
    match const_index(key) {
        Some(n) => seq![KindUse::Long(slot, of_elements, (n + 1) as u32)],
        None => Seq::empty(),
    }
}

/// Is this a table that a call can be handed?
pub open spec fn is_table_kind(k: Kind) -> bool {
    k is Table || k is TableOut || k is Tables
}

/// `obj[key]`: what makes a slot a table.
pub open spec fn kinds_of_index(cs: Seq<Callable>, e: Expr) -> Seq<KindUse>
    decreases e, 0int,
{
    match e {
        Expr::Index(obj, key) => (match *obj {
            Expr::Local(b, _) => seq![KindUse::As(b.slot, Kind::Table)] + demand(
                b.slot,
                false,
                *key,
            ),
            Expr::Index(outer, k) => match *outer {
                Expr::Local(b, _) => seq![
                    KindUse::As(b.slot, Kind::Tables { checked: true, min: 0 }),
                ] + demand(b.slot, true, *key) + kinds_of_expr(cs, *k),
                _ => kinds_of_expr(cs, *obj),
            },
            _ => kinds_of_expr(cs, *obj),
        }) + kinds_of_expr(cs, *key),
        _ => Seq::empty(),
    }
}

/// The receiver of `obj.name(..)`: a length says nothing about which sort of
/// table it is, and an append makes it one that is written.
pub open spec fn kinds_of_receiver(cs: Seq<Callable>, obj: Expr, name: Seq<char>) -> Seq<KindUse>
    decreases obj, 2int,
{
    match obj {
        Expr::Local(b, _) => if name == "len"@ {
            Seq::empty()
        } else if name == "push"@ {
            seq![KindUse::As(b.slot, Kind::TableOut)]
        } else {
            kinds_of_expr(cs, obj)
        },
        _ => kinds_of_expr(cs, obj),
    }
}

/// Arguments of a compiled function take its parameters' kinds: that is how a
/// table reaches a helper.
pub open spec fn kinds_of_args(cs: Seq<Callable>, s: Seq<Expr>, ks: Seq<Kind>) -> Seq<KindUse>
    decreases s, 2int,
{
    if s.len() == 0 {
        Seq::empty()
    } else {
        let n = s.len() - 1;
        kinds_of_args(cs, s.drop_last(), ks) + if s[n] is Local && is_table_kind(ks[n]) {
            seq![KindUse::As(s[n]->Local_0.slot, ks[n])]
        } else {
            kinds_of_expr(cs, s[n])
        }
    }
}

/// An unknown function says nothing about the locals it is given.
pub open spec fn kinds_of_unknown(cs: Seq<Callable>, s: Seq<Expr>) -> Seq<KindUse>
    decreases s, 2int,
{
    if s.len() == 0 {
        Seq::empty()
    } else {
        let n = s.len() - 1;
        kinds_of_unknown(cs, s.drop_last()) + if s[n] is Local {
            Seq::empty()
        } else {
            kinds_of_expr(cs, s[n])
        }
    }
}

pub open spec fn kinds_of_call(cs: Seq<Callable>, e: Expr) -> Seq<KindUse>
    decreases e, 0int,
{
    match e {
        Expr::Call(f, args) => match *f {
            Expr::Global(name, _) => {
                let at = callable_at(cs, name@, 0);
                if at < cs.len() && cs[at as int].kinds@.len() == args@.len() {
                    kinds_of_args(cs, args@, cs[at as int].kinds@)
                } else {
                    kinds_of_unknown(cs, args@)
                }
            },
            _ => kinds_of_expr(cs, *f) + kinds_of_exprs(cs, args@),
        },
        _ => Seq::empty(),
    }
}

/// `let b = t[i]` says only that the two belong together.
pub open spec fn element_let(bs: Seq<Binding>, es: Seq<Expr>) -> Option<(u16, u16)> {
    if bs.len() == 1 && es.len() == 1 {
        match es[0] {
            Expr::Index(obj, _) => match walk::local_slot(*obj) {
                Some(t) => Some((bs[0].slot, t)),
                None => None,
            },
            _ => None,
        }
    } else {
        None
    }
}

pub open spec fn as_nums(bs: Seq<Binding>) -> Seq<KindUse> {
    Seq::new(bs.len(), |i: int| KindUse::As(bs[i].slot, Kind::Num))
}

pub open spec fn as_num_if(b: Option<Binding>) -> Seq<KindUse> {
    match b {
        Some(b) => seq![KindUse::As(b.slot, Kind::Num)],
        None => Seq::empty(),
    }
}

pub open spec fn kinds_of_let(cs: Seq<Callable>, st: Stat) -> Seq<KindUse>
    decreases st, 0int,
{
    match st {
        Stat::LetSlots(bs, es) => match element_let(bs@, es@) {
            Some((b, t)) => seq![KindUse::Element(b, t)] + match es@[0] {
                Expr::Index(_, key) => kinds_of_expr(cs, *key),
                _ => Seq::empty(),
            },
            None => as_nums(bs@) + kinds_of_exprs(cs, es@),
        },
        _ => Seq::empty(),
    }
}

/// How a block uses its slots, in order.
pub open spec fn kinds_of_block(cs: Seq<Callable>, b: Block) -> Seq<KindUse>
    decreases b, 3int,
{
    kinds_of_stats(cs, b.stats@) + kinds_of_tail(cs, b.tail)
}

pub open spec fn kinds_of_tail(cs: Seq<Callable>, t: Option<Box<Expr>>) -> Seq<KindUse>
    decreases t, 2int,
{
    match t {
        Some(e) => kinds_of_expr(cs, *e),
        None => Seq::empty(),
    }
}

pub open spec fn kinds_of_stats(cs: Seq<Callable>, s: Seq<Stat>) -> Seq<KindUse>
    decreases s, 2int,
{
    if s.len() == 0 {
        Seq::empty()
    } else {
        kinds_of_stats(cs, s.drop_last()) + kinds_of_stat(cs, s[s.len() - 1])
    }
}

pub open spec fn kinds_of_exprs(cs: Seq<Callable>, s: Seq<Expr>) -> Seq<KindUse>
    decreases s, 2int,
{
    if s.len() == 0 {
        Seq::empty()
    } else {
        kinds_of_exprs(cs, s.drop_last()) + kinds_of_expr(cs, s[s.len() - 1])
    }
}

pub open spec fn kinds_of_entries(cs: Seq<Callable>, s: Seq<(Expr, Expr)>) -> Seq<KindUse>
    decreases s, 2int,
{
    if s.len() == 0 {
        Seq::empty()
    } else {
        kinds_of_entries(cs, s.drop_last()) + kinds_of_expr(cs, s[s.len() - 1].0) + kinds_of_expr(cs, s[s.len() - 1].1)
    }
}

pub open spec fn kinds_of_arms(cs: Seq<Callable>, s: Seq<(Expr, Block)>) -> Seq<KindUse>
    decreases s, 2int,
{
    if s.len() == 0 {
        Seq::empty()
    } else {
        kinds_of_arms(cs, s.drop_last()) + kinds_of_expr(cs, s[s.len() - 1].0) + kinds_of_block(cs, s[s.len() - 1].1)
    }
}

pub open spec fn kinds_of_else(cs: Seq<Callable>, b: Option<Block>) -> Seq<KindUse>
    decreases b, 2int,
{
    match b {
        Some(b) => kinds_of_block(cs, b),
        None => Seq::empty(),
    }
}

pub open spec fn kinds_of_match(cs: Seq<Callable>, s: Seq<Arm>) -> Seq<KindUse>
    decreases s, 2int,
{
    if s.len() == 0 {
        Seq::empty()
    } else {
        kinds_of_match(cs, s.drop_last()) + kinds_of_patterns(cs, s[s.len() - 1].patterns@) + kinds_of_guard(cs, s[s.len() - 1].guard) + kinds_of_block(cs, s[s.len() - 1].body)
    }
}

pub open spec fn kinds_of_patterns(cs: Seq<Callable>, s: Seq<Pattern>) -> Seq<KindUse>
    decreases s, 2int,
{
    if s.len() == 0 {
        Seq::empty()
    } else {
        kinds_of_patterns(cs, s.drop_last()) + kinds_of_pattern(cs, s[s.len() - 1])
    }
}

pub open spec fn kinds_of_pattern(cs: Seq<Callable>, p: Pattern) -> Seq<KindUse>
    decreases p, 1int,
{
    match p {
        Pattern::Lit(e) => kinds_of_expr(cs, e),
        Pattern::Bind(_, Some(b)) => seq![KindUse::As(b.slot, Kind::Num)],
        _ => Seq::empty(),
    }
}

pub open spec fn kinds_of_guard(cs: Seq<Callable>, g: Option<Expr>) -> Seq<KindUse>
    decreases g, 2int,
{
    match g {
        Some(e) => kinds_of_expr(cs, e),
        None => Seq::empty(),
    }
}

pub open spec fn kinds_of_stat(cs: Seq<Callable>, st: Stat) -> Seq<KindUse>
    decreases st, 1int,
{
    match st {
        Stat::Let(_, es) => kinds_of_exprs(cs, es@),
        Stat::LetSlots(..) => kinds_of_let(cs, st),
        Stat::Return(es) => kinds_of_exprs(cs, es@),
        Stat::FnDecl(_, e) => kinds_of_expr(cs, e),
        Stat::FnSlot(_, e) => kinds_of_expr(cs, e),
        Stat::Expr(e) => kinds_of_expr(cs, e),
        Stat::Assign(ts, es) => kinds_of_exprs(cs, ts@) + kinds_of_exprs(cs, es@),
        Stat::OpAssign(t, _, e) => kinds_of_expr(cs, t) + kinds_of_expr(cs, e),
        Stat::While(_, c, b) => kinds_of_expr(cs, c) + kinds_of_block(cs, b),
        Stat::Loop(_, b) => kinds_of_block(cs, b),
        Stat::ForRange { binding, start, end, body, .. } => as_num_if(binding) + kinds_of_expr(cs, start) + kinds_of_expr(cs, end) + kinds_of_block(cs, body),
        Stat::ForIn { iter, body, .. } => kinds_of_expr(cs, iter) + kinds_of_block(cs, body),
        _ => Seq::empty(),
    }
}

pub open spec fn kinds_of_expr(cs: Seq<Callable>, e: Expr) -> Seq<KindUse>
    decreases e, 1int,
{
    match e {
        Expr::Local(b, _) => seq![KindUse::As(b.slot, Kind::Num)],
        Expr::Call(..) => kinds_of_call(cs, e),
        Expr::Method(o, name, args) => kinds_of_receiver(cs, *o, name@) + kinds_of_exprs(cs, args@),
        Expr::Index(..) => kinds_of_index(cs, e),
        Expr::Bin(_, a, b) => kinds_of_expr(cs, *a) + kinds_of_expr(cs, *b),
        Expr::Range(a, b, _) => kinds_of_expr(cs, *a) + kinds_of_expr(cs, *b),
        Expr::Un(_, a) => kinds_of_expr(cs, *a),
        Expr::Array(items) => kinds_of_exprs(cs, items@),
        Expr::Entries(items) => kinds_of_entries(cs, items@),
        Expr::If(arms, els) => kinds_of_arms(cs, arms@) + kinds_of_else(cs, els),
        Expr::Match(subject, arms) => kinds_of_expr(cs, *subject) + kinds_of_match(cs, arms@),
        Expr::Do(b) => kinds_of_block(cs, b),
        _ => Seq::empty(),
    }
}

fn note_demand(slot: u16, of_elements: bool, key: &Expr, out: &mut Vec<KindUse>)
    ensures
        final(out)@ == old(out)@ + demand(slot, of_elements, *key),
{
    match constant_index(key) {
        Some(n) => out.push(KindUse::Long(slot, of_elements, n + 1)),
        None => {},
    }
    assert(out@ =~= old(out)@ + demand(slot, of_elements, *key));
}

fn note_num_if(b: &Option<Binding>, out: &mut Vec<KindUse>)
    ensures
        final(out)@ == old(out)@ + as_num_if(*b),
{
    match b {
        Some(b) => out.push(KindUse::As(b.slot, Kind::Num)),
        None => {},
    }
    assert(out@ =~= old(out)@ + as_num_if(*b));
}

fn note_nums(bs: &Vec<Binding>, out: &mut Vec<KindUse>)
    ensures
        final(out)@ == old(out)@ + as_nums(bs@),
{
    let mut i: usize = 0;
    while i < bs.len()
        invariant
            i <= bs@.len(),
            out@ == old(out)@ + as_nums(bs@).take(i as int),
        decreases bs@.len() - i,
    {
        out.push(KindUse::As(bs[i].slot, Kind::Num));
        assert(out@ =~= old(out)@ + as_nums(bs@).take(i as int + 1));
        i = i + 1;
    }
    assert(out@ =~= old(out)@ + as_nums(bs@));
}

fn kinds_let(cs: &Vec<Callable>, st: &Stat, out: &mut Vec<KindUse>)
    ensures
        final(out)@ == old(out)@ + kinds_of_let(cs@, *st),
    decreases *st, 0int,
{
    match st {
        Stat::LetSlots(bs, es) => {
            if bs.len() == 1 && es.len() == 1 {
                match &es[0] {
                    Expr::Index(obj, key) => match &**obj {
                        Expr::Local(t, _) => {
                            out.push(KindUse::Element(bs[0].slot, t.slot));
                            kinds_expr(cs, key, out);
                            assert(out@ =~= old(out)@ + kinds_of_let(cs@, *st));
                            return;
                        },
                        _ => {},
                    },
                    _ => {},
                }
            }
            note_nums(bs, out);
            kinds_exprs(cs, es, out);
        },
        _ => {},
    }
    assert(out@ =~= old(out)@ + kinds_of_let(cs@, *st));
}

fn kinds_index(cs: &Vec<Callable>, e: &Expr, out: &mut Vec<KindUse>)
    ensures
        final(out)@ == old(out)@ + kinds_of_index(cs@, *e),
    decreases *e, 0int,
{
    match e {
        Expr::Index(obj, key) => {
            match &**obj {
                Expr::Local(b, _) => {
                    out.push(KindUse::As(b.slot, Kind::Table));
                    note_demand(b.slot, false, key, out);
                },
                Expr::Index(outer, k) => match &**outer {
                    Expr::Local(b, _) => {
                        out.push(KindUse::As(b.slot, Kind::Tables { checked: true, min: 0 }));
                        note_demand(b.slot, true, key, out);
                        kinds_expr(cs, k, out);
                    },
                    _ => kinds_expr(cs, obj, out),
                },
                _ => kinds_expr(cs, obj, out),
            }
            kinds_expr(cs, key, out);
        },
        _ => {},
    }
    assert(out@ =~= old(out)@ + kinds_of_index(cs@, *e));
}

fn kinds_receiver(cs: &Vec<Callable>, obj: &Expr, name: &String, out: &mut Vec<KindUse>)
    ensures
        final(out)@ == old(out)@ + kinds_of_receiver(cs@, *obj, name@),
    decreases *obj, 2int,
{
    match obj {
        Expr::Local(b, _) => {
            if text::same(name.as_str(), "len") {
            } else if text::same(name.as_str(), "push") {
                out.push(KindUse::As(b.slot, Kind::TableOut));
            } else {
                kinds_expr(cs, obj, out);
            }
        },
        _ => kinds_expr(cs, obj, out),
    }
    assert(out@ =~= old(out)@ + kinds_of_receiver(cs@, *obj, name@));
}

fn table_kind(k: Kind) -> (r: bool)
    ensures
        r == is_table_kind(k),
{
    match k {
        Kind::Table | Kind::TableOut | Kind::Tables { .. } => true,
        _ => false,
    }
}

fn kinds_args(cs: &Vec<Callable>, s: &Vec<Expr>, ks: &Vec<Kind>, out: &mut Vec<KindUse>)
    requires
        ks@.len() == s@.len(),
    ensures
        final(out)@ == old(out)@ + kinds_of_args(cs@, s@, ks@),
    decreases *s, 2int,
{
    let mut i: usize = 0;
    while i < s.len()
        invariant
            i <= s@.len() == ks@.len(),
            out@ == old(out)@ + kinds_of_args(cs@, s@.take(i as int), ks@),
        decreases s@.len() - i,
    {
        let known: Option<u16> = match &s[i] {
            Expr::Local(b, _) => if table_kind(ks[i]) {
                Some(b.slot)
            } else {
                None
            },
            _ => None,
        };
        match known {
            Some(slot) => out.push(KindUse::As(slot, ks[i])),
            None => kinds_expr(cs, &s[i], out),
        }
        assert(s@.take(i as int + 1).drop_last() =~= s@.take(i as int));
        assert(out@ =~= old(out)@ + kinds_of_args(cs@, s@.take(i as int + 1), ks@));
        i = i + 1;
    }
    assert(s@.take(s@.len() as int) =~= s@);
}

fn kinds_unknown(cs: &Vec<Callable>, s: &Vec<Expr>, out: &mut Vec<KindUse>)
    ensures
        final(out)@ == old(out)@ + kinds_of_unknown(cs@, s@),
    decreases *s, 2int,
{
    let mut i: usize = 0;
    while i < s.len()
        invariant
            i <= s@.len(),
            out@ == old(out)@ + kinds_of_unknown(cs@, s@.take(i as int)),
        decreases s@.len() - i,
    {
        let is_local: bool = match &s[i] {
            Expr::Local(..) => true,
            _ => false,
        };
        if !is_local {
            kinds_expr(cs, &s[i], out);
        }
        assert(s@.take(i as int + 1).drop_last() =~= s@.take(i as int));
        assert(out@ =~= old(out)@ + kinds_of_unknown(cs@, s@.take(i as int + 1)));
        i = i + 1;
    }
    assert(s@.take(s@.len() as int) =~= s@);
}

fn kinds_call(cs: &Vec<Callable>, e: &Expr, out: &mut Vec<KindUse>)
    ensures
        final(out)@ == old(out)@ + kinds_of_call(cs@, *e),
    decreases *e, 0int,
{
    match e {
        Expr::Call(f, args) => match &**f {
            Expr::Global(name, _) => {
                let at: usize = find_callable(cs, name.as_str());
                if at < cs.len() && cs[at].kinds.len() == args.len() {
                    kinds_args(cs, args, &cs[at].kinds, out);
                } else {
                    kinds_unknown(cs, args, out);
                }
            },
            _ => {
                kinds_expr(cs, f, out);
                kinds_exprs(cs, args, out);
            },
        },
        _ => {},
    }
    assert(out@ =~= old(out)@ + kinds_of_call(cs@, *e));
}

pub(super) fn kinds_block(cs: &Vec<Callable>, b: &Block, out: &mut Vec<KindUse>)
    ensures
        final(out)@ == old(out)@ + kinds_of_block(cs@, *b),
    decreases *b, 3int,
{
    kinds_stats(cs, &b.stats, out);
    match &b.tail {
        Some(e) => kinds_expr(cs, e, out),
        None => {},
    }
    assert(out@ =~= old(out)@ + kinds_of_block(cs@, *b));
}

fn kinds_stats(cs: &Vec<Callable>, s: &Vec<Stat>, out: &mut Vec<KindUse>)
    ensures
        final(out)@ == old(out)@ + kinds_of_stats(cs@, s@),
    decreases *s, 2int,
{
    let mut i: usize = 0;
    while i < s.len()
        invariant
            i <= s@.len(),
            out@ == old(out)@ + kinds_of_stats(cs@, s@.take(i as int)),
        decreases s@.len() - i,
    {
        let ghost before = out@;
        kinds_stat(cs, &s[i], out);
        assert(s@.take(i as int + 1).drop_last() =~= s@.take(i as int));
        assert(out@ =~= old(out)@ + kinds_of_stats(cs@, s@.take(i as int + 1)));
        i = i + 1;
    }
    assert(s@.take(s@.len() as int) =~= s@);
    assert(out@ =~= old(out)@ + kinds_of_stats(cs@, s@));
}

fn kinds_exprs(cs: &Vec<Callable>, s: &Vec<Expr>, out: &mut Vec<KindUse>)
    ensures
        final(out)@ == old(out)@ + kinds_of_exprs(cs@, s@),
    decreases *s, 2int,
{
    let mut i: usize = 0;
    while i < s.len()
        invariant
            i <= s@.len(),
            out@ == old(out)@ + kinds_of_exprs(cs@, s@.take(i as int)),
        decreases s@.len() - i,
    {
        let ghost before = out@;
        kinds_expr(cs, &s[i], out);
        assert(s@.take(i as int + 1).drop_last() =~= s@.take(i as int));
        assert(out@ =~= old(out)@ + kinds_of_exprs(cs@, s@.take(i as int + 1)));
        i = i + 1;
    }
    assert(s@.take(s@.len() as int) =~= s@);
    assert(out@ =~= old(out)@ + kinds_of_exprs(cs@, s@));
}

fn kinds_entries(cs: &Vec<Callable>, s: &Vec<(Expr, Expr)>, out: &mut Vec<KindUse>)
    ensures
        final(out)@ == old(out)@ + kinds_of_entries(cs@, s@),
    decreases *s, 2int,
{
    let mut i: usize = 0;
    while i < s.len()
        invariant
            i <= s@.len(),
            out@ == old(out)@ + kinds_of_entries(cs@, s@.take(i as int)),
        decreases s@.len() - i,
    {
        let ghost before = out@;
        kinds_expr(cs, &s[i].0, out);
        kinds_expr(cs, &s[i].1, out);
        assert(s@.take(i as int + 1).drop_last() =~= s@.take(i as int));
        assert(out@ =~= old(out)@ + kinds_of_entries(cs@, s@.take(i as int + 1)));
        i = i + 1;
    }
    assert(s@.take(s@.len() as int) =~= s@);
    assert(out@ =~= old(out)@ + kinds_of_entries(cs@, s@));
}

fn kinds_arms(cs: &Vec<Callable>, s: &Vec<(Expr, Block)>, out: &mut Vec<KindUse>)
    ensures
        final(out)@ == old(out)@ + kinds_of_arms(cs@, s@),
    decreases *s, 2int,
{
    let mut i: usize = 0;
    while i < s.len()
        invariant
            i <= s@.len(),
            out@ == old(out)@ + kinds_of_arms(cs@, s@.take(i as int)),
        decreases s@.len() - i,
    {
        let ghost before = out@;
        kinds_expr(cs, &s[i].0, out);
        kinds_block(cs, &s[i].1, out);
        assert(s@.take(i as int + 1).drop_last() =~= s@.take(i as int));
        assert(out@ =~= old(out)@ + kinds_of_arms(cs@, s@.take(i as int + 1)));
        i = i + 1;
    }
    assert(s@.take(s@.len() as int) =~= s@);
    assert(out@ =~= old(out)@ + kinds_of_arms(cs@, s@));
}

fn kinds_else(cs: &Vec<Callable>, b: &Option<Block>, out: &mut Vec<KindUse>)
    ensures
        final(out)@ == old(out)@ + kinds_of_else(cs@, *b),
    decreases *b, 2int,
{
    match b {
        Some(b) => kinds_block(cs, b, out),
        None => {},
    }
    assert(out@ =~= old(out)@ + kinds_of_else(cs@, *b));
}

fn kinds_match(cs: &Vec<Callable>, s: &Vec<Arm>, out: &mut Vec<KindUse>)
    ensures
        final(out)@ == old(out)@ + kinds_of_match(cs@, s@),
    decreases *s, 2int,
{
    let mut i: usize = 0;
    while i < s.len()
        invariant
            i <= s@.len(),
            out@ == old(out)@ + kinds_of_match(cs@, s@.take(i as int)),
        decreases s@.len() - i,
    {
        let ghost before = out@;
        kinds_patterns(cs, &s[i].patterns, out);
        kinds_guard(cs, &s[i].guard, out);
        kinds_block(cs, &s[i].body, out);
        assert(s@.take(i as int + 1).drop_last() =~= s@.take(i as int));
        assert(out@ =~= old(out)@ + kinds_of_match(cs@, s@.take(i as int + 1)));
        i = i + 1;
    }
    assert(s@.take(s@.len() as int) =~= s@);
    assert(out@ =~= old(out)@ + kinds_of_match(cs@, s@));
}

fn kinds_patterns(cs: &Vec<Callable>, s: &Vec<Pattern>, out: &mut Vec<KindUse>)
    ensures
        final(out)@ == old(out)@ + kinds_of_patterns(cs@, s@),
    decreases *s, 2int,
{
    let mut i: usize = 0;
    while i < s.len()
        invariant
            i <= s@.len(),
            out@ == old(out)@ + kinds_of_patterns(cs@, s@.take(i as int)),
        decreases s@.len() - i,
    {
        let ghost before = out@;
        kinds_pattern(cs, &s[i], out);
        assert(s@.take(i as int + 1).drop_last() =~= s@.take(i as int));
        assert(out@ =~= old(out)@ + kinds_of_patterns(cs@, s@.take(i as int + 1)));
        i = i + 1;
    }
    assert(s@.take(s@.len() as int) =~= s@);
    assert(out@ =~= old(out)@ + kinds_of_patterns(cs@, s@));
}

fn kinds_pattern(cs: &Vec<Callable>, p: &Pattern, out: &mut Vec<KindUse>)
    ensures
        final(out)@ == old(out)@ + kinds_of_pattern(cs@, *p),
    decreases *p, 1int,
{
    match p {
        Pattern::Lit(e) => {
            kinds_expr(cs, e, out);
        },
        Pattern::Bind(_, Some(b)) => {
            out.push(KindUse::As(b.slot, Kind::Num));
        },
        _ => {},
    }
    assert(out@ =~= old(out)@ + kinds_of_pattern(cs@, *p));
}

fn kinds_guard(cs: &Vec<Callable>, g: &Option<Expr>, out: &mut Vec<KindUse>)
    ensures
        final(out)@ == old(out)@ + kinds_of_guard(cs@, *g),
    decreases *g, 2int,
{
    match g {
        Some(e) => kinds_expr(cs, e, out),
        None => {},
    }
    assert(out@ =~= old(out)@ + kinds_of_guard(cs@, *g));
}

pub(super) fn kinds_stat(cs: &Vec<Callable>, st: &Stat, out: &mut Vec<KindUse>)
    ensures
        final(out)@ == old(out)@ + kinds_of_stat(cs@, *st),
    decreases *st, 1int,
{
    match st {
        Stat::Let(_, es) => {
            kinds_exprs(cs, es, out);
        },
        Stat::LetSlots(..) => {
            kinds_let(cs, st, out);
        },
        Stat::Return(es) => {
            kinds_exprs(cs, es, out);
        },
        Stat::FnDecl(_, e) => {
            kinds_expr(cs, e, out);
        },
        Stat::FnSlot(_, e) => {
            kinds_expr(cs, e, out);
        },
        Stat::Expr(e) => {
            kinds_expr(cs, e, out);
        },
        Stat::Assign(ts, es) => {
            kinds_exprs(cs, ts, out);
            kinds_exprs(cs, es, out);
        },
        Stat::OpAssign(t, _, e) => {
            kinds_expr(cs, t, out);
            kinds_expr(cs, e, out);
        },
        Stat::While(_, c, b) => {
            kinds_expr(cs, c, out);
            kinds_block(cs, b, out);
        },
        Stat::Loop(_, b) => {
            kinds_block(cs, b, out);
        },
        Stat::ForRange { binding, start, end, body, .. } => {
            note_num_if(binding, out);
            kinds_expr(cs, start, out);
            kinds_expr(cs, end, out);
            kinds_block(cs, body, out);
        },
        Stat::ForIn { iter, body, .. } => {
            kinds_expr(cs, iter, out);
            kinds_block(cs, body, out);
        },
        _ => {},
    }
    assert(out@ =~= old(out)@ + kinds_of_stat(cs@, *st));
}

fn kinds_expr(cs: &Vec<Callable>, e: &Expr, out: &mut Vec<KindUse>)
    ensures
        final(out)@ == old(out)@ + kinds_of_expr(cs@, *e),
    decreases *e, 1int,
{
    match e {
        Expr::Local(b, _) => {
            out.push(KindUse::As(b.slot, Kind::Num));
        },
        Expr::Call(..) => {
            kinds_call(cs, e, out);
        },
        Expr::Method(o, name, args) => {
            kinds_receiver(cs, o, name, out);
            kinds_exprs(cs, args, out);
        },
        Expr::Index(..) => {
            kinds_index(cs, e, out);
        },
        Expr::Bin(_, a, b) => {
            kinds_expr(cs, a, out);
            kinds_expr(cs, b, out);
        },
        Expr::Range(a, b, _) => {
            kinds_expr(cs, a, out);
            kinds_expr(cs, b, out);
        },
        Expr::Un(_, a) => {
            kinds_expr(cs, a, out);
        },
        Expr::Array(items) => {
            kinds_exprs(cs, items, out);
        },
        Expr::Entries(items) => {
            kinds_entries(cs, items, out);
        },
        Expr::If(arms, els) => {
            kinds_arms(cs, arms, out);
            kinds_else(cs, els, out);
        },
        Expr::Match(subject, arms) => {
            kinds_expr(cs, subject, out);
            kinds_match(cs, arms, out);
        },
        Expr::Do(b) => {
            kinds_block(cs, b, out);
        },
        _ => {},
    }
    assert(out@ =~= old(out)@ + kinds_of_expr(cs@, *e));
}

} // verus!
