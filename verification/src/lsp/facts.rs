//! What a file says about its own types. Nothing here infers anything: it reads
//! the annotations that were written and the names given to shapes.
use super::types;
use super::types::{copy_type, substitute};
use super::words::has_word;
use crate::ast::{Arm, Block, Expr, FuncDef, Name, Span, Stat, Type};
use crate::builtin::tables;
use crate::text;
use vstd::prelude::*;

verus! {

/// One thing a file says.
pub enum Fact<'a> {
    /// `type Point<T> = ..`
    Alias(&'a Name, &'a Vec<Name>, &'a Type),
    /// The type written beside a name, by the name's own span.
    At(Span, &'a Type),
    /// A function, what it takes and what it hands back.
    Function(&'a String, &'a Vec<Name>, &'a Option<Type>),
}

pub ghost enum FactView {
    Alias(Name, Vec<Name>, Type),
    At(Span, Type),
    Function(Seq<char>, Vec<Name>, Option<Type>),
}

impl<'a> View for Fact<'a> {
    type V = FactView;

    open spec fn view(&self) -> FactView {
        match *self {
            Fact::Alias(n, ps, t) => FactView::Alias(*n, *ps, *t),
            Fact::At(s, t) => FactView::At(s, *t),
            Fact::Function(n, ps, r) => FactView::Function(n@, *ps, *r),
        }
    }
}

pub open spec fn facts_view(s: Seq<Fact>) -> Seq<FactView> {
    Seq::new(s.len(), |i: int| s[i]@)
}

// ---- reading the tree --------------------------------------------------------------------

pub open spec fn said_of_name(n: Name) -> Seq<FactView> {
    match n.ty {
        Some(t) => seq![FactView::At(n.span, *t)],
        None => Seq::empty(),
    }
}

pub open spec fn said_of_names(ns: Seq<Name>) -> Seq<FactView>
    decreases ns.len(),
{
    if ns.len() == 0 {
        Seq::empty()
    } else {
        said_of_names(ns.drop_last()) + said_of_name(ns.last())
    }
}

pub open spec fn said_of_def(name: Seq<char>, def: FuncDef) -> Seq<FactView> {
    seq![FactView::Function(name, def.params, def.ret)]
}

/// A declared function is known by the name it is declared with, and again by
/// its own if it has one.
pub open spec fn said_of_decl(name: Name, e: Expr) -> Seq<FactView> {
    match e {
        Expr::Func(def) => said_of_def(name.text@, *def),
        _ => Seq::empty(),
    }
}

pub open spec fn said_of_own_name(def: FuncDef) -> Seq<FactView> {
    if def.name@.len() > 0 {
        said_of_def(def.name@, def)
    } else {
        Seq::empty()
    }
}

/// What a block says, in the order it says it.
pub open spec fn said_of_block(b: Block) -> Seq<FactView>
    decreases b, 3int,
{
    said_of_stats(b.stats@) + said_of_tail(b.tail)
}

pub open spec fn said_of_tail(t: Option<Box<Expr>>) -> Seq<FactView>
    decreases t, 2int,
{
    match t {
        Some(e) => said_of_expr(*e),
        None => Seq::empty(),
    }
}

pub open spec fn said_of_else(b: Option<Block>) -> Seq<FactView>
    decreases b, 2int,
{
    match b {
        Some(b) => said_of_block(b),
        None => Seq::empty(),
    }
}

pub open spec fn said_of_stats(s: Seq<Stat>) -> Seq<FactView>
    decreases s, 2int,
{
    if s.len() == 0 {
        Seq::empty()
    } else {
        said_of_stats(s.drop_last()) + said_of_stat(s[s.len() - 1])
    }
}

pub open spec fn said_of_exprs(s: Seq<Expr>) -> Seq<FactView>
    decreases s, 2int,
{
    if s.len() == 0 {
        Seq::empty()
    } else {
        said_of_exprs(s.drop_last()) + said_of_expr(s[s.len() - 1])
    }
}

pub open spec fn said_of_entries(s: Seq<(Expr, Expr)>) -> Seq<FactView>
    decreases s, 2int,
{
    if s.len() == 0 {
        Seq::empty()
    } else {
        said_of_entries(s.drop_last()) + said_of_expr(s[s.len() - 1].0) + said_of_expr(s[s.len() - 1].1)
    }
}

pub open spec fn said_of_arms(s: Seq<(Expr, Block)>) -> Seq<FactView>
    decreases s, 2int,
{
    if s.len() == 0 {
        Seq::empty()
    } else {
        said_of_arms(s.drop_last()) + said_of_expr(s[s.len() - 1].0) + said_of_block(s[s.len() - 1].1)
    }
}

pub open spec fn said_of_match(s: Seq<Arm>) -> Seq<FactView>
    decreases s, 2int,
{
    if s.len() == 0 {
        Seq::empty()
    } else {
        said_of_match(s.drop_last()) + said_of_block(s[s.len() - 1].body)
    }
}

pub open spec fn said_of_stat(st: Stat) -> Seq<FactView>
    decreases st, 1int,
{
    match st {
        Stat::TypeAlias(name, params, t) => seq![FactView::Alias(name, params, t)],
        Stat::Let(names, es) => said_of_names(names@) + said_of_exprs(es@),
        Stat::LetSlots(_, es) => said_of_exprs(es@),
        Stat::Return(es) => said_of_exprs(es@),
        Stat::FnDecl(name, e) => said_of_decl(name, e) + said_of_expr(e),
        Stat::FnSlot(_, e) => said_of_expr(e),
        Stat::Expr(e) => said_of_expr(e),
        Stat::Assign(ts, es) => said_of_exprs(ts@) + said_of_exprs(es@),
        Stat::OpAssign(t, _, e) => said_of_expr(t) + said_of_expr(e),
        Stat::While(_, c, b) => said_of_expr(c) + said_of_block(b),
        Stat::Loop(_, b) => said_of_block(b),
        Stat::ForRange { var, start, end, body, .. } => said_of_name(var) + said_of_expr(start)
            + said_of_expr(end) + said_of_block(body),
        Stat::ForIn { vars, iter, body, .. } => said_of_names(vars@) + said_of_expr(iter)
            + said_of_block(body),
        Stat::Break | Stat::Continue => Seq::empty(),
    }
}

pub open spec fn said_of_expr(e: Expr) -> Seq<FactView>
    decreases e, 1int,
{
    match e {
        Expr::Func(def) => said_of_names(def.params@) + said_of_own_name(*def) + said_of_block(
            def.body,
        ),
        Expr::Call(f, args) => said_of_expr(*f) + said_of_exprs(args@),
        Expr::Method(o, _, args) => said_of_expr(*o) + said_of_exprs(args@),
        Expr::Index(a, b) => said_of_expr(*a) + said_of_expr(*b),
        Expr::Bin(_, a, b) => said_of_expr(*a) + said_of_expr(*b),
        Expr::Un(_, a) => said_of_expr(*a),
        Expr::Array(es) => said_of_exprs(es@),
        Expr::Entries(es) => said_of_entries(es@),
        Expr::Range(a, b, _) => said_of_expr(*a) + said_of_expr(*b),
        Expr::If(arms, els) => said_of_arms(arms@) + said_of_else(els),
        Expr::Match(subject, arms) => said_of_expr(*subject) + said_of_match(arms@),
        Expr::Do(b) => said_of_block(b),
        _ => Seq::empty(),
    }
}

/// Were these said, and nothing else since?
pub open spec fn says_more(before: Seq<Fact>, after: Seq<Fact>, more: Seq<FactView>) -> bool {
    facts_view(after) == facts_view(before) + more
}

fn say_name<'a>(n: &'a Name, out: &mut Vec<Fact<'a>>)
    ensures
        says_more(old(out)@, final(out)@, said_of_name(*n)),
{
    match &n.ty {
        Some(t) => out.push(Fact::At(n.span, t)),
        None => {},
    }
    assert(facts_view(out@) =~= facts_view(old(out)@) + said_of_name(*n));
}

fn say_names<'a>(ns: &'a Vec<Name>, out: &mut Vec<Fact<'a>>)
    ensures
        says_more(old(out)@, final(out)@, said_of_names(ns@)),
{
    let mut i: usize = 0;
    assert(facts_view(out@) =~= facts_view(old(out)@) + said_of_names(ns@.take(0)));
    while i < ns.len()
        invariant
            i <= ns@.len(),
            says_more(old(out)@, out@, said_of_names(ns@.take(i as int))),
        decreases ns@.len() - i,
    {
        say_name(&ns[i], out);
        assert(ns@.take(i as int + 1).drop_last() =~= ns@.take(i as int));
        assert(facts_view(out@) =~= facts_view(old(out)@) + said_of_names(ns@.take(i as int + 1)));
        i = i + 1;
    }
    assert(ns@.take(ns@.len() as int) =~= ns@);
}

fn say_def<'a>(name: &'a String, def: &'a FuncDef, out: &mut Vec<Fact<'a>>)
    ensures
        says_more(old(out)@, final(out)@, said_of_def(name@, *def)),
{
    out.push(Fact::Function(name, &def.params, &def.ret));
    assert(facts_view(out@) =~= facts_view(old(out)@) + said_of_def(name@, *def));
}

fn say_decl<'a>(name: &'a Name, e: &'a Expr, out: &mut Vec<Fact<'a>>)
    ensures
        says_more(old(out)@, final(out)@, said_of_decl(*name, *e)),
{
    match e {
        Expr::Func(def) => say_def(&name.text, def, out),
        _ => {},
    }
    assert(facts_view(out@) =~= facts_view(old(out)@) + said_of_decl(*name, *e));
}

fn say_own_name<'a>(def: &'a FuncDef, out: &mut Vec<Fact<'a>>)
    ensures
        says_more(old(out)@, final(out)@, said_of_own_name(*def)),
{
    if !def.name.as_str().is_empty() {
        say_def(&def.name, def, out);
    }
    assert(facts_view(out@) =~= facts_view(old(out)@) + said_of_own_name(*def));
}

fn say_block<'a>(b: &'a Block, out: &mut Vec<Fact<'a>>)
    ensures
        says_more(old(out)@, final(out)@, said_of_block(*b)),
    decreases *b, 3int,
{
    say_stats(&b.stats, out);
    match &b.tail {
        Some(e) => say_expr(e, out),
        None => {},
    }
    assert(facts_view(out@) =~= facts_view(old(out)@) + said_of_block(*b));
}

fn say_else<'a>(b: &'a Option<Block>, out: &mut Vec<Fact<'a>>)
    ensures
        says_more(old(out)@, final(out)@, said_of_else(*b)),
    decreases *b, 2int,
{
    match b {
        Some(b) => say_block(b, out),
        None => {},
    }
    assert(facts_view(out@) =~= facts_view(old(out)@) + said_of_else(*b));
}

fn say_stats<'a>(s: &'a Vec<Stat>, out: &mut Vec<Fact<'a>>)
    ensures
        says_more(old(out)@, final(out)@, said_of_stats(s@)),
    decreases *s, 2int,
{
    let mut i: usize = 0;
    assert(facts_view(out@) =~= facts_view(old(out)@) + said_of_stats(s@.take(0)));
    while i < s.len()
        invariant
            i <= s@.len(),
            says_more(old(out)@, out@, said_of_stats(s@.take(i as int))),
        decreases s@.len() - i,
    {
        say_stat(&s[i], out);
        assert(s@.take(i as int + 1).drop_last() =~= s@.take(i as int));
        assert(facts_view(out@) =~= facts_view(old(out)@) + said_of_stats(s@.take(i as int + 1)));
        i = i + 1;
    }
    assert(s@.take(s@.len() as int) =~= s@);
}

fn say_exprs<'a>(s: &'a Vec<Expr>, out: &mut Vec<Fact<'a>>)
    ensures
        says_more(old(out)@, final(out)@, said_of_exprs(s@)),
    decreases *s, 2int,
{
    let mut i: usize = 0;
    assert(facts_view(out@) =~= facts_view(old(out)@) + said_of_exprs(s@.take(0)));
    while i < s.len()
        invariant
            i <= s@.len(),
            says_more(old(out)@, out@, said_of_exprs(s@.take(i as int))),
        decreases s@.len() - i,
    {
        say_expr(&s[i], out);
        assert(s@.take(i as int + 1).drop_last() =~= s@.take(i as int));
        assert(facts_view(out@) =~= facts_view(old(out)@) + said_of_exprs(s@.take(i as int + 1)));
        i = i + 1;
    }
    assert(s@.take(s@.len() as int) =~= s@);
}

fn say_entries<'a>(s: &'a Vec<(Expr, Expr)>, out: &mut Vec<Fact<'a>>)
    ensures
        says_more(old(out)@, final(out)@, said_of_entries(s@)),
    decreases *s, 2int,
{
    let mut i: usize = 0;
    assert(facts_view(out@) =~= facts_view(old(out)@) + said_of_entries(s@.take(0)));
    while i < s.len()
        invariant
            i <= s@.len(),
            says_more(old(out)@, out@, said_of_entries(s@.take(i as int))),
        decreases s@.len() - i,
    {
        say_expr(&s[i].0, out);
        say_expr(&s[i].1, out);
        assert(s@.take(i as int + 1).drop_last() =~= s@.take(i as int));
        assert(facts_view(out@) =~= facts_view(old(out)@) + said_of_entries(s@.take(i as int + 1)));
        i = i + 1;
    }
    assert(s@.take(s@.len() as int) =~= s@);
}

fn say_arms<'a>(s: &'a Vec<(Expr, Block)>, out: &mut Vec<Fact<'a>>)
    ensures
        says_more(old(out)@, final(out)@, said_of_arms(s@)),
    decreases *s, 2int,
{
    let mut i: usize = 0;
    assert(facts_view(out@) =~= facts_view(old(out)@) + said_of_arms(s@.take(0)));
    while i < s.len()
        invariant
            i <= s@.len(),
            says_more(old(out)@, out@, said_of_arms(s@.take(i as int))),
        decreases s@.len() - i,
    {
        say_expr(&s[i].0, out);
        say_block(&s[i].1, out);
        assert(s@.take(i as int + 1).drop_last() =~= s@.take(i as int));
        assert(facts_view(out@) =~= facts_view(old(out)@) + said_of_arms(s@.take(i as int + 1)));
        i = i + 1;
    }
    assert(s@.take(s@.len() as int) =~= s@);
}

fn say_match<'a>(s: &'a Vec<Arm>, out: &mut Vec<Fact<'a>>)
    ensures
        says_more(old(out)@, final(out)@, said_of_match(s@)),
    decreases *s, 2int,
{
    let mut i: usize = 0;
    assert(facts_view(out@) =~= facts_view(old(out)@) + said_of_match(s@.take(0)));
    while i < s.len()
        invariant
            i <= s@.len(),
            says_more(old(out)@, out@, said_of_match(s@.take(i as int))),
        decreases s@.len() - i,
    {
        say_block(&s[i].body, out);
        assert(s@.take(i as int + 1).drop_last() =~= s@.take(i as int));
        assert(facts_view(out@) =~= facts_view(old(out)@) + said_of_match(s@.take(i as int + 1)));
        i = i + 1;
    }
    assert(s@.take(s@.len() as int) =~= s@);
}

fn say_stat<'a>(st: &'a Stat, out: &mut Vec<Fact<'a>>)
    ensures
        says_more(old(out)@, final(out)@, said_of_stat(*st)),
    decreases *st, 1int,
{
    match st {
        Stat::TypeAlias(name, params, t) => {
            out.push(Fact::Alias(name, params, t));
        },
        Stat::Let(names, es) => {
            say_names(names, out);
            say_exprs(es, out);
        },
        Stat::LetSlots(_, es) => {
            say_exprs(es, out);
        },
        Stat::Return(es) => {
            say_exprs(es, out);
        },
        Stat::FnDecl(name, e) => {
            say_decl(name, e, out);
            say_expr(e, out);
        },
        Stat::FnSlot(_, e) => {
            say_expr(e, out);
        },
        Stat::Expr(e) => {
            say_expr(e, out);
        },
        Stat::Assign(ts, es) => {
            say_exprs(ts, out);
            say_exprs(es, out);
        },
        Stat::OpAssign(t, _, e) => {
            say_expr(t, out);
            say_expr(e, out);
        },
        Stat::While(_, c, b) => {
            say_expr(c, out);
            say_block(b, out);
        },
        Stat::Loop(_, b) => {
            say_block(b, out);
        },
        Stat::ForRange { var, start, end, body, .. } => {
            say_name(var, out);
            say_expr(start, out);
            say_expr(end, out);
            say_block(body, out);
        },
        Stat::ForIn { vars, iter, body, .. } => {
            say_names(vars, out);
            say_expr(iter, out);
            say_block(body, out);
        },
        Stat::Break | Stat::Continue => {},
    }
    assert(facts_view(out@) =~= facts_view(old(out)@) + said_of_stat(*st));
}

fn say_expr<'a>(e: &'a Expr, out: &mut Vec<Fact<'a>>)
    ensures
        says_more(old(out)@, final(out)@, said_of_expr(*e)),
    decreases *e, 1int,
{
    match e {
        Expr::Func(def) => {
            say_names(&def.params, out);
            say_own_name(def, out);
            say_block(&def.body, out);
        },
        Expr::Call(f, args) => {
            say_expr(f, out);
            say_exprs(args, out);
        },
        Expr::Method(o, _, args) => {
            say_expr(o, out);
            say_exprs(args, out);
        },
        Expr::Index(a, b) => {
            say_expr(a, out);
            say_expr(b, out);
        },
        Expr::Bin(_, a, b) => {
            say_expr(a, out);
            say_expr(b, out);
        },
        Expr::Un(_, a) => {
            say_expr(a, out);
        },
        Expr::Array(es) => {
            say_exprs(es, out);
        },
        Expr::Entries(es) => {
            say_entries(es, out);
        },
        Expr::Range(a, b, _) => {
            say_expr(a, out);
            say_expr(b, out);
        },
        Expr::If(arms, els) => {
            say_arms(arms, out);
            say_else(els, out);
        },
        Expr::Match(subject, arms) => {
            say_expr(subject, out);
            say_match(arms, out);
        },
        Expr::Do(b) => {
            say_block(b, out);
        },
        _ => {},
    }
    assert(facts_view(out@) =~= facts_view(old(out)@) + said_of_expr(*e));
}

// ---- asking ------------------------------------------------------------------------------

/// The type a name was last given to.
pub open spec fn alias_of(fs: Seq<FactView>, name: Seq<char>) -> Option<(Vec<Name>, Type)>
    decreases fs.len(),
{
    if fs.len() == 0 {
        None
    } else {
        match fs.last() {
            FactView::Alias(n, ps, t) => if n.text@ == name {
                Some((ps, t))
            } else {
                alias_of(fs.drop_last(), name)
            },
            _ => alias_of(fs.drop_last(), name),
        }
    }
}

pub open spec fn stands_for(fs: Seq<FactView>, name: Seq<char>) -> Option<Type> {
    match alias_of(fs, name) {
        Some((_, t)) => Some(t),
        None => None,
    }
}

pub open spec fn takes(fs: Seq<FactView>, name: Seq<char>) -> Option<Vec<Name>> {
    match alias_of(fs, name) {
        Some((ps, _)) => Some(ps),
        None => None,
    }
}

pub open spec fn is_among(ps: Option<Vec<Name>>, name: Seq<char>) -> bool {
    match ps {
        Some(ps) => exists|i: int| 0 <= i < ps@.len() && (#[trigger] ps@[i]).text@ == name,
        None => false,
    }
}

/// The type last written beside the name at a span.
pub open spec fn type_at(fs: Seq<FactView>, span: Span) -> Option<Type>
    decreases fs.len(),
{
    if fs.len() == 0 {
        None
    } else {
        match fs.last() {
            FactView::At(s, t) => if s == span {
                Some(t)
            } else {
                type_at(fs.drop_last(), span)
            },
            _ => type_at(fs.drop_last(), span),
        }
    }
}

/// The first function of a name.
pub open spec fn function_of(fs: Seq<FactView>, name: Seq<char>, i: nat) -> Option<
    (Vec<Name>, Option<Type>),
>
    decreases fs.len() - i,
{
    if i >= fs.len() {
        None
    } else {
        match fs[i as int] {
            FactView::Function(n, ps, r) => if n == name {
                Some((ps, r))
            } else {
                function_of(fs, name, i + 1)
            },
            _ => function_of(fs, name, i + 1),
        }
    }
}

/// The names given to types, once each, in the order they are first given.
pub open spec fn names_given(fs: Seq<FactView>) -> Seq<Seq<char>>
    decreases fs.len(),
{
    if fs.len() == 0 {
        Seq::empty()
    } else {
        let rest = names_given(fs.drop_last());
        match fs.last() {
            FactView::Alias(n, _, _) => if rest.contains(n.text@) {
                rest
            } else {
                rest.push(n.text@)
            },
            _ => rest,
        }
    }
}

/// A shape, once the names are followed, as far as so many of them. A name for
/// a name for a shape is still that shape; a cycle answers nothing rather than
/// going round.
pub open spec fn followed(fs: Seq<FactView>, t: Type, left: nat) -> Option<Type>
    decreases left,
{
    match t {
        Type::Named(n, _, _) => match alias_of(fs, n@) {
            Some((_, next)) => if left == 0 {
                None
            } else {
                followed(fs, next, (left - 1) as nat)
            },
            None => Some(t),
        },
        _ => Some(t),
    }
}

/// A shape, once every name is followed. There are no more names to follow than
/// there are facts, so whatever takes longer goes round.
pub open spec fn resolved(fs: Seq<FactView>, t: Type) -> Option<Type> {
    followed(fs, t, fs.len())
}

/// A generic with its parameters filled in. One given the wrong number of
/// arguments is shown as it was declared.
pub open spec fn filled(fs: Seq<FactView>, t: Type) -> types::TypeView {
    match t {
        Type::Named(n, args, _) => match alias_of(fs, n@) {
            Some((params, body)) => if params@.len() == 0 || args@.len() != params@.len() {
                types::type_view(body)
            } else {
                types::substituted(types::type_view(body), types::pairs(params@, args@))
            },
            None => types::type_view(t),
        },
        _ => types::type_view(t),
    }
}

/// A function's parameters and what it hands back, as written.
pub struct Signature<'a> {
    pub name: String,
    pub params: &'a Vec<Name>,
    pub ret: &'a Option<Type>,
}

pub open spec fn param_text(n: Name) -> Seq<char> {
    match n.ty {
        Some(t) => n.text@ + ": "@ + types::type_text(types::type_view(*t)),
        None => n.text@,
    }
}

pub open spec fn param_texts(ns: Seq<Name>) -> Seq<Seq<char>> {
    Seq::new(ns.len(), |i: int| param_text(ns[i]))
}

/// `add(left: number, right: number) -> number`, the way it was written.
pub open spec fn label_of(name: Seq<char>, params: Seq<Name>, ret: Option<Type>) -> Seq<char> {
    let head = name + "("@ + tables::joined(param_texts(params), ", "@) + ")"@;
    match ret {
        Some(t) => head + " -> "@ + types::type_text(types::type_view(t)),
        None => head,
    }
}

impl<'a> Signature<'a> {
    pub fn label(&self) -> (r: String)
        ensures
            r@ == label_of(self.name@, self.params@, *self.ret),
    {
        let mut texts: Vec<String> = Vec::new();
        let mut i: usize = 0;
        assert(tables::texts(texts@) =~= param_texts(self.params@).take(0));
        while i < self.params.len()
            invariant
                i <= self.params@.len(),
                tables::texts(texts@) == param_texts(self.params@).take(i as int),
            decreases self.params@.len() - i,
        {
            let ghost before = tables::texts(texts@);
            let mut one = text::owned(self.params[i].text.as_str());
            match &self.params[i].ty {
                Some(t) => {
                    one.append(": ");
                    one.append(types::text_of(t).as_str());
                },
                None => {},
            }
            assert(one@ =~= param_text(self.params@[i as int]));
            texts.push(one);
            assert(tables::texts(texts@) =~= before.push(one@));
            assert(tables::texts(texts@) =~= param_texts(self.params@).take(i as int + 1));
            i = i + 1;
        }
        assert(tables::texts(texts@) =~= param_texts(self.params@));
        let mut out = text::owned(self.name.as_str());
        out.append("(");
        out.append(tables::join(&texts, ", ").as_str());
        out.append(")");
        match self.ret {
            Some(t) => {
                out.append(" -> ");
                out.append(types::text_of(t).as_str());
            },
            None => {},
        }
        out
    }
}

/// The types a file declares and the annotations it wrote down.
pub struct Types<'a> {
    facts: Vec<Fact<'a>>,
}

impl<'a> View for Types<'a> {
    type V = Seq<FactView>;

    closed spec fn view(&self) -> Seq<FactView> {
        facts_view(self.facts@)
    }
}

impl<'a> Types<'a> {
    pub fn read(block: &'a Block) -> (r: Types<'a>)
        ensures
            r@ == said_of_block(*block),
    {
        let mut facts: Vec<Fact<'a>> = Vec::new();
        say_block(block, &mut facts);
        assert(facts_view(facts@) =~= said_of_block(*block));
        Types { facts }
    }

    fn entry(&self, name: &str) -> (r: Option<(&'a Vec<Name>, &'a Type)>)
        ensures
            match r {
                Some((ps, t)) => alias_of(self@, name@) == Some((*ps, *t)),
                None => alias_of(self@, name@) is None,
            },
    {
        let ghost fs = self@;
        let mut i: usize = self.facts.len();
        assert(fs.take(i as int) =~= fs);
        while i > 0
            invariant
                i <= self.facts@.len(),
                fs == facts_view(self.facts@),
                alias_of(fs.take(i as int), name@) == alias_of(fs, name@),
            decreases i,
        {
            assert(fs.take(i as int).drop_last() =~= fs.take(i - 1));
            assert(fs.take(i as int).last() == self.facts@[i - 1]@);
            i = i - 1;
            match &self.facts[i] {
                Fact::Alias(n, ps, t) => {
                    if text::same(n.text.as_str(), name) {
                        return Some((*ps, *t));
                    }
                },
                _ => {},
            }
        }
        None
    }

    /// What a name stands for.
    pub fn alias(&self, name: &str) -> (r: Option<&'a Type>)
        ensures
            match r {
                Some(t) => stands_for(self@, name@) == Some(*t),
                None => stands_for(self@, name@) is None,
            },
    {
        match self.entry(name) {
            Some((_, t)) => Some(t),
            None => None,
        }
    }

    /// The parameters a type takes: `type Handler<T, U> = ..` takes two.
    pub fn type_params(&self, name: &str) -> (r: Option<&'a Vec<Name>>)
        ensures
            match r {
                Some(ps) => takes(self@, name@) == Some(*ps),
                None => takes(self@, name@) is None,
            },
    {
        match self.entry(name) {
            Some((ps, _)) => Some(ps),
            None => None,
        }
    }

    /// Is this name a parameter of the type being written, rather than a type?
    pub fn is_parameter(&self, of: &str, name: &str) -> (r: bool)
        ensures
            r == is_among(takes(self@, of@), name@),
    {
        match self.entry(of) {
            Some((ps, _)) => {
                let mut i: usize = 0;
                while i < ps.len()
                    invariant
                        i <= ps@.len(),
                        takes(self@, of@) == Some(*ps),
                        forall|k: int| 0 <= k < i ==> (#[trigger] ps@[k]).text@ != name@,
                    decreases ps@.len() - i,
                {
                    if text::same(ps[i].text.as_str(), name) {
                        assert(ps@[i as int].text@ == name@);
                        return true;
                    }
                    i = i + 1;
                }
                false
            },
            None => false,
        }
    }

    pub fn alias_names(&self) -> (r: Vec<String>)
        ensures
            tables::texts(r@) == names_given(self@),
    {
        let ghost fs = self@;
        let mut out: Vec<String> = Vec::new();
        let mut i: usize = 0;
        assert(tables::texts(out@) =~= names_given(fs.take(0)));
        while i < self.facts.len()
            invariant
                i <= self.facts@.len(),
                fs == facts_view(self.facts@),
                tables::texts(out@) == names_given(fs.take(i as int)),
            decreases self.facts@.len() - i,
        {
            let ghost before = tables::texts(out@);
            assert(fs.take(i as int + 1).drop_last() =~= fs.take(i as int));
            assert(fs.take(i as int + 1).last() == self.facts@[i as int]@);
            match &self.facts[i] {
                Fact::Alias(n, _, _) => {
                    if !has_word(&out, n.text.as_str()) {
                        out.push(text::owned(n.text.as_str()));
                        assert(tables::texts(out@) =~= before.push(n.text@));
                    }
                },
                _ => {},
            }
            i = i + 1;
        }
        assert(fs.take(fs.len() as int) =~= fs);
        out
    }

    /// The type written where this name was declared.
    pub fn at(&self, decl: Span) -> (r: Option<&'a Type>)
        ensures
            match r {
                Some(t) => type_at(self@, decl) == Some(*t),
                None => type_at(self@, decl) is None,
            },
    {
        let ghost fs = self@;
        let mut i: usize = self.facts.len();
        assert(fs.take(i as int) =~= fs);
        while i > 0
            invariant
                i <= self.facts@.len(),
                fs == facts_view(self.facts@),
                type_at(fs.take(i as int), decl) == type_at(fs, decl),
            decreases i,
        {
            assert(fs.take(i as int).drop_last() =~= fs.take(i - 1));
            assert(fs.take(i as int).last() == self.facts@[i - 1]@);
            i = i - 1;
            match &self.facts[i] {
                Fact::At(s, t) => {
                    if *s == decl {
                        return Some(*t);
                    }
                },
                _ => {},
            }
        }
        None
    }

    /// A function written in this file.
    pub fn function(&self, name: &str) -> (r: Option<Signature<'a>>)
        ensures
            match r {
                Some(s) => s.name@ == name@ && function_of(self@, name@, 0) == Some(
                    (*s.params, *s.ret),
                ),
                None => function_of(self@, name@, 0) is None,
            },
    {
        let ghost fs = self@;
        let mut i: usize = 0;
        while i < self.facts.len()
            invariant
                i <= self.facts@.len(),
                fs == facts_view(self.facts@),
                function_of(fs, name@, i as nat) == function_of(fs, name@, 0),
            decreases self.facts@.len() - i,
        {
            assert(fs[i as int] == self.facts@[i as int]@);
            match &self.facts[i] {
                Fact::Function(n, params, ret) => {
                    if text::same(n.as_str(), name) {
                        return Some(Signature { name: text::owned(name), params: *params, ret: *ret });
                    }
                },
                _ => {},
            }
            i = i + 1;
        }
        None
    }

    /// What a shape is called, once the names are followed.
    pub fn resolve<'b>(&'b self, ty: &'b Type) -> (r: Option<&'b Type>)
        ensures
            match r {
                Some(t) => resolved(self@, *ty) == Some(*t),
                None => resolved(self@, *ty) is None,
            },
    {
        let mut left: usize = self.facts.len();
        let mut cur: &'b Type = ty;
        loop
            invariant
                followed(self@, *cur, left as nat) == resolved(self@, *ty),
            decreases left,
        {
            match cur {
                Type::Named(n, _, _) => match self.alias(n.as_str()) {
                    Some(next) => {
                        if left == 0 {
                            return None;
                        }
                        left = left - 1;
                        cur = next;
                    },
                    None => {
                        return Some(cur);
                    },
                },
                _ => {
                    return Some(cur);
                },
            }
        }
    }

    /// The fields of a shape, if that is what it is.
    pub fn fields<'b>(&'b self, ty: &'b Type) -> (r: Option<&'b Vec<(Name, Type)>>)
        ensures
            match resolved(self@, *ty) {
                Some(Type::Record(fs, _)) => r == Some(&fs),
                _ => r is None,
            },
    {
        match self.resolve(ty) {
            Some(t) => match t {
                Type::Record(fs, _) => Some(fs),
                _ => None,
            },
            None => None,
        }
    }

    /// `Handler<Body, Reply>` with `T` and `U` filled in: following a generic
    /// down to what it stands for is what lets an editor say something
    /// concrete about it.
    pub fn instantiate(&self, ty: &Type) -> (r: Type)
        ensures
            types::type_view(r) == filled(self@, *ty),
    {
        match ty {
            Type::Named(n, args, _) => match self.entry(n.as_str()) {
                Some((params, body)) => {
                    if params.len() == 0 || args.len() != params.len() {
                        copy_type(body)
                    } else {
                        substitute(body, params, args)
                    }
                },
                None => copy_type(ty),
            },
            _ => copy_type(ty),
        }
    }
}

/// Following a name ends at something that is not a name for anything else.
pub proof fn lemma_follows_to_the_end(fs: Seq<FactView>, t: Type, left: nat)
    ensures
        match followed(fs, t, left) {
            Some(Type::Named(n, _, _)) => alias_of(fs, n@) is None,
            _ => true,
        },
    decreases left,
{
    match t {
        Type::Named(n, _, _) => match alias_of(fs, n@) {
            Some((_, next)) => if left > 0 {
                lemma_follows_to_the_end(fs, next, (left - 1) as nat);
            },
            None => {},
        },
        _ => {},
    }
}

/// Names that stand one for the next.
pub open spec fn chain(fs: Seq<FactView>, ts: Seq<Type>) -> bool {
    ts.len() > 0 && forall|i: int|
        0 <= i < ts.len() - 1 ==> match #[trigger] ts[i] {
            Type::Named(n, _, _) => stands_for(fs, n@) == Some(ts[i + 1]),
            _ => false,
        }
}

/// The name a type is written as.
pub open spec fn name_of(t: Type) -> Seq<char> {
    match t {
        Type::Named(n, _, _) => n@,
        _ => Seq::empty(),
    }
}

/// The names of a chain, but for what it ends in.
pub open spec fn chain_names(ts: Seq<Type>) -> Seq<Seq<char>> {
    Seq::new((ts.len() - 1) as nat, |i: int| name_of(ts[i]))
}

/// However long a chain of names is, it leads to what it ends in, unless a name
/// comes again.
pub proof fn lemma_a_chain_leads_to_its_end(fs: Seq<FactView>, ts: Seq<Type>)
    requires
        chain(fs, ts),
        chain_names(ts).no_duplicates(),
        ts.last() matches Type::Named(n, _, _) ==> stands_for(fs, n@) is None,
    ensures
        resolved(fs, ts[0]) == Some(ts.last()),
{
    let names = chain_names(ts);
    assert forall|i: int| 0 <= i < names.len() implies alias_of(fs, #[trigger] names[i]) is Some by {
        assert(stands_for(fs, name_of(ts[i])) == Some(ts[i + 1]));
    }
    lemma_no_more_names(fs, names);
    lemma_follow_chain(fs, ts, fs.len());
}

proof fn lemma_follow_chain(fs: Seq<FactView>, ts: Seq<Type>, left: nat)
    requires
        chain(fs, ts),
        ts.len() - 1 <= left,
        ts.last() matches Type::Named(n, _, _) ==> stands_for(fs, n@) is None,
    ensures
        followed(fs, ts[0], left) == Some(ts.last()),
    decreases left,
{
    if ts.len() > 1 {
        let rest = ts.drop_first();
        assert(ts[0] is Named);
        assert forall|i: int| 0 <= i < rest.len() - 1 implies match #[trigger] rest[i] {
            Type::Named(n, _, _) => stands_for(fs, n@) == Some(rest[i + 1]),
            _ => false,
        } by {
            assert(rest[i] == ts[i + 1]);
        }
        lemma_follow_chain(fs, rest, (left - 1) as nat);
    }
}

/// There are no more names for types than facts.
proof fn lemma_no_more_names(fs: Seq<FactView>, names: Seq<Seq<char>>)
    requires
        names.no_duplicates(),
        forall|i: int| 0 <= i < names.len() ==> alias_of(fs, #[trigger] names[i]) is Some,
    ensures
        names.len() <= fs.len(),
    decreases fs.len(),
{
    if names.len() > 0 {
        assert(alias_of(fs, names[0]) is Some);
        let last = fs.last();
        let given = match last {
            FactView::Alias(n, _, _) => Some(n.text@),
            _ => None,
        };
        if given is Some && names.contains(given->Some_0) {
            let k = choose|k: int| 0 <= k < names.len() && names[k] == given->Some_0;
            let rest = names.remove(k);
            assert forall|i: int| 0 <= i < rest.len() implies alias_of(
                fs.drop_last(),
                #[trigger] rest[i],
            ) is Some by {
                let j = if i < k {
                    i
                } else {
                    i + 1
                };
                assert(rest[i] == names[j]);
                assert(names[j] != names[k]);
            }
            assert(rest.no_duplicates());
            lemma_no_more_names(fs.drop_last(), rest);
        } else {
            assert forall|i: int| 0 <= i < names.len() implies alias_of(
                fs.drop_last(),
                #[trigger] names[i],
            ) is Some by {
                assert(names.contains(names[i]));
            }
            lemma_no_more_names(fs.drop_last(), names);
        }
    }
}

/// Names that go round lead nowhere.
pub proof fn lemma_a_cycle_answers_nothing(fs: Seq<FactView>, ts: Seq<Type>)
    requires
        chain(fs, ts),
        ts.len() > 1,
        ts.last() == ts[0],
    ensures
        resolved(fs, ts[0]) is None,
{
    lemma_round(fs, ts, 0, fs.len());
}

proof fn lemma_round(fs: Seq<FactView>, ts: Seq<Type>, i: int, left: nat)
    requires
        chain(fs, ts),
        ts.len() > 1,
        ts.last() == ts[0],
        0 <= i < ts.len() - 1,
    ensures
        followed(fs, ts[i], left) is None,
    decreases left,
{
    assert(ts[i] is Named);
    if left > 0 {
        if i + 1 < ts.len() - 1 {
            lemma_round(fs, ts, i + 1, (left - 1) as nat);
        } else {
            lemma_round(fs, ts, 0, (left - 1) as nat);
        }
    }
}

} // verus!
