//! Which colour a stretch of a file gets.
use super::index;
use super::index::{LineIndex, Position};
use super::tokens;
use super::tokens::{kind_at, Lexed, Tok};
use crate::ast::Span;
use vstd::prelude::*;

verus! {

/// The kinds of token that are coloured.
#[derive(Clone, Copy, Debug, PartialEq, Eq, Structural)]
pub enum Colour {
    Comment,
    Keyword,
    Text,
    Number,
    Operator,
    Variable,
    Function,
    Namespace,
    Property,
    Type,
}

/// The number an editor knows a colour by: its place in the list it is told.
pub open spec fn colour_number(c: Colour) -> u32 {
    match c {
        Colour::Comment => 0,
        Colour::Keyword => 1,
        Colour::Text => 2,
        Colour::Number => 3,
        Colour::Operator => 4,
        Colour::Variable => 5,
        Colour::Function => 6,
        Colour::Namespace => 7,
        Colour::Property => 8,
        Colour::Type => 9,
    }
}

pub fn number_of(c: Colour) -> (r: u32)
    ensures
        r == colour_number(c),
{
    match c {
        Colour::Comment => 0,
        Colour::Keyword => 1,
        Colour::Text => 2,
        Colour::Number => 3,
        Colour::Operator => 4,
        Colour::Variable => 5,
        Colour::Function => 6,
        Colour::Namespace => 7,
        Colour::Property => 8,
        Colour::Type => 9,
    }
}

pub open spec fn is_keyword(t: Tok) -> bool {
    t is Break || t is Continue || t is Else || t is False || t is Fn || t is For || t is If || t is In
        || t is Let || t is Loop || t is Match || t is Mut || t is Nil || t is Return || t is True
        || t is Type || t is While
}

pub open spec fn is_plain(t: Tok) -> bool {
    t is LParen || t is RParen || t is LBrace || t is RBrace || t is LBracket || t is RBracket
        || t is Semi || t is Comma || t is Hash || t is Eof
}

/// The colour of a token. What it is decides most of it; the tokens either
/// side decide whether a name is a call, a module or a field.
pub open spec fn colour_of(ks: Seq<Tok>, i: int) -> Option<Colour> {
    let t = ks[i];
    if is_plain(t) {
        None
    } else if t is Num {
        Some(Colour::Number)
    } else if t is Str {
        Some(Colour::Text)
    } else if t is Name {
        if tokens::tok_at(ks, i - 1) == Some(Tok::Fn) {
            Some(Colour::Function)
        } else if tokens::tok_at(ks, i + 1) == Some(Tok::ColonColon) {
            Some(Colour::Namespace)
        } else if tokens::tok_at(ks, i - 1) == Some(Tok::Dot) {
            Some(Colour::Property)
        } else if tokens::tok_at(ks, i + 1) == Some(Tok::LParen) {
            Some(Colour::Function)
        } else {
            Some(Colour::Variable)
        }
    } else if is_keyword(t) {
        Some(Colour::Keyword)
    } else {
        Some(Colour::Operator)
    }
}

pub fn token_kind(ts: &Vec<Lexed>, i: usize) -> (r: Option<Colour>)
    requires
        i < ts@.len(),
    ensures
        r == colour_of(tokens::kinds(ts@), i as int),
{
    match ts[i].tok {
        Tok::LParen | Tok::RParen | Tok::LBrace | Tok::RBrace | Tok::LBracket | Tok::RBracket
        | Tok::Semi | Tok::Comma | Tok::Hash | Tok::Eof => None,
        Tok::Num => Some(Colour::Number),
        Tok::Str => Some(Colour::Text),
        Tok::Name => {
            let n: usize = ts.len();
            let prev: Option<Tok> = if i > 0 {
                Some(ts[i - 1].tok)
            } else {
                None
            };
            let next: Option<Tok> = if i + 1 < n {
                Some(ts[i + 1].tok)
            } else {
                None
            };
            if prev == Some(Tok::Fn) {
                Some(Colour::Function)
            } else if next == Some(Tok::ColonColon) {
                Some(Colour::Namespace)
            } else if prev == Some(Tok::Dot) {
                Some(Colour::Property)
            } else if next == Some(Tok::LParen) {
                Some(Colour::Function)
            } else {
                Some(Colour::Variable)
            }
        },
        Tok::Break | Tok::Continue | Tok::Else | Tok::False | Tok::Fn | Tok::For | Tok::If | Tok::In
        | Tok::Let | Tok::Loop | Tok::Match | Tok::Mut | Tok::Nil | Tok::Return | Tok::True
        | Tok::Type | Tok::While => Some(Colour::Keyword),
        _ => Some(Colour::Operator),
    }
}

// ---- where types are written -------------------------------------------------------------

pub open spec fn closes(t: Tok) -> bool {
    t is RParen || t is RBrace || t is RBracket
}

pub open spec fn opens(t: Tok) -> bool {
    t is LParen || t is LBrace || t is LBracket
}

/// Is what opens at place `i` the parameter list of a function?
pub open spec fn opens_params(ks: Seq<Tok>, i: int) -> bool {
    i >= 2 && ks[i - 1] is Name && ks[i - 2] is Fn
}

/// Walking back from a colon: does it introduce a type, or a value of a map?
pub open spec fn types_back(ks: Seq<Tok>, i: nat, depth: nat) -> bool
    decreases i,
{
    if i == 0 {
        false
    } else {
        let t = ks[i - 1];
        let j = (i - 1) as nat;
        if closes(t) {
            types_back(ks, j, depth + 1)
        } else if opens(t) {
            if depth > 0 {
                types_back(ks, j, (depth - 1) as nat)
            } else {
                t is LParen && opens_params(ks, j as int)
            }
        } else if depth == 0 && t is Let {
            true
        } else if depth == 0 && t is Semi {
            false
        } else {
            types_back(ks, j, depth)
        }
    }
}

pub(super) fn closing(t: Tok) -> (r: bool)
    ensures
        r == closes(t),
{
    t == Tok::RParen || t == Tok::RBrace || t == Tok::RBracket
}

pub(super) fn opening(t: Tok) -> (r: bool)
    ensures
        r == opens(t),
{
    t == Tok::LParen || t == Tok::LBrace || t == Tok::LBracket
}

pub(super) fn params_open(ts: &Vec<Lexed>, i: usize) -> (r: bool)
    requires
        i < ts@.len(),
    ensures
        r == opens_params(tokens::kinds(ts@), i as int),
{
    i >= 2 && ts[i - 1].tok == Tok::Name && ts[i - 2].tok == Tok::Fn
}

fn colon_before_a_type(ts: &Vec<Lexed>, colon: usize) -> (r: bool)
    requires
        colon < ts@.len(),
    ensures
        r == types_back(tokens::kinds(ts@), colon as nat, 0),
{
    let ghost ks = tokens::kinds(ts@);
    let mut depth: usize = 0;
    let mut i: usize = colon;
    while i > 0
        invariant
            i <= colon < ts@.len(),
            ks == tokens::kinds(ts@),
            depth <= colon - i,
            types_back(ks, i as nat, depth as nat) == types_back(ks, colon as nat, 0),
        decreases i,
    {
        i = i - 1;
        let t: Tok = ts[i].tok;
        assert(ks[i as int] == t);
        if closing(t) {
            depth = depth + 1;
        } else if opening(t) {
            if depth == 0 {
                return t == Tok::LParen && params_open(ts, i);
            }
            depth = depth - 1;
        } else if depth == 0 && t == Tok::Let {
            return true;
        } else if depth == 0 && t == Tok::Semi {
            return false;
        }
    }
    false
}

/// The names of a type's parameters, marked up to the closing bracket, and
/// where that is.
pub open spec fn marked_params(ks: Seq<Tok>, i: nat, out: Seq<Option<Colour>>) -> (
    Seq<Option<Colour>>,
    nat,
)
    decreases ks.len() - i,
{
    if i >= ks.len() || ks[i as int] is Gt {
        (out, i)
    } else if ks[i as int] is Name {
        marked_params(ks, i + 1, out.update(i as int, Some(Colour::Type)))
    } else {
        marked_params(ks, i + 1, out)
    }
}

/// `type X<T, U>` from the token after `type`: what is marked, and the place
/// after it.
pub open spec fn marked_head(ks: Seq<Tok>, i: nat, out: Seq<Option<Colour>>) -> (
    Seq<Option<Colour>>,
    nat,
) {
    let (named, j) = if tokens::tok_at(ks, i as int) == Some(Tok::Name) {
        (out.update(i as int, Some(Colour::Type)), i + 1)
    } else {
        (out, i)
    };
    if tokens::tok_at(ks, j as int) == Some(Tok::Lt) {
        let (all, k) = marked_params(ks, j + 1, named);
        (all, if k < ks.len() { k + 1 } else { k })
    } else {
        (named, j)
    }
}

pub open spec fn angle_closes(t: Tok) -> bool {
    closes(t) || t is Gt
}

pub open spec fn depth_after(t: Tok, depth: int) -> int {
    if opens(t) || t is Lt {
        depth + 1
    } else if angle_closes(t) {
        depth - 1
    } else {
        depth
    }
}

/// Does a token end the type it stands in, which began at depth `base`?
pub open spec fn ends_type(t: Tok, depth: int, base: int) -> bool {
    t is Assign || t is Semi || (t is Comma && depth == base) || (angle_closes(t) && depth <= base)
}

/// The tokens that stand where a type is written, from place `i` on. A type
/// begins after `type X =`, after `->`, and after a `:` that introduces one;
/// it ends where the thing that holds it does. A name before a colon inside
/// one is a field or an argument.
pub open spec fn type_marks(
    ks: Seq<Tok>,
    i: nat,
    depth: int,
    base: int,
    inside: bool,
    out: Seq<Option<Colour>>,
) -> Seq<Option<Colour>>
    decreases ks.len() - i,
{
    if i >= ks.len() {
        out
    } else {
        let t = ks[i as int];
        if t is Type {
            let (marked, j) = marked_head(ks, i + 1, out);
            if j <= i || j >= ks.len() {
                marked
            } else if tokens::tok_at(ks, j as int) == Some(Tok::Assign) {
                type_marks(ks, j + 1, depth, depth, true, marked)
            } else {
                type_marks(ks, j, depth, base, inside, marked)
            }
        } else if !inside && (t is Arrow || (t is Colon && types_back(ks, i, 0))) {
            type_marks(ks, i + 1, depth, depth, true, out)
        } else {
            let body = t is LBrace && (i == 0 || !(ks[i - 1] is Hash));
            let still = inside && !body;
            let d = depth_after(t, depth);
            let marked = if still && t is Name {
                if tokens::tok_at(ks, i as int + 1) == Some(Tok::Colon) {
                    out.update(i as int, Some(Colour::Property))
                } else {
                    out.update(i as int, Some(Colour::Type))
                }
            } else {
                out
            };
            type_marks(ks, i + 1, d, base, still && !ends_type(t, d, base), marked)
        }
    }
}

pub open spec fn nothing_marked(n: nat) -> Seq<Option<Colour>> {
    Seq::new(n, |i: int| None)
}

fn mark_params(ts: &Vec<Lexed>, from: usize, out: &mut Vec<Option<Colour>>) -> (r: usize)
    requires
        old(out)@.len() == ts@.len(),
        from <= ts@.len(),
    ensures
        (final(out)@, r as nat) == marked_params(tokens::kinds(ts@), from as nat, old(out)@),
        final(out)@.len() == ts@.len(),
        from <= r <= ts@.len(),
{
    let mut i: usize = from;
    while i < ts.len() && ts[i].tok != Tok::Gt
        invariant
            from <= i <= ts@.len(),
            out@.len() == ts@.len(),
            marked_params(tokens::kinds(ts@), i as nat, out@) == marked_params(
                tokens::kinds(ts@),
                from as nat,
                old(out)@,
            ),
        decreases ts@.len() - i,
    {
        if ts[i].tok == Tok::Name {
            out.set(i, Some(Colour::Type));
        }
        i = i + 1;
    }
    i
}

fn mark_head(ts: &Vec<Lexed>, from: usize, out: &mut Vec<Option<Colour>>) -> (r: usize)
    requires
        old(out)@.len() == ts@.len(),
        from <= ts@.len(),
    ensures
        (final(out)@, r as nat) == marked_head(tokens::kinds(ts@), from as nat, old(out)@),
        final(out)@.len() == ts@.len(),
        from <= r <= ts@.len(),
{
    let n: usize = ts.len();
    let mut j: usize = from;
    if kind_at(ts, j) == Some(Tok::Name) {
        out.set(j, Some(Colour::Type));
        j = j + 1;
    }
    if kind_at(ts, j) == Some(Tok::Lt) {
        let k: usize = mark_params(ts, j + 1, out);
        return if k < n {
            k + 1
        } else {
            k
        };
    }
    j
}

/// Which tokens stand where a type is written.
pub fn type_positions(ts: &Vec<Lexed>) -> (r: Vec<Option<Colour>>)
    ensures
        r@ == type_marks(tokens::kinds(ts@), 0, 0, 0, false, nothing_marked(ts@.len())),
        r@.len() == ts@.len(),
{
    let ghost ks = tokens::kinds(ts@);
    let mut out: Vec<Option<Colour>> = Vec::new();
    let mut k: usize = 0;
    while k < ts.len()
        invariant
            k <= ts@.len(),
            out@ == nothing_marked(k as nat),
        decreases ts@.len() - k,
    {
        out.push(None);
        assert(out@ =~= nothing_marked((k + 1) as nat));
        k = k + 1;
    }
    let mut depth: i128 = 0;
    let mut base: i128 = 0;
    let mut inside: bool = false;
    let mut i: usize = 0;
    while i < ts.len()
        invariant
            i <= ts@.len(),
            ks == tokens::kinds(ts@),
            out@.len() == ts@.len(),
            -i <= depth <= i,
            -i <= base <= i,
            type_marks(ks, i as nat, depth as int, base as int, inside, out@) == type_marks(
                ks,
                0,
                0,
                0,
                false,
                nothing_marked(ts@.len()),
            ),
        decreases ts@.len() - i,
    {
        let t: Tok = ts[i].tok;
        assert(ks[i as int] == t);
        if t == Tok::Type {
            let j: usize = mark_head(ts, i + 1, &mut out);
            if kind_at(ts, j) == Some(Tok::Assign) {
                inside = true;
                base = depth;
                i = j + 1;
            } else {
                i = j;
            }
        } else if !inside && (t == Tok::Arrow || (t == Tok::Colon && colon_before_a_type(ts, i))) {
            inside = true;
            base = depth;
            i = i + 1;
        } else {
            if inside && t == Tok::LBrace && (i == 0 || ts[i - 1].tok != Tok::Hash) {
                inside = false;
            }
            let shut: bool = closing(t) || t == Tok::Gt;
            if opening(t) || t == Tok::Lt {
                depth = depth + 1;
            } else if shut {
                depth = depth - 1;
            }
            if inside && t == Tok::Name {
                if kind_at(ts, i + 1) == Some(Tok::Colon) {
                    out.set(i, Some(Colour::Property));
                } else {
                    out.set(i, Some(Colour::Type));
                }
            }
            if inside && (t == Tok::Assign || t == Tok::Semi || (t == Tok::Comma && depth == base)
                || (shut && depth <= base)) {
                inside = false;
            }
            i = i + 1;
        }
    }
    out
}

// ---- everything coloured, in order -------------------------------------------------------

/// The colours of the tokens before place `n`, where they have one.
pub open spec fn token_spans(
    ts: Seq<Lexed>,
    marks: Seq<Option<Colour>>,
    n: nat,
) -> Seq<(Span, Colour)>
    decreases n,
{
    if n == 0 {
        Seq::empty()
    } else {
        let r = token_spans(ts, marks, (n - 1) as nat);
        let c = if marks[n - 1] is Some && ts[n - 1].tok is Name {
            marks[n - 1]
        } else {
            colour_of(tokens::kinds(ts), n - 1)
        };
        match c {
            Some(x) => r.push((ts[n - 1].span, x)),
            None => r,
        }
    }
}

/// Put a span in its place among those before it: after all that start no
/// later.
pub open spec fn put_in(s: Seq<(Span, Colour)>, x: (Span, Colour)) -> Seq<(Span, Colour)>
    decreases s.len(),
{
    if s.len() == 0 || s.last().0.lo <= x.0.lo {
        s.push(x)
    } else {
        put_in(s.drop_last(), x).push(s.last())
    }
}

/// The spans that are not empty, in the order they start.
pub open spec fn ordered(s: Seq<(Span, Colour)>) -> Seq<(Span, Colour)>
    decreases s.len(),
{
    if s.len() == 0 {
        s
    } else if s.last().0.lo < s.last().0.hi {
        put_in(ordered(s.drop_last()), s.last())
    } else {
        ordered(s.drop_last())
    }
}

/// The next newline, or the end of the span.
pub open spec fn line_end(b: Seq<u8>, lo: u32, hi: u32) -> u32
    decreases hi - lo,
{
    if lo >= hi || (lo < b.len() && b[lo as int] == 10) {
        lo
    } else {
        line_end(b, (lo + 1) as u32, hi)
    }
}

/// A span cut at the line ends: what an editor colours may not cross one.
pub open spec fn cut(b: Seq<u8>, lo: u32, hi: u32, c: Colour) -> Seq<(Span, Colour)>
    decreases hi - lo,
{
    if lo >= hi {
        Seq::empty()
    } else {
        let nl = line_end(b, lo, hi);
        let one = if nl > lo {
            seq![(Span { lo, hi: nl }, c)]
        } else {
            Seq::empty()
        };
        if nl >= hi || nl < lo {
            one
        } else {
            one + cut(b, (nl + 1) as u32, hi, c)
        }
    }
}

pub open spec fn all_cut(b: Seq<u8>, s: Seq<(Span, Colour)>) -> Seq<(Span, Colour)>
    decreases s.len(),
{
    if s.len() == 0 {
        Seq::empty()
    } else {
        all_cut(b, s.drop_last()) + cut(b, s.last().0.lo, s.last().0.hi, s.last().1)
    }
}

pub open spec fn comment_spans(cs: Seq<Span>) -> Seq<(Span, Colour)> {
    Seq::new(cs.len(), |i: int| (cs[i], Colour::Comment))
}

/// Every stretch of a file worth colouring, in order.
pub open spec fn coloured_of(ts: Seq<Lexed>, comments: Seq<Span>, s: Seq<char>) -> Seq<
    (Span, Colour),
> {
    let marks = type_marks(tokens::kinds(ts), 0, 0, 0, false, nothing_marked(ts.len()));
    all_cut(
        vstd::utf8::encode_utf8(s),
        ordered(token_spans(ts, marks, ts.len()) + comment_spans(comments)),
    )
}

fn insert_span(s: &mut Vec<(Span, Colour)>, x: (Span, Colour))
    ensures
        final(s)@ == put_in(old(s)@, x),
{
    let ghost all = s@;
    let mut i: usize = s.len();
    assert(all.take(i as int) + all.skip(i as int) =~= all);
    while i > 0 && s[i - 1].0.lo > x.0.lo
        invariant
            i <= s@.len(),
            s@ == all,
            put_in(all.take(i as int), x) + all.skip(i as int) == put_in(all, x),
        decreases i,
    {
        proof {
            let t = all.take(i as int);
            assert(t.drop_last() =~= all.take(i - 1));
            assert(t.last() == all[i - 1]);
            assert(put_in(all.take(i - 1), x).push(all[i - 1]) + all.skip(i as int) =~= put_in(
                all.take(i - 1),
                x,
            ) + all.skip(i - 1));
        }
        i = i - 1;
    }
    proof {
        let t = all.take(i as int);
        if i > 0 {
            assert(t.last() == all[i - 1]);
        }
        assert(put_in(t, x) == t.push(x));
        assert(all.insert(i as int, x) =~= t.push(x) + all.skip(i as int));
    }
    s.insert(i, x);
}

fn cut_span(b: &[u8], span: Span, c: Colour, out: &mut Vec<(Span, Colour)>)
    ensures
        final(out)@ == old(out)@ + cut(b@, span.lo, span.hi, c),
{
    let hi: u32 = span.hi;
    let mut lo: u32 = span.lo;
    while lo < hi
        invariant
            lo <= hi || lo == span.lo,
            hi == span.hi,
            out@ + cut(b@, lo, hi, c) == old(out)@ + cut(b@, span.lo, hi, c),
        decreases hi - lo,
    {
        let ghost before = out@;
        let ghost was = lo;
        let mut nl: u32 = lo;
        while nl < hi && !((nl as usize) < b.len() && b[nl as usize] == 10)
            invariant
                lo <= nl <= hi,
                line_end(b@, nl, hi) == line_end(b@, lo, hi),
            decreases hi - nl,
        {
            nl = nl + 1;
        }
        if nl > lo {
            out.push((Span { lo, hi: nl }, c));
        }
        if nl >= hi {
            assert(out@ + cut(b@, hi, hi, c) =~= before + cut(b@, was, hi, c));
            lo = hi;
        } else {
            assert(out@ + cut(b@, (nl + 1) as u32, hi, c) =~= before + cut(b@, was, hi, c));
            lo = nl + 1;
        }
    }
    assert(out@ + cut(b@, lo, hi, c) =~= out@);
}

pub fn coloured(ts: &Vec<Lexed>, comments: &Vec<Span>, text: &str) -> (r: Vec<(Span, Colour)>)
    ensures
        r@ == coloured_of(ts@, comments@, text@),
{
    let marks = type_positions(ts);
    let ghost ms = marks@;
    let mut order: Vec<(Span, Colour)> = Vec::new();
    let ghost raw = token_spans(ts@, ms, ts@.len()) + comment_spans(comments@);
    let ghost mut seen: nat = 0;
    let mut i: usize = 0;
    assert(token_spans(ts@, ms, 0) =~= Seq::empty());
    while i < ts.len()
        invariant
            i <= ts@.len(),
            ms == marks@,
            ms.len() == ts@.len(),
            order@ == ordered(token_spans(ts@, ms, i as nat)),
        decreases ts@.len() - i,
    {
        let c: Option<Colour> = if marks[i].is_some() && ts[i].tok == Tok::Name {
            marks[i]
        } else {
            token_kind(ts, i)
        };
        let ghost r = token_spans(ts@, ms, i as nat);
        match c {
            Some(x) => {
                let span: Span = ts[i].span;
                assert(r.push((span, x)).drop_last() =~= r);
                if span.lo < span.hi {
                    insert_span(&mut order, (span, x));
                }
            },
            None => {},
        }
        i = i + 1;
    }
    let ghost toks = token_spans(ts@, ms, ts@.len());
    let ghost extra = comment_spans(comments@);
    let mut j: usize = 0;
    assert(toks + extra.take(0) =~= toks);
    while j < comments.len()
        invariant
            j <= comments@.len(),
            extra == comment_spans(comments@),
            order@ == ordered(toks + extra.take(j as int)),
        decreases comments@.len() - j,
    {
        let span: Span = comments[j];
        proof {
            let all = toks + extra.take(j as int + 1);
            assert(all.drop_last() =~= toks + extra.take(j as int));
            assert(all.last() == (span, Colour::Comment));
        }
        if span.lo < span.hi {
            insert_span(&mut order, (span, Colour::Comment));
        }
        j = j + 1;
    }
    assert(extra.take(extra.len() as int) =~= extra);
    let b = text.as_bytes();
    let mut out: Vec<(Span, Colour)> = Vec::new();
    let mut k: usize = 0;
    assert(all_cut(b@, order@.take(0)) =~= Seq::empty());
    while k < order.len()
        invariant
            k <= order@.len(),
            out@ == all_cut(b@, order@.take(k as int)),
        decreases order@.len() - k,
    {
        assert(order@.take(k as int + 1).drop_last() =~= order@.take(k as int));
        assert(order@.take(k as int + 1).last() == order@[k as int]);
        let (span, c): (Span, Colour) = order[k];
        cut_span(b, span, c, &mut out);
        k = k + 1;
    }
    assert(order@.take(order@.len() as int) =~= order@);
    out
}

/// Stretches one after the other, none of them empty.
pub open spec fn strung(s: Seq<(Span, Colour)>) -> bool {
    &&& forall|i: int| 0 <= i < s.len() ==> (#[trigger] s[i]).0.lo < s[i].0.hi
    &&& forall|i: int, j: int|
        0 <= i < j < s.len() ==> (#[trigger] s[i]).0.hi <= (#[trigger] s[j]).0.lo
}

/// Neither of two spans begins inside the other.
pub open spec fn clear_of(a: Span, b: Span) -> bool {
    a.hi <= b.lo || b.hi <= a.lo
}

/// No two of these overlap.
pub open spec fn all_clear(s: Seq<(Span, Colour)>) -> bool {
    forall|i: int, j: int|
        0 <= i < j < s.len() ==> clear_of((#[trigger] s[i]).0, (#[trigger] s[j]).0)
}

/// A stretch with no line end in it.
pub open spec fn on_one_line(b: Seq<u8>, s: Span) -> bool {
    forall|k: int| s.lo <= k < s.hi && k < b.len() ==> #[trigger] b[k] != 10
}

proof fn lemma_put_in(s: Seq<(Span, Colour)>, x: (Span, Colour))
    requires
        strung(s),
        x.0.lo < x.0.hi,
        forall|i: int| 0 <= i < s.len() ==> clear_of((#[trigger] s[i]).0, x.0),
    ensures
        strung(put_in(s, x)),
        forall|i: int|
            0 <= i < put_in(s, x).len() ==> #[trigger] put_in(s, x)[i] == x || s.contains(
                put_in(s, x)[i],
            ),
    decreases s.len(),
{
    let r = put_in(s, x);
    if s.len() == 0 || s.last().0.lo <= x.0.lo {
        assert forall|i: int, j: int| 0 <= i < j < r.len() implies (#[trigger] r[i]).0.hi <= (
        #[trigger] r[j]).0.lo by {
            if j == s.len() {
                assert(clear_of(s[i].0, x.0));
                if i < s.len() - 1 {
                    assert(s[i].0.hi <= s[s.len() - 1].0.lo);
                } else {
                    assert(s[i].0.lo < s[i].0.hi);
                }
            }
        }
        assert forall|i: int| 0 <= i < r.len() implies #[trigger] r[i] == x || s.contains(r[i]) by {
            if i < s.len() {
                assert(s[i] == r[i]);
            }
        }
    } else {
        let front = s.drop_last();
        let rest = put_in(front, x);
        assert forall|i: int| 0 <= i < front.len() implies clear_of((#[trigger] front[i]).0, x.0) by {
            assert(front[i] == s[i]);
        }
        lemma_put_in(front, x);
        let last = s.last();
        assert(clear_of(s[s.len() - 1].0, x.0));
        assert(s[s.len() - 1].0.lo < s[s.len() - 1].0.hi);
        assert forall|i: int, j: int| 0 <= i < j < r.len() implies (#[trigger] r[i]).0.hi <= (
        #[trigger] r[j]).0.lo by {
            if j == rest.len() {
                assert(rest[i] == r[i]);
                if rest[i] != x {
                    let k = choose|k: int| 0 <= k < front.len() && front[k] == rest[i];
                    assert(s[k].0.hi <= s[s.len() - 1].0.lo);
                }
            } else {
                assert(rest[i] == r[i] && rest[j] == r[j]);
            }
        }
        assert forall|i: int| 0 <= i < r.len() implies (#[trigger] r[i]).0.lo < r[i].0.hi by {
            if i < rest.len() {
                assert(rest[i] == r[i]);
            }
        }
        assert forall|i: int| 0 <= i < r.len() implies #[trigger] r[i] == x || s.contains(r[i]) by {
            if i < rest.len() {
                assert(rest[i] == r[i]);
                if rest[i] != x {
                    let k = choose|k: int| 0 <= k < front.len() && front[k] == rest[i];
                    assert(s[k] == r[i]);
                }
            } else {
                assert(s[s.len() - 1] == r[i]);
            }
        }
    }
}

proof fn lemma_ordered(s: Seq<(Span, Colour)>)
    requires
        all_clear(s),
    ensures
        strung(ordered(s)),
        forall|i: int| 0 <= i < ordered(s).len() ==> s.contains(#[trigger] ordered(s)[i]),
    decreases s.len(),
{
    if s.len() > 0 {
        let front = s.drop_last();
        let x = s.last();
        assert forall|i: int, j: int| 0 <= i < j < front.len() implies clear_of(
            (#[trigger] front[i]).0,
            (#[trigger] front[j]).0,
        ) by {
            assert(front[i] == s[i] && front[j] == s[j]);
        }
        lemma_ordered(front);
        let o = ordered(front);
        assert forall|i: int| 0 <= i < o.len() implies clear_of((#[trigger] o[i]).0, x.0)
            && s.contains(o[i]) by {
            let k = choose|k: int| 0 <= k < front.len() && front[k] == o[i];
            assert(front.contains(o[i]));
            assert(s[k] == o[i]);
            assert(clear_of(s[k].0, s[s.len() - 1].0));
        }
        if x.0.lo < x.0.hi {
            lemma_put_in(o, x);
            assert(s[s.len() - 1] == x);
            assert forall|i: int| 0 <= i < put_in(o, x).len() implies s.contains(
                #[trigger] put_in(o, x)[i],
            ) by {
                let y = put_in(o, x)[i];
                if y != x {
                    let k = choose|k: int| 0 <= k < o.len() && o[k] == y;
                    assert(s.contains(o[k]));
                }
            }
        }
    }
}

proof fn lemma_line_end(b: Seq<u8>, lo: u32, hi: u32)
    requires
        lo <= hi,
    ensures
        lo <= line_end(b, lo, hi) <= hi,
        on_one_line(b, Span { lo, hi: line_end(b, lo, hi) }),
    decreases hi - lo,
{
    if !(lo >= hi || (lo < b.len() && b[lo as int] == 10)) {
        lemma_line_end(b, (lo + 1) as u32, hi);
    }
}

proof fn lemma_cut(b: Seq<u8>, lo: u32, hi: u32, c: Colour)
    ensures
        strung(cut(b, lo, hi, c)),
        forall|i: int|
            0 <= i < cut(b, lo, hi, c).len() ==> lo <= (#[trigger] cut(b, lo, hi, c)[i]).0.lo && cut(
                b,
                lo,
                hi,
                c,
            )[i].0.hi <= hi && on_one_line(b, cut(b, lo, hi, c)[i].0),
    decreases hi - lo,
{
    if lo < hi {
        lemma_line_end(b, lo, hi);
        let nl = line_end(b, lo, hi);
        if nl < hi {
            lemma_cut(b, (nl + 1) as u32, hi, c);
        }
    }
}

proof fn lemma_all_cut(b: Seq<u8>, s: Seq<(Span, Colour)>)
    requires
        strung(s),
    ensures
        strung(all_cut(b, s)),
        forall|i: int|
            0 <= i < all_cut(b, s).len() ==> on_one_line(b, (#[trigger] all_cut(b, s)[i]).0),
        forall|i: int|
            0 <= i < all_cut(b, s).len() && s.len() > 0 ==> (#[trigger] all_cut(b, s)[i]).0.hi
                <= s.last().0.hi,
    decreases s.len(),
{
    if s.len() > 0 {
        let front = s.drop_last();
        assert(strung(front)) by {
            assert forall|i: int| 0 <= i < front.len() implies (#[trigger] front[i]).0.lo
                < front[i].0.hi by {
                assert(front[i] == s[i]);
            }
            assert forall|i: int, j: int| 0 <= i < j < front.len() implies (
            #[trigger] front[i]).0.hi <= (#[trigger] front[j]).0.lo by {
                assert(front[i] == s[i] && front[j] == s[j]);
            }
        }
        lemma_all_cut(b, front);
        let x = s.last();
        assert(s[s.len() - 1] == x);
        lemma_cut(b, x.0.lo, x.0.hi, x.1);
        let u = all_cut(b, front);
        let v = cut(b, x.0.lo, x.0.hi, x.1);
        let r = u + v;
        assert(front.len() > 0 ==> front.last().0.hi <= x.0.lo) by {
            if front.len() > 0 {
                assert(s[s.len() - 2].0.hi <= s[s.len() - 1].0.lo);
            }
        }
        assert forall|i: int| 0 <= i < r.len() implies on_one_line(b, (#[trigger] r[i]).0) && r[i].0.hi
            <= x.0.hi && r[i].0.lo < r[i].0.hi by {
            if i < u.len() {
                assert(r[i] == u[i]);
            } else {
                assert(r[i] == v[i - u.len()]);
            }
        }
        assert forall|i: int, j: int| 0 <= i < j < r.len() implies (#[trigger] r[i]).0.hi <= (
        #[trigger] r[j]).0.lo by {
            if j < u.len() {
                assert(r[i] == u[i] && r[j] == u[j]);
            } else if i >= u.len() {
                assert(r[i] == v[i - u.len()] && r[j] == v[j - u.len()]);
            } else {
                assert(r[i] == u[i] && r[j] == v[j - u.len()]);
            }
        }
    }
}

/// Where no two tokens or comments overlap, what is coloured comes in order,
/// none of it is empty, and none of it crosses a line end.
pub proof fn lemma_coloured_in_order(ts: Seq<Lexed>, comments: Seq<Span>, s: Seq<char>)
    requires
        ({
            let marks = type_marks(tokens::kinds(ts), 0, 0, 0, false, nothing_marked(ts.len()));
            all_clear(token_spans(ts, marks, ts.len()) + comment_spans(comments))
        }),
    ensures
        strung(coloured_of(ts, comments, s)),
        forall|i: int|
            0 <= i < coloured_of(ts, comments, s).len() ==> on_one_line(
                vstd::utf8::encode_utf8(s),
                (#[trigger] coloured_of(ts, comments, s)[i]).0,
            ),
{
    let marks = type_marks(tokens::kinds(ts), 0, 0, 0, false, nothing_marked(ts.len()));
    let all = token_spans(ts, marks, ts.len()) + comment_spans(comments);
    lemma_ordered(all);
    lemma_all_cut(vstd::utf8::encode_utf8(s), ordered(all));
}

// ---- on the wire -------------------------------------------------------------------------

/// A coloured stretch of one line.
#[derive(Clone, Copy, Debug, PartialEq, Eq, Structural)]
pub struct Stretch {
    pub at: Position,
    pub length: u32,
    pub colour: Colour,
}

/// The same, told from where the one before it starts.
#[derive(Clone, Copy, Debug, PartialEq, Eq, Structural)]
pub struct Delta {
    pub line: u32,
    pub start: u32,
    pub length: u32,
    pub colour: Colour,
}

pub open spec fn comes_after(a: Position, b: Position) -> bool {
    a.line < b.line || (a.line == b.line && a.character <= b.character)
}

pub open spec fn in_reading_order(s: Seq<Stretch>) -> bool {
    forall|i: int, j: int|
        0 <= i < j < s.len() ==> comes_after((#[trigger] s[i]).at, (#[trigger] s[j]).at)
}

pub open spec fn delta_from(last: Position, s: Stretch) -> Delta {
    Delta {
        line: (s.at.line - last.line) as u32,
        start: if s.at.line == last.line {
            (s.at.character - last.character) as u32
        } else {
            s.at.character
        },
        length: s.length,
        colour: s.colour,
    }
}

pub open spec fn place_before(s: Seq<Stretch>, i: int) -> Position {
    if i == 0 {
        Position { line: 0, character: 0 }
    } else {
        s[i - 1].at
    }
}

pub open spec fn deltas_of(s: Seq<Stretch>) -> Seq<Delta> {
    Seq::new(s.len(), |i: int| delta_from(place_before(s, i), s[i]))
}

/// What an editor makes of the numbers it is sent.
pub open spec fn read_deltas(d: Seq<Delta>) -> Seq<Stretch>
    decreases d.len(),
{
    if d.len() == 0 {
        Seq::empty()
    } else {
        let front = read_deltas(d.drop_last());
        let x = d.last();
        let last = if front.len() == 0 {
            Position { line: 0, character: 0 }
        } else {
            front.last().at
        };
        front.push(
            Stretch {
                at: Position {
                    line: (last.line + x.line) as u32,
                    character: if x.line == 0 {
                        (last.character + x.start) as u32
                    } else {
                        x.start
                    },
                },
                length: x.length,
                colour: x.colour,
            },
        )
    }
}

pub fn deltas(s: &Vec<Stretch>) -> (r: Vec<Delta>)
    requires
        in_reading_order(s@),
    ensures
        r@ == deltas_of(s@),
{
    let mut out: Vec<Delta> = Vec::new();
    let mut last: Position = Position { line: 0, character: 0 };
    let mut i: usize = 0;
    while i < s.len()
        invariant
            i <= s@.len(),
            in_reading_order(s@),
            last == place_before(s@, i as int),
            out@ == deltas_of(s@).take(i as int),
        decreases s@.len() - i,
    {
        let x: Stretch = s[i];
        assert(i > 0 ==> comes_after(s@[i - 1].at, s@[i as int].at));
        let line: u32 = x.at.line - last.line;
        let start: u32 = if line == 0 {
            x.at.character - last.character
        } else {
            x.at.character
        };
        out.push(Delta { line, start, length: x.length, colour: x.colour });
        assert(out@ =~= deltas_of(s@).take(i as int + 1));
        last = x.at;
        i = i + 1;
    }
    assert(out@ =~= deltas_of(s@));
    out
}

/// Does each stretch come after the one before it?
pub fn reads_in_order(s: &Vec<Stretch>) -> (r: bool)
    ensures
        r == in_reading_order(s@),
{
    let mut i: usize = 1;
    while i < s.len()
        invariant
            1 <= i,
            forall|a: int, b: int|
                0 <= a < b < i && b < s@.len() ==> comes_after(
                    (#[trigger] s@[a]).at,
                    (#[trigger] s@[b]).at,
                ),
        decreases s@.len() - i,
    {
        let x: Position = s[i - 1].at;
        let y: Position = s[i].at;
        if !(x.line < y.line || (x.line == y.line && x.character <= y.character)) {
            assert(!comes_after(s@[i - 1].at, s@[i as int].at));
            return false;
        }
        assert forall|a: int, b: int| 0 <= a < b < i + 1 && b < s@.len() implies comes_after(
            (#[trigger] s@[a]).at,
            (#[trigger] s@[b]).at,
        ) by {
            if b == i && a < i - 1 {
                assert(comes_after(s@[a].at, s@[i - 1].at));
            }
        }
        i = i + 1;
    }
    true
}

/// An editor reads back what it was told.
pub proof fn lemma_deltas_round_trip(s: Seq<Stretch>)
    requires
        in_reading_order(s),
    ensures
        read_deltas(deltas_of(s)) == s,
    decreases s.len(),
{
    if s.len() > 0 {
        let front = s.drop_last();
        assert forall|i: int, j: int| 0 <= i < j < front.len() implies comes_after(
            (#[trigger] front[i]).at,
            (#[trigger] front[j]).at,
        ) by {
            assert(comes_after(s[i].at, s[j].at));
        }
        lemma_deltas_round_trip(front);
        assert(deltas_of(s).drop_last() =~= deltas_of(front));
        if s.len() > 1 {
            assert(comes_after(s[s.len() - 2].at, s[s.len() - 1].at));
        }
        assert(read_deltas(deltas_of(s)) =~= s);
    } else {
        assert(read_deltas(deltas_of(s)) =~= s);
    }
}

/// A span as a stretch of its line.
pub open spec fn stretch_of(text: Seq<char>, x: (Span, Colour)) -> Stretch {
    let at = index::position_of(text, x.0.lo);
    let end = index::position_of(text, x.0.hi);
    Stretch { at, length: (end.character - at.character) as u32, colour: x.1 }
}

/// Is a span written on one line of a text, between characters?
pub open spec fn fits_line(text: Seq<char>, s: Span) -> bool {
    &&& index::on_boundary(text, s.lo)
    &&& index::on_boundary(text, s.hi)
    &&& index::position_of(text, s.lo).line == index::position_of(text, s.hi).line
    &&& index::position_of(text, s.lo).character <= index::position_of(text, s.hi).character
}

/// The stretches of some spans, each of one line.
pub fn stretches(lines: &LineIndex, spans: &Vec<(Span, Colour)>) -> (r: Vec<Stretch>)
    requires
        lines.wf(),
        forall|i: int| 0 <= i < spans@.len() ==> fits_line(lines@, (#[trigger] spans@[i]).0),
    ensures
        r@ == Seq::new(spans@.len(), |i: int| stretch_of(lines@, spans@[i])),
{
    let ghost want = Seq::new(spans@.len(), |i: int| stretch_of(lines@, spans@[i]));
    let mut out: Vec<Stretch> = Vec::new();
    let mut i: usize = 0;
    while i < spans.len()
        invariant
            i <= spans@.len(),
            lines.wf(),
            forall|k: int| 0 <= k < spans@.len() ==> fits_line(lines@, (#[trigger] spans@[k]).0),
            want == Seq::new(spans@.len(), |k: int| stretch_of(lines@, spans@[k])),
            out@ == want.take(i as int),
        decreases spans@.len() - i,
    {
        let (span, colour): (Span, Colour) = spans[i];
        assert(fits_line(lines@, spans@[i as int].0));
        let at: Position = lines.position(span.lo);
        let end: Position = lines.position(span.hi);
        out.push(Stretch { at, length: end.character - at.character, colour });
        assert(out@ =~= want.take(i as int + 1));
        i = i + 1;
    }
    assert(out@ =~= want);
    out
}

/// An editor tells colours apart by their numbers.
pub proof fn lemma_colours_differ(a: Colour, b: Colour)
    ensures
        a == b <==> colour_number(a) == colour_number(b),
{
}

/// What a name is can be seen from what stands beside it: after `fn` or before a bracket
/// it is a function, before `::` a module, after a dot a field, and otherwise a
/// variable. A word of the language is coloured as one wherever it stands.
pub proof fn lemma_names_by_their_place(ks: Seq<Tok>, i: int)
    requires
        0 < i,
        i + 1 < ks.len(),
    ensures
        ks[i] is Name && ks[i - 1] is Fn ==> colour_of(ks, i) == Some(Colour::Function),
        ks[i] is Name && !(ks[i - 1] is Fn) && ks[i + 1] is ColonColon ==> colour_of(ks, i) == Some(
            Colour::Namespace,
        ),
        ks[i] is Name && ks[i - 1] is Dot && !(ks[i + 1] is ColonColon) ==> colour_of(ks, i) == Some(
            Colour::Property,
        ),
        ks[i] is Name && !(ks[i - 1] is Dot) && !(ks[i - 1] is Fn) && ks[i + 1] is LParen
            ==> colour_of(ks, i) == Some(Colour::Function),
        ks[i] is Name && !(ks[i - 1] is Dot) && !(ks[i - 1] is Fn) && !(ks[i + 1] is LParen) && !(
        ks[i + 1] is ColonColon) ==> colour_of(ks, i) == Some(Colour::Variable),
        ks[i] is Let || ks[i] is Fn || ks[i] is If || ks[i] is While || ks[i] is Return || ks[i] is Match
            ==> colour_of(ks, i) == Some(Colour::Keyword),
        ks[i] is Num ==> colour_of(ks, i) == Some(Colour::Number),
        ks[i] is Str ==> colour_of(ks, i) == Some(Colour::Text),
        ks[i] is Operator || ks[i] is Assign || ks[i] is Lt || ks[i] is Gt ==> colour_of(ks, i) == Some(
            Colour::Operator,
        ),
{
}

} // verus!
