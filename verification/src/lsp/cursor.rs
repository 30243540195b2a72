//! Where the cursor stands, which decides whether a suggestion is help or
//! noise.
use super::calls;
use super::colours;
use super::colours::{closing, opening, params_open};
use super::index;
use super::index::LineIndex;
use super::tokens;
use super::tokens::{find_before, is_within, Lexed, Tok};
use crate::ast::Span;
use crate::text;
use vstd::prelude::*;

verus! {

/// Where the cursor is.
pub enum Where {
    /// Inside a comment. Nothing belongs here.
    Comment,
    /// Inside a string, outside any `{}` in it.
    Text,
    /// Inside the string `require` is being given.
    Require(String),
    /// After `mod::`.
    Member(String),
    /// After a `.`.
    Method,
    /// Naming something that does not exist yet, after `fn` or `let`.
    Naming,
    /// Where a type is written: after a `:`, after a `->`, or in a `type`.
    TypeName,
    /// Inside `#{ }` where the shape is known: the fields it should have.
    Field(String),
    /// An argument of a call: which function, and which parameter.
    Argument(String, usize),
    /// Anywhere a value could be written.
    Expression,
}

pub ghost enum WhereView {
    Comment,
    Text,
    Require(Seq<char>),
    Member(Seq<char>),
    Method,
    Naming,
    TypeName,
    Field(Seq<char>),
    Argument(Seq<char>, nat),
    Expression,
}

impl View for Where {
    type V = WhereView;

    open spec fn view(&self) -> WhereView {
        match *self {
            Where::Comment => WhereView::Comment,
            Where::Text => WhereView::Text,
            Where::Require(s) => WhereView::Require(s@),
            Where::Member(s) => WhereView::Member(s@),
            Where::Method => WhereView::Method,
            Where::Naming => WhereView::Naming,
            Where::TypeName => WhereView::TypeName,
            Where::Field(s) => WhereView::Field(s@),
            Where::Argument(s, n) => WhereView::Argument(s@, n as nat),
            Where::Expression => WhereView::Expression,
        }
    }
}

// ---- inside a string ---------------------------------------------------------------------

/// How many `{` of a string's text are still open, from place `i` on. `{{`
/// and `}}` are how a literal brace is written, so neither opens nor closes
/// one, and what a `\` stands before is not looked at.
pub open spec fn open_braces(s: Seq<char>, i: nat, depth: int) -> int
    decreases s.len() - i,
{
    if i >= s.len() {
        depth
    } else {
        let c = s[i as int];
        let doubled = i + 1 < s.len() && s[i as int + 1] == c;
        if c == '\\' || ((c == '{' || c == '}') && doubled) {
            if i + 2 <= s.len() {
                open_braces(s, i + 2, depth)
            } else {
                depth
            }
        } else if c == '{' {
            open_braces(s, i + 1, depth + 1)
        } else if c == '}' {
            open_braces(s, i + 1, depth - 1)
        } else {
            open_braces(s, i + 1, depth)
        }
    }
}

/// Is the end of this string's text inside a `{...}`?
pub fn in_interpolation(body: &str) -> (r: bool)
    ensures
        r == (open_braces(body@, 0, 0) > 0),
{
    let s = text::chars_of(body);
    let n: usize = s.len();
    let mut depth: i128 = 0;
    let mut i: usize = 0;
    while i < n
        invariant
            i <= n,
            n == s@.len(),
            s@ == body@,
            -i <= depth <= i,
            open_braces(s@, i as nat, depth as int) == open_braces(s@, 0, 0),
        decreases n - i,
    {
        let c: char = s[i];
        let doubled: bool = i < n - 1 && s[i + 1] == c;
        if c == '\\' || ((c == '{' || c == '}') && doubled) {
            if i >= n - 1 {
                return depth > 0;
            }
            i = i + 2;
        } else {
            if c == '{' {
                depth = depth + 1;
            } else if c == '}' {
                depth = depth - 1;
            }
            i = i + 1;
        }
    }
    depth > 0
}

/// A text without the quotes it starts with.
pub open spec fn unquoted(s: Seq<char>) -> Seq<char>
    decreases s.len(),
{
    if s.len() > 0 && s[0] == '"' {
        unquoted(s.drop_first())
    } else {
        s
    }
}

fn without_quotes(s: &str) -> (r: String)
    ensures
        r@ == unquoted(s@),
{
    let cs = text::chars_of(s);
    let mut i: usize = 0;
    assert(cs@.skip(0) =~= s@);
    while i < cs.len() && cs[i] == '"'
        invariant
            i <= cs@.len(),
            cs@ == s@,
            unquoted(cs@.skip(i as int)) == unquoted(s@),
        decreases cs@.len() - i,
    {
        assert(cs@.skip(i as int).drop_first() =~= cs@.skip(i as int + 1));
        i = i + 1;
    }
    let n: usize = cs.len();
    assert(cs@.subrange(i as int, n as int) =~= cs@.skip(i as int));
    text::string_of(&cs, i, n)
}

/// The first token of a kind that the cursor is inside, or just past.
pub open spec fn touched(ts: Seq<Lexed>, kind: Tok, at: u32, i: nat) -> Option<nat>
    decreases ts.len() - i,
{
    if i >= ts.len() {
        None
    } else if ts[i as int].tok == kind && ts[i as int].span.lo < at && at <= ts[i as int].span.hi {
        Some(i)
    } else {
        touched(ts, kind, at, i + 1)
    }
}

fn find_touched(ts: &Vec<Lexed>, kind: Tok, at: u32) -> (r: Option<usize>)
    ensures
        match r {
            Some(i) => touched(ts@, kind, at, 0) == Some(i as nat) && i < ts@.len()
                && ts@[i as int].tok == kind && ts@[i as int].span.lo < at,
            None => touched(ts@, kind, at, 0) is None,
        },
{
    let mut i: usize = 0;
    while i < ts.len()
        invariant
            i <= ts@.len(),
            touched(ts@, kind, at, i as nat) == touched(ts@, kind, at, 0),
        decreases ts@.len() - i,
    {
        if ts[i].tok == kind && ts[i].span.lo < at && at <= ts[i].span.hi {
            return Some(i);
        }
        i = i + 1;
    }
    None
}

pub open spec fn in_comment(cs: Seq<Span>, at: u32) -> bool {
    exists|i: int| 0 <= i < cs.len() && ((#[trigger] cs[i]).hi == at || tokens::within(cs[i], at))
}

fn is_in_comment(cs: &Vec<Span>, at: u32) -> (r: bool)
    ensures
        r == in_comment(cs@, at),
{
    let mut i: usize = 0;
    while i < cs.len()
        invariant
            i <= cs@.len(),
            forall|k: int| 0 <= k < i ==> (#[trigger] cs@[k]).hi != at && !tokens::within(cs@[k], at),
        decreases cs@.len() - i,
    {
        if is_within(cs[i], at) || cs[i].hi == at {
            assert(cs@[i as int].hi == at || tokens::within(cs@[i as int], at));
            return true;
        }
        i = i + 1;
    }
    false
}

/// Is the string at place `i` what `require` is given?
pub open spec fn opens_require(ts: Seq<Lexed>, i: int) -> bool {
    i >= 2 && ts[i - 1].tok is LParen && ts[i - 2].tok is Name && ts[i - 2].text@ == "require"@
}

// ---- where a type is written -------------------------------------------------------------

/// Is this position inside a `type X = ...`?
pub open spec fn in_type_declaration(ks: Seq<Tok>, i: nat) -> bool
    decreases i,
{
    if i == 0 {
        false
    } else {
        let t = ks[i - 1];
        if t is Type {
            true
        } else if t is Semi || t is Let || t is Fn || t is RBrace {
            false
        } else {
            in_type_declaration(ks, (i - 1) as nat)
        }
    }
}

/// Walking back from a `:`, which writes a type in a binding and a value in a
/// map literal: which one it is depends on what opened before it.
pub open spec fn introduces_type(ks: Seq<Tok>, i: nat, depth: nat) -> bool
    decreases i,
{
    if i == 0 {
        false
    } else {
        let t = ks[i - 1];
        let j = (i - 1) as nat;
        if colours::closes(t) {
            introduces_type(ks, j, depth + 1)
        } else if colours::opens(t) {
            if depth > 0 {
                introduces_type(ks, j, (depth - 1) as nat)
            } else if t is LParen {
                colours::opens_params(ks, j as int)
            } else if t is LBrace {
                j > 0 && ks[j - 1] is Hash && in_type_declaration(ks, j)
            } else {
                false
            }
        } else if depth == 0 && (t is Semi || t is Let || t is Type) {
            !(t is Semi)
        } else {
            introduces_type(ks, j, depth)
        }
    }
}

/// Is the token after `b` a type rather than a value?
pub open spec fn type_follows(ks: Seq<Tok>, b: nat) -> bool
    decreases b,
{
    let t = ks[b as int];
    if t is Arrow {
        true
    } else if t is Assign {
        b >= 2 && ks[b - 2] is Type
    } else if t is Colon {
        introduces_type(ks, b, 0)
    } else if t is Comma || t is LBracket || t is Lt {
        b > 0 && type_follows(ks, (b - 1) as nat)
    } else {
        false
    }
}

fn in_a_type_declaration(ts: &Vec<Lexed>, from: usize) -> (r: bool)
    requires
        from <= ts@.len(),
    ensures
        r == in_type_declaration(tokens::kinds(ts@), from as nat),
{
    let ghost ks = tokens::kinds(ts@);
    let mut i: usize = from;
    while i > 0
        invariant
            i <= from <= ts@.len(),
            ks == tokens::kinds(ts@),
            in_type_declaration(ks, i as nat) == in_type_declaration(ks, from as nat),
        decreases i,
    {
        i = i - 1;
        match ts[i].tok {
            Tok::Type => {
                return true;
            },
            Tok::Semi | Tok::Let | Tok::Fn | Tok::RBrace => {
                return false;
            },
            _ => {},
        }
    }
    false
}

fn colon_introduces_a_type(ts: &Vec<Lexed>, colon: usize) -> (r: bool)
    requires
        colon < ts@.len(),
    ensures
        r == introduces_type(tokens::kinds(ts@), colon as nat, 0),
{
    let ghost ks = tokens::kinds(ts@);
    let mut depth: usize = 0;
    let mut i: usize = colon;
    while i > 0
        invariant
            i <= colon < ts@.len(),
            ks == tokens::kinds(ts@),
            depth <= colon - i,
            introduces_type(ks, i as nat, depth as nat) == introduces_type(ks, colon as nat, 0),
        decreases i,
    {
        i = i - 1;
        let t: Tok = ts[i].tok;
        assert(ks[i as int] == t);
        if closing(t) {
            depth = depth + 1;
        } else if opening(t) {
            if depth == 0 {
                return match t {
                    Tok::LParen => params_open(ts, i),
                    Tok::LBrace => i > 0 && ts[i - 1].tok == Tok::Hash && in_a_type_declaration(ts, i),
                    _ => false,
                };
            }
            depth = depth - 1;
        } else if depth == 0 && (t == Tok::Semi || t == Tok::Let || t == Tok::Type) {
            return t != Tok::Semi;
        }
    }
    false
}

pub fn writing_a_type(ts: &Vec<Lexed>, b: usize) -> (r: bool)
    requires
        b < ts@.len(),
    ensures
        r == type_follows(tokens::kinds(ts@), b as nat),
    decreases b,
{
    match ts[b].tok {
        Tok::Arrow => true,
        Tok::Assign => b >= 2 && ts[b - 2].tok == Tok::Type,
        Tok::Colon => colon_introduces_a_type(ts, b),
        Tok::Comma | Tok::LBracket | Tok::Lt => b > 0 && writing_a_type(ts, b - 1),
        _ => false,
    }
}

// ---- inside a call or a record -----------------------------------------------------------

/// The commas between two places, but for those inside brackets of their own.
pub open spec fn commas_between(ks: Seq<Tok>, i: nat, to: nat, inner: int) -> nat
    decreases to - i,
{
    if i >= to {
        0
    } else {
        let t = ks[i as int];
        let rest = commas_between(
            ks,
            i + 1,
            to,
            if colours::opens(t) {
                inner + 1
            } else if colours::closes(t) {
                inner - 1
            } else {
                inner
            },
        );
        if t is Comma && inner == 0 {
            rest + 1
        } else {
            rest
        }
    }
}

/// The name written after a `:`, walking back from an `=` to the `let`.
pub open spec fn shape_before(ts: Seq<Lexed>, i: nat) -> Option<Seq<char>>
    decreases i,
{
    if i == 0 {
        None
    } else {
        let t = ts[i - 1].tok;
        if t is Name && i > 1 && ts[i - 2].tok is Colon {
            Some(ts[i - 1].text@)
        } else if t is Let || t is Semi {
            None
        } else {
            shape_before(ts, (i - 1) as nat)
        }
    }
}

/// The name of the shape a `#{` is being written as: from the annotation on
/// the binding it is assigned to.
pub open spec fn map_shape(ts: Seq<Lexed>, hash: nat) -> Option<Seq<char>> {
    if hash >= 2 && ts[hash - 1].tok is Assign {
        shape_before(ts, (hash - 1) as nat)
    } else {
        None
    }
}

/// Walking back from the cursor: the call or the record it is inside.
pub open spec fn enclosing(ts: Seq<Lexed>, from: nat, i: nat, depth: int) -> Option<WhereView>
    decreases i,
{
    if i == 0 {
        None
    } else {
        let j = (i - 1) as nat;
        let t = ts[j as int].tok;
        if colours::closes(t) {
            enclosing(ts, from, j, depth + 1)
        } else if t is LBrace && depth == 0 && j > 0 && ts[j - 1].tok is Hash {
            match map_shape(ts, (j - 1) as nat) {
                Some(s) => Some(WhereView::Field(s)),
                None => None,
            }
        } else if t is LParen && depth == 0 {
            if j > 0 && ts[j - 1].tok is Name {
                Some(
                    WhereView::Argument(
                        ts[j - 1].text@,
                        commas_between(tokens::kinds(ts), j + 1, from, 0),
                    ),
                )
            } else {
                None
            }
        } else if colours::opens(t) {
            enclosing(ts, from, j, depth - 1)
        } else if (t is Semi || t is Fn) && depth == 0 {
            None
        } else {
            enclosing(ts, from, j, depth)
        }
    }
}

fn count_commas(ts: &Vec<Lexed>, from: usize, to: usize) -> (r: usize)
    requires
        from <= to <= ts@.len(),
    ensures
        r == commas_between(tokens::kinds(ts@), from as nat, to as nat, 0),
{
    let ghost ks = tokens::kinds(ts@);
    let mut inner: i128 = 0;
    let mut count: usize = 0;
    let mut i: usize = from;
    while i < to
        invariant
            from <= i <= to <= ts@.len(),
            ks == tokens::kinds(ts@),
            count <= i - from,
            -i <= inner <= i,
            count + commas_between(ks, i as nat, to as nat, inner as int) == commas_between(
                ks,
                from as nat,
                to as nat,
                0,
            ),
        decreases to - i,
    {
        let t: Tok = ts[i].tok;
        assert(ks[i as int] == t);
        if t == Tok::Comma && inner == 0 {
            count = count + 1;
        }
        if opening(t) {
            inner = inner + 1;
        } else if closing(t) {
            inner = inner - 1;
        }
        i = i + 1;
    }
    count
}

fn shape_of_map_at(ts: &Vec<Lexed>, hash: usize) -> (r: Option<String>)
    requires
        hash < ts@.len(),
    ensures
        match r {
            Some(s) => map_shape(ts@, hash as nat) == Some(s@),
            None => map_shape(ts@, hash as nat) is None,
        },
{
    if hash >= 2 && ts[hash - 1].tok == Tok::Assign {
        let mut i: usize = hash - 1;
        while i > 0
            invariant
                i <= hash - 1,
                2 <= hash < ts@.len(),
                ts@[hash - 1].tok is Assign,
                shape_before(ts@, i as nat) == shape_before(ts@, (hash - 1) as nat),
            decreases i,
        {
            i = i - 1;
            match ts[i].tok {
                Tok::Name => {
                    if i > 0 && ts[i - 1].tok == Tok::Colon {
                        return Some(text::owned(ts[i].text.as_str()));
                    }
                },
                Tok::Let | Tok::Semi => {
                    return None;
                },
                _ => {},
            }
        }
    }
    None
}

/// Does an answer say what the model does?
pub open spec fn answers(r: Option<Where>, v: Option<WhereView>) -> bool {
    match r {
        Some(w) => v == Some(w@),
        None => v is None,
    }
}

fn inside_a_call_or_record(ts: &Vec<Lexed>, from: usize) -> (r: Option<Where>)
    requires
        from <= ts@.len(),
    ensures
        answers(r, enclosing(ts@, from as nat, from as nat, 0)),
{
    let mut depth: i128 = 0;
    let mut i: usize = from;
    while i > 0
        invariant
            i <= from <= ts@.len(),
            i - from <= depth <= from - i,
            enclosing(ts@, from as nat, i as nat, depth as int) == enclosing(
                ts@,
                from as nat,
                from as nat,
                0,
            ),
        decreases i,
    {
        i = i - 1;
        let t: Tok = ts[i].tok;
        if closing(t) {
            depth = depth + 1;
        } else if t == Tok::LBrace && depth == 0 && i > 0 && ts[i - 1].tok == Tok::Hash {
            return match shape_of_map_at(ts, i - 1) {
                Some(s) => Some(Where::Field(s)),
                None => None,
            };
        } else if t == Tok::LParen && depth == 0 {
            if i > 0 && ts[i - 1].tok == Tok::Name {
                return Some(
                    Where::Argument(
                        text::owned(ts[i - 1].text.as_str()),
                        count_commas(ts, i + 1, from),
                    ),
                );
            }
            return None;
        } else if opening(t) {
            depth = depth - 1;
        } else if (t == Tok::Semi || t == Tok::Fn) && depth == 0 {
            return None;
        }
    }
    None
}

// ---- all of it ---------------------------------------------------------------------------

/// Where the cursor stands among the tokens before place `from`, the last of
/// which is `b`.
pub open spec fn where_after(ts: Seq<Lexed>, b: nat, from: nat) -> WhereView {
    if type_follows(tokens::kinds(ts), b) {
        WhereView::TypeName
    } else {
        match enclosing(ts, from, from, 0) {
            Some(w) => w,
            None => {
                let t = ts[b as int].tok;
                if t is ColonColon && b > 0 && ts[b - 1].tok is Name {
                    WhereView::Member(ts[b - 1].text@)
                } else if t is Dot {
                    WhereView::Method
                } else if t is Fn || t is Let || (t is Mut && b > 0 && ts[b - 1].tok is Let) {
                    WhereView::Naming
                } else {
                    WhereView::Expression
                }
            },
        }
    }
}

/// Where the cursor stands in code. A name it is in the middle of is the one
/// being typed, and what counts is what is before that.
pub open spec fn where_in_code(ts: Seq<Lexed>, at: u32) -> WhereView {
    match touched(ts, Tok::Name, at, 0) {
        Some(i) => if i > 0 {
            where_after(ts, (i - 1) as nat, i)
        } else {
            WhereView::Expression
        },
        None => match tokens::token_before(ts, at, ts.len()) {
            Some(b) => where_after(ts, b, b + 1),
            None => WhereView::Expression,
        },
    }
}

/// Where the cursor stands in a file.
pub open spec fn where_of(ts: Seq<Lexed>, comments: Seq<Span>, s: Seq<char>, at: u32) -> WhereView {
    if in_comment(comments, at) {
        WhereView::Comment
    } else {
        match touched(ts, Tok::Str, at, 0) {
            Some(i) => {
                let body = index::between_of(s, ts[i as int].span.lo, at);
                if open_braces(body, 0, 0) > 0 {
                    where_in_code(ts, at)
                } else if opens_require(ts, i as int) {
                    WhereView::Require(unquoted(body))
                } else {
                    WhereView::Text
                }
            },
            None => where_in_code(ts, at),
        }
    }
}

fn after(ts: &Vec<Lexed>, b: usize, from: usize) -> (r: Where)
    requires
        b < ts@.len(),
        from <= ts@.len(),
    ensures
        r@ == where_after(ts@, b as nat, from as nat),
{
    if writing_a_type(ts, b) {
        return Where::TypeName;
    }
    match inside_a_call_or_record(ts, from) {
        Some(w) => {
            return w;
        },
        None => {},
    }
    match ts[b].tok {
        Tok::ColonColon => {
            if b > 0 && ts[b - 1].tok == Tok::Name {
                Where::Member(text::owned(ts[b - 1].text.as_str()))
            } else {
                Where::Expression
            }
        },
        Tok::Dot => Where::Method,
        Tok::Fn | Tok::Let => Where::Naming,
        Tok::Mut => {
            if b > 0 && ts[b - 1].tok == Tok::Let {
                Where::Naming
            } else {
                Where::Expression
            }
        },
        _ => Where::Expression,
    }
}

fn in_code(ts: &Vec<Lexed>, at: u32) -> (r: Where)
    ensures
        r@ == where_in_code(ts@, at),
{
    let n: usize = ts.len();
    match find_touched(ts, Tok::Name, at) {
        Some(i) => {
            if i > 0 {
                after(ts, i - 1, i)
            } else {
                Where::Expression
            }
        },
        None => match find_before(ts, at) {
            Some(b) => {
                assert(b < n);
                after(ts, b, b + 1)
            },
            None => Where::Expression,
        },
    }
}

/// Work out where the cursor is standing.
pub fn where_is(ts: &Vec<Lexed>, comments: &Vec<Span>, lines: &LineIndex, at: u32) -> (r: Where)
    requires
        lines.wf(),
        index::on_boundary(lines@, at),
        forall|i: int|
            0 <= i < ts@.len() ==> index::on_boundary(lines@, (#[trigger] ts@[i]).span.lo),
    ensures
        r@ == where_of(ts@, comments@, lines@, at),
{
    if is_in_comment(comments, at) {
        return Where::Comment;
    }
    match find_touched(ts, Tok::Str, at) {
        Some(i) => {
            assert(index::on_boundary(lines@, ts@[i as int].span.lo));
            let body = lines.between(ts[i].span.lo, at);
            if !in_interpolation(body.as_str()) {
                if i >= 2 && ts[i - 1].tok == Tok::LParen && ts[i - 2].tok == Tok::Name && text::same(
                    ts[i - 2].text.as_str(),
                    "require",
                ) {
                    return Where::Require(without_quotes(body.as_str()));
                }
                return Where::Text;
            }
        },
        None => {},
    }
    in_code(ts, at)
}

// ---- what is known of a place ---------------------------------------------------------------

/// Inside the brackets of a call, the cursor is in an argument of that call: the one
/// after as many commas.
pub proof fn lemma_inside_a_call(ts: Seq<Lexed>, open: nat, from: nat)
    requires
        0 < open < from <= ts.len(),
        ts[open as int].tok is LParen,
        ts[open as int - 1].tok is Name,
        forall|j: int| open < j < from ==> calls::inside_arguments((#[trigger] ts[j]).tok),
    ensures
        enclosing(ts, from, from, 0) == Some(
            WhereView::Argument(
                ts[open as int - 1].text@,
                calls::commas(tokens::kinds(ts), open + 1, from),
            ),
        ),
{
    let ks = tokens::kinds(ts);
    lemma_back_to(ts, open, from, from);
    assert forall|j: int| open + 1 <= j < from implies calls::inside_arguments(
        #[trigger] ks[j],
    ) by {
        assert(ks[j] == ts[j].tok);
    }
    lemma_commas(ks, open + 1, open + 1, from);
}

proof fn lemma_back_to(ts: Seq<Lexed>, open: nat, from: nat, i: nat)
    requires
        0 < open < i <= from <= ts.len(),
        ts[open as int].tok is LParen,
        ts[open as int - 1].tok is Name,
        forall|j: int| open < j < from ==> calls::inside_arguments((#[trigger] ts[j]).tok),
    ensures
        enclosing(ts, from, i, 0) == Some(
            WhereView::Argument(
                ts[open as int - 1].text@,
                commas_between(tokens::kinds(ts), open + 1, from, 0),
            ),
        ),
    decreases i,
{
    if i > open + 1 {
        assert(calls::inside_arguments(ts[i - 1].tok));
        lemma_back_to(ts, open, from, (i - 1) as nat);
    }
}

proof fn lemma_commas(ks: Seq<Tok>, from: nat, i: nat, to: nat)
    requires
        from <= i <= to <= ks.len(),
        forall|j: int| from <= j < to ==> calls::inside_arguments(#[trigger] ks[j]),
    ensures
        calls::commas(ks, from, i) + commas_between(ks, i, to, 0) == calls::commas(ks, from, to),
    decreases to - i,
{
    if i < to {
        assert(calls::inside_arguments(ks[i as int]));
        lemma_commas(ks, from, i + 1, to);
    }
}

/// In a comment nothing else counts; in a text that is not code, either; and in code
/// what stands before the cursor says what is wanted: after a dot a method, after a
/// module and `::` a member of that module, after `let` or `fn` a name of one's own.
pub proof fn lemma_what_is_wanted(
    ts: Seq<Lexed>,
    comments: Seq<Span>,
    s: Seq<char>,
    at: u32,
    b: nat,
    from: nat,
)
    requires
        b < ts.len(),
    ensures
        in_comment(comments, at) ==> where_of(ts, comments, s, at) is Comment,
        !in_comment(comments, at) && touched(ts, Tok::Str, at, 0) is None ==> where_of(
            ts,
            comments,
            s,
            at,
        ) == where_in_code(ts, at),
        enclosing(ts, from, from, 0) is None ==> {
            let w = where_after(ts, b, from);
            &&& ts[b as int].tok is Dot ==> w is Method
            &&& ts[b as int].tok is ColonColon && b > 0 && ts[b - 1].tok is Name ==> w
                == WhereView::Member(ts[b - 1].text@)
            &&& ts[b as int].tok is Let || ts[b as int].tok is Fn ==> w is Naming
            &&& ts[b as int].tok is Arrow ==> w is TypeName
            &&& ts[b as int].tok is Operator ==> w is Expression
        },
{
    assert(tokens::kinds(ts)[b as int] == ts[b as int].tok);
}

/// In a text the cursor is in code where more braces have been opened than closed.
pub proof fn lemma_braces(s: Seq<char>, i: nat, depth: int)
    requires
        i < s.len(),
    ensures
        s[i as int] != '{' && s[i as int] != '}' && s[i as int] != '\\' ==> open_braces(s, i, depth)
            == open_braces(s, i + 1, depth),
        s[i as int] == '{' && !(i + 1 < s.len() && s[i as int + 1] == '{') ==> open_braces(s, i, depth)
            == open_braces(s, i + 1, depth + 1),
        s[i as int] == '{' && i + 1 < s.len() && s[i as int + 1] == '{' ==> open_braces(s, i, depth)
            == open_braces(s, i + 2, depth),
{
}

} // verus!
