//! The tokens of a file, as the editor's questions need them.
use crate::ast::Span;
use vstd::prelude::*;

verus! {

/// What a token is. The operators that nothing here asks about are one kind.
#[derive(Clone, Copy, Debug, PartialEq, Eq, Structural)]
pub enum Tok {
    Eof,
    Num,
    Str,
    Name,
    Break,
    Continue,
    Else,
    False,
    Fn,
    For,
    If,
    In,
    Let,
    Loop,
    Match,
    Mut,
    Nil,
    Return,
    True,
    Type,
    While,
    LParen,
    RParen,
    LBrace,
    RBrace,
    LBracket,
    RBracket,
    Semi,
    Comma,
    Hash,
    ColonColon,
    Colon,
    Dot,
    Arrow,
    Assign,
    Lt,
    Gt,
    Operator,
}

/// A token: what it is, the name or text it holds, and where it is written.
pub struct Lexed {
    pub tok: Tok,
    pub text: String,
    pub span: Span,
}

/// What each of some tokens is.
pub open spec fn kinds(ts: Seq<Lexed>) -> Seq<Tok> {
    Seq::new(ts.len(), |i: int| ts[i].tok)
}

/// The token at a place, if there is one.
pub open spec fn tok_at(ks: Seq<Tok>, i: int) -> Option<Tok> {
    if 0 <= i < ks.len() {
        Some(ks[i])
    } else {
        None
    }
}

pub(super) fn kind_at(ts: &Vec<Lexed>, i: usize) -> (r: Option<Tok>)
    ensures
        r == tok_at(kinds(ts@), i as int),
{
    if i < ts.len() {
        Some(ts[i].tok)
    } else {
        None
    }
}

/// Does a span hold this byte?
pub open spec fn within(s: Span, at: u32) -> bool {
    s.lo <= at < s.hi
}

pub(super) fn is_within(s: Span, at: u32) -> (r: bool)
    ensures
        r == within(s, at),
{
    s.lo <= at && at < s.hi
}

/// The first token a byte falls in.
pub open spec fn token_under(ts: Seq<Lexed>, at: u32, i: nat) -> Option<nat>
    decreases ts.len() - i,
{
    if i >= ts.len() {
        None
    } else if within(ts[i as int].span, at) {
        Some(i)
    } else {
        token_under(ts, at, i + 1)
    }
}

pub fn find_under(ts: &Vec<Lexed>, at: u32) -> (r: Option<usize>)
    ensures
        match r {
            Some(i) => token_under(ts@, at, 0) == Some(i as nat) && i < ts@.len(),
            None => token_under(ts@, at, 0) is None,
        },
{
    let mut i: usize = 0;
    while i < ts.len()
        invariant
            i <= ts@.len(),
            token_under(ts@, at, i as nat) == token_under(ts@, at, 0),
        decreases ts@.len() - i,
    {
        if is_within(ts[i].span, at) {
            return Some(i);
        }
        i = i + 1;
    }
    None
}

/// The last token before place `i` that ends at or before a byte, but for the
/// end of the file.
pub open spec fn token_before(ts: Seq<Lexed>, at: u32, i: nat) -> Option<nat>
    decreases i,
{
    if i == 0 {
        None
    } else if ts[i - 1].span.hi <= at && ts[i - 1].tok != Tok::Eof {
        Some((i - 1) as nat)
    } else {
        token_before(ts, at, (i - 1) as nat)
    }
}

pub(super) fn find_before(ts: &Vec<Lexed>, at: u32) -> (r: Option<usize>)
    ensures
        match r {
            Some(i) => token_before(ts@, at, ts@.len()) == Some(i as nat) && i < ts@.len(),
            None => token_before(ts@, at, ts@.len()) is None,
        },
{
    let mut i: usize = ts.len();
    while i > 0
        invariant
            i <= ts@.len(),
            token_before(ts@, at, i as nat) == token_before(ts@, at, ts@.len()),
        decreases i,
    {
        i = i - 1;
        if ts[i].span.hi <= at && ts[i].tok != Tok::Eof {
            return Some(i);
        }
    }
    None
}

} // verus!
