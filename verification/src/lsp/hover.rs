//! What to say about the token under the cursor.
use super::facts;
use super::facts::Types;
use super::names::Occurrence;
use super::say;
use super::tokens::{Lexed, Tok};
use super::words;
use crate::builtin::tables;
use crate::text;
use vstd::prelude::*;

verus! {

/// A name the runtime provides, and what is in it if it is a module.
pub struct Provided {
    pub name: String,
    pub members: Option<Vec<String>>,
}

/// The first thing provided under a name.
pub open spec fn provided(ps: Seq<Provided>, name: Seq<char>, i: nat) -> Option<Provided>
    decreases ps.len() - i,
{
    if i >= ps.len() {
        None
    } else if ps[i as int].name@ == name {
        Some(ps[i as int])
    } else {
        provided(ps, name, i + 1)
    }
}

/// The names in a module, if that is what a name is.
pub open spec fn members_of(ps: Seq<Provided>, name: Seq<char>) -> Option<Seq<Seq<char>>> {
    match provided(ps, name, 0) {
        Some(p) => match p.members {
            Some(ms) => Some(tables::texts(ms@)),
            None => None,
        },
        None => None,
    }
}

fn find_provided<'a>(ps: &'a Vec<Provided>, name: &str) -> (r: Option<&'a Provided>)
    ensures
        match r {
            Some(p) => provided(ps@, name@, 0) == Some(*p),
            None => provided(ps@, name@, 0) is None,
        },
{
    let mut i: usize = 0;
    while i < ps.len()
        invariant
            i <= ps@.len(),
            provided(ps@, name@, i as nat) == provided(ps@, name@, 0),
        decreases ps@.len() - i,
    {
        if text::same(ps[i].name.as_str(), name) {
            return Some(&ps[i]);
        }
        i = i + 1;
    }
    None
}

pub fn members<'a>(ps: &'a Vec<Provided>, name: &str) -> (r: Option<&'a Vec<String>>)
    ensures
        match r {
            Some(ms) => members_of(ps@, name@) == Some(tables::texts(ms@)),
            None => members_of(ps@, name@) is None,
        },
{
    match find_provided(ps, name) {
        Some(p) => match &p.members {
            Some(ms) => Some(ms),
            None => None,
        },
        None => None,
    }
}

/// What the runtime says about a name: the module in front says which table to
/// look in.
pub open spec fn said_by_runtime(ts: Seq<Lexed>, i: int, ps: Seq<Provided>) -> Option<Seq<char>> {
    let name = ts[i].text@;
    let module = if i >= 2 && ts[i - 1].tok is ColonColon && ts[i - 2].tok is Name {
        members_of(ps, ts[i - 2].text@)
    } else {
        None
    };
    match module {
        Some(ms) => Some(say::member_said(ts[i - 2].text@, name, ms)),
        None => match members_of(ps, name) {
            Some(ms) => Some(say::module_said(name, ms)),
            None => if provided(ps, name, 0) is Some {
                Some(say::global_said(name))
            } else {
                None
            },
        },
    }
}

/// What is said about a token: about a keyword what it does, about a name what
/// the file says of it, and what the runtime does if the file says nothing.
pub open spec fn described(
    ts: Seq<Lexed>,
    i: int,
    fs: Seq<facts::FactView>,
    os: Seq<Occurrence>,
    ps: Seq<Provided>,
) -> Option<Seq<char>> {
    match words::keyword_words(ts[i].tok) {
        Some(s) => Some(s),
        None => if ts[i].tok is Name {
            match say::said_here(fs, os, ts[i].text@, ts[i].span) {
                Some(s) => Some(s),
                None => said_by_runtime(ts, i, ps),
            }
        } else {
            None
        },
    }
}

fn runtime_says(ts: &Vec<Lexed>, i: usize, ps: &Vec<Provided>) -> (r: Option<String>)
    requires
        i < ts@.len(),
    ensures
        match r {
            Some(s) => said_by_runtime(ts@, i as int, ps@) == Some(s@),
            None => said_by_runtime(ts@, i as int, ps@) is None,
        },
{
    let name = ts[i].text.as_str();
    if i >= 2 && ts[i - 1].tok == Tok::ColonColon && ts[i - 2].tok == Tok::Name {
        let module = ts[i - 2].text.as_str();
        match members(ps, module) {
            Some(ms) => {
                return Some(say::say_member(module, name, ms));
            },
            None => {},
        }
    }
    match members(ps, name) {
        Some(ms) => Some(say::say_module(name, ms)),
        None => match find_provided(ps, name) {
            Some(_) => Some(say::say_global(name)),
            None => None,
        },
    }
}

pub fn describe(
    ts: &Vec<Lexed>,
    i: usize,
    known: &Types,
    os: &Vec<Occurrence>,
    ps: &Vec<Provided>,
) -> (r: Option<String>)
    requires
        i < ts@.len(),
    ensures
        match r {
            Some(s) => described(ts@, i as int, known@, os@, ps@) == Some(s@),
            None => described(ts@, i as int, known@, os@, ps@) is None,
        },
{
    match words::keyword_doc(ts[i].tok) {
        Some(s) => {
            return Some(text::owned(s));
        },
        None => {},
    }
    if ts[i].tok != Tok::Name {
        return None;
    }
    match say::what_the_file_says(known, os, ts[i].text.as_str(), ts[i].span) {
        Some(s) => Some(s),
        None => runtime_says(ts, i, ps),
    }
}

/// What is provided under a name has that name, and is found wherever it stands.
pub proof fn lemma_provided(ps: Seq<Provided>, name: Seq<char>, i: nat)
    ensures
        match provided(ps, name, i) {
            Some(p) => p.name@ == name && ps.contains(p),
            None => forall|k: int| i <= k < ps.len() ==> (#[trigger] ps[k]).name@ != name,
        },
    decreases ps.len() - i,
{
    if i < ps.len() && ps[i as int].name@ != name {
        lemma_provided(ps, name, i + 1);
    }
}

/// About a keyword what it does is said, and about a name what this file says of it
/// before what the runtime does.
pub proof fn lemma_what_is_said(
    ts: Seq<Lexed>,
    i: int,
    fs: Seq<facts::FactView>,
    os: Seq<Occurrence>,
    ps: Seq<Provided>,
)
    ensures
        words::keyword_words(ts[i].tok) is Some ==> described(ts, i, fs, os, ps)
            == words::keyword_words(ts[i].tok),
        words::keyword_words(ts[i].tok) is None && ts[i].tok is Name && say::said_here(
            fs,
            os,
            ts[i].text@,
            ts[i].span,
        ) is Some ==> described(ts, i, fs, os, ps) == say::said_here(
            fs,
            os,
            ts[i].text@,
            ts[i].span,
        ),
        words::keyword_words(ts[i].tok) is None && !(ts[i].tok is Name) ==> described(
            ts,
            i,
            fs,
            os,
            ps,
        ) is None,
{
}

} // verus!
