//! What is said about the name under the cursor.
use super::facts;
use super::facts::{Signature, Types};
use super::names;
use super::names::Occurrence;
use super::types;
use super::words;
use crate::ast::{Name, Span, Type};
use crate::builtin::tables;
use crate::text;
use vstd::prelude::*;

verus! {

/// A stretch of code, set apart.
pub open spec fn code(s: Seq<char>) -> Seq<char> {
    "```rust\n"@ + s + "\n```"@
}

fn coded(s: &str) -> (r: String)
    ensures
        r@ == code(s@),
{
    let mut out = text::owned("```rust\n");
    out.append(s);
    out.append("\n```");
    out
}

pub open spec fn shown(t: Type) -> Seq<char> {
    types::type_text(types::type_view(t))
}

/// A type, followed down to the shape it stands for when that says more than
/// the name does.
pub open spec fn explained(fs: Seq<facts::FactView>, t: Type) -> Seq<char> {
    let full = types::type_text(facts::filled(fs, t));
    if full == shown(t) {
        full
    } else {
        "`"@ + shown(t) + "` is `"@ + full + "`"@
    }
}

pub fn explain(known: &Types, t: &Type) -> (r: String)
    ensures
        r@ == explained(known@, *t),
{
    let filled = known.instantiate(t);
    let full = types::text_of(&filled);
    let short = types::text_of(t);
    if text::same(full.as_str(), short.as_str()) {
        return full;
    }
    let mut out = text::owned("`");
    out.append(short.as_str());
    out.append("` is `");
    out.append(full.as_str());
    out.append("`");
    out
}

pub open spec fn name_texts(ns: Seq<Name>) -> Seq<Seq<char>> {
    Seq::new(ns.len(), |i: int| ns[i].text@)
}

fn texts_of_names(ns: &Vec<Name>) -> (r: Vec<String>)
    ensures
        tables::texts(r@) == name_texts(ns@),
{
    let mut out: Vec<String> = Vec::new();
    let mut i: usize = 0;
    assert(tables::texts(out@) =~= name_texts(ns@).take(0));
    while i < ns.len()
        invariant
            i <= ns@.len(),
            tables::texts(out@) == name_texts(ns@).take(i as int),
        decreases ns@.len() - i,
    {
        let ghost before = tables::texts(out@);
        out.push(text::owned(ns[i].text.as_str()));
        assert(tables::texts(out@) =~= before.push(ns@[i as int].text@));
        assert(tables::texts(out@) =~= name_texts(ns@).take(i as int + 1));
        i = i + 1;
    }
    assert(tables::texts(out@) =~= name_texts(ns@));
    out
}

/// A type's own name: what it stands for, with its parameters.
pub open spec fn alias_said(name: Seq<char>, params: Seq<Name>, body: Type) -> Seq<char> {
    let head = if params.len() == 0 {
        name
    } else {
        name + "<"@ + tables::joined(name_texts(params), ", "@) + ">"@
    };
    code("type "@ + head + " = "@ + shown(body))
}

fn say_alias(name: &str, params: &Vec<Name>, body: &Type) -> (r: String)
    ensures
        r@ == alias_said(name@, params@, *body),
{
    let mut out = text::owned("type ");
    out.append(name);
    if params.len() > 0 {
        let inside = texts_of_names(params);
        out.append("<");
        out.append(tables::join(&inside, ", ").as_str());
        out.append(">");
    }
    out.append(" = ");
    out.append(types::text_of(body).as_str());
    proof {
        let head = if params@.len() == 0 {
            name@
        } else {
            name@ + "<"@ + tables::joined(name_texts(params@), ", "@) + ">"@
        };
        assert(out@ =~= "type "@ + head + " = "@ + shown(*body));
    }
    coded(out.as_str())
}

/// What is said of each parameter that has a type.
pub open spec fn params_said(fs: Seq<facts::FactView>, ps: Seq<Name>) -> Seq<Seq<char>>
    decreases ps.len(),
{
    if ps.len() == 0 {
        Seq::empty()
    } else {
        let rest = params_said(fs, ps.drop_last());
        match ps.last().ty {
            Some(t) => rest.push("- `"@ + ps.last().text@ + "` — "@ + explained(fs, *t)),
            None => rest,
        }
    }
}

fn say_params(known: &Types, ps: &Vec<Name>) -> (r: Vec<String>)
    ensures
        tables::texts(r@) == params_said(known@, ps@),
{
    let mut out: Vec<String> = Vec::new();
    let mut i: usize = 0;
    assert(tables::texts(out@) =~= params_said(known@, ps@.take(0)));
    while i < ps.len()
        invariant
            i <= ps@.len(),
            tables::texts(out@) == params_said(known@, ps@.take(i as int)),
        decreases ps@.len() - i,
    {
        let ghost before = tables::texts(out@);
        assert(ps@.take(i as int + 1).drop_last() =~= ps@.take(i as int));
        assert(ps@.take(i as int + 1).last() == ps@[i as int]);
        match &ps[i].ty {
            Some(t) => {
                let mut one = text::owned("- `");
                one.append(ps[i].text.as_str());
                one.append("` — ");
                one.append(explain(known, t).as_str());
                let ghost line = one@;
                out.push(one);
                assert(tables::texts(out@) =~= before.push(line));
                assert(line =~= "- `"@ + ps@[i as int].text@ + "` — "@ + explained(known@, **t));
            },
            None => {},
        }
        i = i + 1;
    }
    assert(ps@.take(ps@.len() as int) =~= ps@);
    out
}

/// A function written here: its whole signature, and what its arguments are.
pub open spec fn function_said(
    fs: Seq<facts::FactView>,
    name: Seq<char>,
    params: Seq<Name>,
    ret: Option<Type>,
) -> Seq<char> {
    let head = code("fn "@ + facts::label_of(name, params, ret));
    let lines = params_said(fs, params);
    if lines.len() == 0 {
        head
    } else {
        head + "\n\n"@ + tables::joined(lines, "\n"@)
    }
}

fn say_function(known: &Types, sig: &Signature) -> (r: String)
    ensures
        r@ == function_said(known@, sig.name@, sig.params@, *sig.ret),
{
    let mut head = text::owned("fn ");
    head.append(sig.label().as_str());
    let mut out = coded(head.as_str());
    let lines = say_params(known, sig.params);
    assert(lines@.len() == params_said(known@, sig.params@).len()) by {
        assert(tables::texts(lines@).len() == lines@.len());
    }
    if lines.len() > 0 {
        out.append("\n\n");
        out.append(tables::join(&lines, "\n").as_str());
    }
    out
}

/// The first mention written at a span.
pub open spec fn written_at(os: Seq<Occurrence>, span: Span, i: nat) -> Option<Span>
    decreases os.len() - i,
{
    if i >= os.len() {
        None
    } else if os[i as int].span == span {
        os[i as int].decl
    } else {
        written_at(os, span, i + 1)
    }
}

fn find_written(os: &Vec<Occurrence>, span: Span) -> (r: Option<Span>)
    ensures
        r == written_at(os@, span, 0),
{
    let mut i: usize = 0;
    while i < os.len()
        invariant
            i <= os@.len(),
            written_at(os@, span, i as nat) == written_at(os@, span, 0),
        decreases os@.len() - i,
    {
        if os[i].span == span {
            return os[i].decl;
        }
        i = i + 1;
    }
    None
}

/// What a file itself says about a name: the shape it stands for, the
/// signature it was declared with, or the type written beside it.
pub open spec fn said_here(
    fs: Seq<facts::FactView>,
    os: Seq<Occurrence>,
    name: Seq<char>,
    span: Span,
) -> Option<Seq<char>> {
    match facts::alias_of(fs, name) {
        Some((params, body)) => Some(alias_said(name, params@, body)),
        None => match facts::function_of(fs, name, 0) {
            Some((params, ret)) => Some(function_said(fs, name, params@, ret)),
            None => match written_at(os, span, 0) {
                Some(decl) => match facts::type_at(fs, decl) {
                    Some(t) => Some(code(name + ": "@ + shown(t)) + "\n\n"@ + explained(fs, t)),
                    None => None,
                },
                None => None,
            },
        },
    }
}

pub fn what_the_file_says(
    known: &Types,
    os: &Vec<Occurrence>,
    name: &str,
    span: Span,
) -> (r: Option<String>)
    ensures
        match r {
            Some(s) => said_here(known@, os@, name@, span) == Some(s@),
            None => said_here(known@, os@, name@, span) is None,
        },
{
    match known.alias(name) {
        Some(body) => match known.type_params(name) {
            Some(params) => {
                return Some(say_alias(name, params, body));
            },
            None => {},
        },
        None => {},
    }
    match known.function(name) {
        Some(sig) => {
            return Some(say_function(known, &sig));
        },
        None => {},
    }
    match find_written(os, span) {
        Some(decl) => match known.at(decl) {
            Some(t) => {
                let mut head = text::owned(name);
                head.append(": ");
                head.append(types::text_of(t).as_str());
                let mut out = coded(head.as_str());
                out.append("\n\n");
                out.append(explain(known, t).as_str());
                Some(out)
            },
            None => None,
        },
        None => None,
    }
}

// ---- the runtime's own names -------------------------------------------------------------

/// `fs::read`: the module in front says which table to look in.
pub open spec fn member_said(module: Seq<char>, name: Seq<char>, members: Seq<Seq<char>>) -> Seq<
    char,
> {
    if members.contains(name) {
        code(module + "::"@ + name) + "\n\nfrom the `"@ + module + "` module."@
    } else {
        "`"@ + name + "` is not in `"@ + module + "`."@
    }
}

pub fn say_member(module: &str, name: &str, members: &Vec<String>) -> (r: String)
    ensures
        r@ == member_said(module@, name@, tables::texts(members@)),
{
    if words::has_word(members, name) {
        let mut path = text::owned(module);
        path.append("::");
        path.append(name);
        let mut out = coded(path.as_str());
        out.append("\n\nfrom the `");
        out.append(module);
        out.append("` module.");
        out
    } else {
        let mut out = text::owned("`");
        out.append(name);
        out.append("` is not in `");
        out.append(module);
        out.append("`.");
        out
    }
}

pub open spec fn member_lines(module: Seq<char>, members: Seq<Seq<char>>) -> Seq<Seq<char>> {
    Seq::new(members.len(), |i: int| "- `"@ + module + "::"@ + members[i] + "`"@)
}

/// A module, and all that is in it in order.
pub open spec fn module_said(module: Seq<char>, members: Seq<Seq<char>>) -> Seq<char> {
    code(module) + "\n\nA module of "@ + text::decimal(members.len()) + " names:\n\n"@
        + tables::joined(member_lines(module, words::sorted_words(members)), "\n"@)
}

pub fn say_module(module: &str, members: &Vec<String>) -> (r: String)
    ensures
        r@ == module_said(module@, tables::texts(members@)),
{
    let ordered = words::sorted(members);
    let ghost want = member_lines(module@, words::sorted_words(tables::texts(members@)));
    let mut lines: Vec<String> = Vec::new();
    let mut i: usize = 0;
    assert(tables::texts(lines@) =~= want.take(0));
    while i < ordered.len()
        invariant
            i <= ordered@.len(),
            want == member_lines(module@, tables::texts(ordered@)),
            tables::texts(lines@) == want.take(i as int),
        decreases ordered@.len() - i,
    {
        let ghost before = tables::texts(lines@);
        let mut one = text::owned("- `");
        one.append(module);
        one.append("::");
        one.append(ordered[i].as_str());
        one.append("`");
        let ghost line = one@;
        lines.push(one);
        assert(tables::texts(lines@) =~= before.push(line));
        assert(line =~= want[i as int]);
        assert(tables::texts(lines@) =~= want.take(i as int + 1));
        i = i + 1;
    }
    assert(tables::texts(lines@) =~= want);
    let mut out = coded(module);
    out.append("\n\nA module of ");
    text::push_decimal(&mut out, members.len() as u64);
    out.append(" names:\n\n");
    out.append(tables::join(&lines, "\n").as_str());
    out
}

pub open spec fn global_said(name: Seq<char>) -> Seq<char> {
    code(name) + "\n\nA name the runtime provides."@
}

pub fn say_global(name: &str) -> (r: String)
    ensures
        r@ == global_said(name@),
{
    let mut out = coded(name);
    out.append("\n\nA name the runtime provides.");
    out
}

} // verus!
