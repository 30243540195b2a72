//! Names: where each was declared, and what else means the same thing.
use super::tokens;
use super::tokens::is_within;
use super::words;
use crate::ast::Span;
use crate::text;
use vstd::prelude::*;

verus! {

/// One mention of a name, as the resolver understood it.
pub struct Occurrence {
    pub name: String,
    /// What sort of name it is: a local, a capture or a global.
    pub kind: u8,
    pub span: Span,
    /// Where it was declared, if that is in this file.
    pub decl: Option<Span>,
}

/// A cursor resting just past the last character of a name is still on it,
/// which is where it lands after typing one.
pub open spec fn touches(s: Span, at: u32) -> bool {
    tokens::within(s, at) || s.hi == at
}

/// The first mention a byte touches.
pub open spec fn mention_at(os: Seq<Occurrence>, at: u32, i: nat) -> Option<nat>
    decreases os.len() - i,
{
    if i >= os.len() {
        None
    } else if touches(os[i as int].span, at) {
        Some(i)
    } else {
        mention_at(os, at, i + 1)
    }
}

pub fn find_at(os: &Vec<Occurrence>, at: u32) -> (r: Option<usize>)
    ensures
        match r {
            Some(i) => mention_at(os@, at, 0) == Some(i as nat) && i < os@.len(),
            None => mention_at(os@, at, 0) is None,
        },
{
    let mut i: usize = 0;
    while i < os.len()
        invariant
            i <= os@.len(),
            mention_at(os@, at, i as nat) == mention_at(os@, at, 0),
        decreases os@.len() - i,
    {
        if is_within(os[i].span, at) || os[i].span.hi == at {
            return Some(i);
        }
        i = i + 1;
    }
    None
}

/// Does a mention mean what the target means? A declaration in this file is
/// the identity; a name with none is matched by its spelling and sort, since
/// there is nothing else to go on.
pub open spec fn means(target: Occurrence, o: Occurrence) -> bool {
    match target.decl {
        Some(d) => o.decl == Some(d),
        None => o.name@ == target.name@ && o.kind == target.kind,
    }
}

/// Where the first `n` mentions that mean the same are written.
pub open spec fn mentions(os: Seq<Occurrence>, target: Occurrence, n: nat) -> Seq<Span>
    decreases n,
{
    if n == 0 {
        Seq::empty()
    } else {
        let rest = mentions(os, target, (n - 1) as nat);
        if means(target, os[n - 1]) {
            rest.push(os[n - 1].span)
        } else {
            rest
        }
    }
}

fn same_thing(os: &Vec<Occurrence>, target: usize) -> (r: Vec<Span>)
    requires
        target < os@.len(),
    ensures
        r@ == mentions(os@, os@[target as int], os@.len()),
{
    let mut out: Vec<Span> = Vec::new();
    let mut i: usize = 0;
    while i < os.len()
        invariant
            i <= os@.len(),
            target < os@.len(),
            out@ == mentions(os@, os@[target as int], i as nat),
        decreases os@.len() - i,
    {
        let same: bool = match os[target].decl {
            Some(d) => os[i].decl == Some(d),
            None => text::same(os[i].name.as_str(), os[target].name.as_str()) && os[i].kind
                == os[target].kind,
        };
        if same {
            out.push(os[i].span);
        }
        i = i + 1;
    }
    out
}

pub open spec fn definition_of(os: Seq<Occurrence>, at: u32) -> Option<Span> {
    match mention_at(os, at, 0) {
        Some(i) => os[i as int].decl,
        None => None,
    }
}

/// Where the name under the cursor was declared.
pub fn definition_at(os: &Vec<Occurrence>, at: u32) -> (r: Option<Span>)
    ensures
        r == definition_of(os@, at),
{
    match find_at(os, at) {
        Some(i) => os[i].decl,
        None => None,
    }
}

pub open spec fn references_of(os: Seq<Occurrence>, at: u32) -> Seq<Span> {
    match mention_at(os, at, 0) {
        Some(i) => mentions(os, os[i as int], os.len()),
        None => Seq::empty(),
    }
}

/// Every mention of the thing under the cursor, which is not every mention of
/// the same spelling.
pub fn references_at(os: &Vec<Occurrence>, at: u32) -> (r: Vec<Span>)
    ensures
        r@ == references_of(os@, at),
{
    match find_at(os, at) {
        Some(i) => same_thing(os, i),
        None => Vec::new(),
    }
}

pub open spec fn renamable(os: Seq<Occurrence>, at: u32) -> Option<Span> {
    match mention_at(os, at, 0) {
        Some(i) => if os[i as int].decl is Some {
            Some(os[i as int].span)
        } else {
            None
        },
        None => None,
    }
}

/// May the name under the cursor be renamed, and which bytes are it? One
/// declared somewhere this file cannot see is refused: renaming every mention
/// here would leave the declaration behind.
pub fn prepare_rename_at(os: &Vec<Occurrence>, at: u32) -> (r: Option<Span>)
    ensures
        r == renamable(os@, at),
{
    match find_at(os, at) {
        Some(i) => {
            if os[i].decl.is_some() {
                Some(os[i].span)
            } else {
                None
            }
        },
        None => None,
    }
}

/// Why a rename was refused.
pub open spec fn refusal(os: Seq<Occurrence>, at: u32, to: Seq<char>) -> Option<Seq<char>> {
    if !words::names_something(to) {
        Some("`"@ + to + "` is not a name"@)
    } else {
        match mention_at(os, at, 0) {
            None => Some("there is no name here"@),
            Some(i) => if os[i as int].decl is Some {
                None
            } else {
                Some(
                    "`"@ + os[i as int].name@
                        + "` is not declared in this file, so renaming it here would leave the declaration behind"@,
                )
            },
        }
    }
}

/// A text to write over some bytes.
pub struct Edit {
    pub span: Span,
    pub text: String,
}

/// One text over each of these.
pub open spec fn writes_over(edits: Seq<Edit>, spans: Seq<Span>, text: Seq<char>) -> bool {
    edits.len() == spans.len() && forall|i: int|
        0 <= i < edits.len() ==> (#[trigger] edits[i]).span == spans[i] && edits[i].text@ == text
}

fn written(spans: &Vec<Span>, to: &str) -> (r: Vec<Edit>)
    ensures
        writes_over(r@, spans@, to@),
{
    let mut out: Vec<Edit> = Vec::new();
    let mut i: usize = 0;
    while i < spans.len()
        invariant
            i <= spans@.len(),
            out@.len() == i,
            forall|k: int|
                0 <= k < i ==> (#[trigger] out@[k]).span == spans@[k] && out@[k].text@ == to@,
        decreases spans@.len() - i,
    {
        out.push(Edit { span: spans[i], text: text::owned(to) });
        i = i + 1;
    }
    out
}

/// What to write, and where, to rename one thing and nothing else.
pub fn rename_at(os: &Vec<Occurrence>, at: u32, to: &str) -> (r: Result<Vec<Edit>, String>)
    ensures
        match r {
            Ok(edits) => refusal(os@, at, to@) is None && writes_over(
                edits@,
                references_of(os@, at),
                to@,
            ),
            Err(e) => refusal(os@, at, to@) == Some(e@),
        },
{
    if !words::is_name(to) {
        let mut e = text::owned("`");
        e.append(to);
        e.append("` is not a name");
        return Err(e);
    }
    match find_at(os, at) {
        None => Err(text::owned("there is no name here")),
        Some(i) => {
            if os[i].decl.is_none() {
                let mut e = text::owned("`");
                e.append(os[i].name.as_str());
                e.append(
                    "` is not declared in this file, so renaming it here would leave the declaration behind",
                );
                return Err(e);
            }
            Ok(written(&same_thing(os, i), to))
        },
    }
}

/// The mentions of one declaration are all of its mentions and no others,
/// whichever of them the cursor is on: another variable of the same spelling
/// keeps its name.
pub proof fn lemma_one_thing(os: Seq<Occurrence>, a: int, b: int, n: nat)
    requires
        0 <= a < os.len(),
        0 <= b < os.len(),
        n <= os.len(),
        os[a].decl is Some,
    ensures
        os[b].decl == os[a].decl ==> mentions(os, os[a], n) == mentions(os, os[b], n),
        b < n ==> (means(os[a], os[b]) <==> os[b].decl == os[a].decl),
        b < n && os[b].decl == os[a].decl ==> mentions(os, os[a], n).contains(os[b].span),
        forall|s: Span| #[trigger]
            mentions(os, os[a], n).contains(s) ==> exists|k: int|
                0 <= k < n && (#[trigger] os[k]).span == s && os[k].decl == os[a].decl,
    decreases n,
{
    if n > 0 {
        lemma_one_thing(os, a, b, (n - 1) as nat);
        let rest = mentions(os, os[a], (n - 1) as nat);
        let all = mentions(os, os[a], n);
        let last = os[n - 1].span;
        if means(os[a], os[n - 1]) {
            assert(all == rest.push(last));
            assert(all[rest.len() as int] == last);
            if rest.contains(os[b].span) {
                let k = rest.index_of(os[b].span);
                assert(all[k] == os[b].span);
            }
            assert forall|s: Span| #[trigger] all.contains(s) implies exists|k: int|
                0 <= k < n && (#[trigger] os[k]).span == s && os[k].decl == os[a].decl by {
                let i = all.index_of(s);
                if i < rest.len() {
                    assert(rest[i] == s);
                    assert(rest.contains(s));
                } else {
                    assert(os[n - 1].span == s);
                }
            }
        }
    }
}

/// No byte touches two mentions.
pub open spec fn apart(os: Seq<Occurrence>) -> bool {
    forall|i: int, j: int, at: u32|
        0 <= i < os.len() && 0 <= j < os.len() && #[trigger] touches(os[i].span, at)
            && #[trigger] touches(os[j].span, at) ==> i == j
}

proof fn lemma_mention_found(os: Seq<Occurrence>, a: int, at: u32, i: nat)
    requires
        apart(os),
        i <= a < os.len(),
        touches(os[a].span, at),
    ensures
        mention_at(os, at, i) == Some(a as nat),
    decreases os.len() - i,
{
    if i < a {
        assert(!touches(os[i as int].span, at));
        lemma_mention_found(os, a, at, i + 1);
    }
}

/// Whichever mention of a thing the cursor is on, the references are the same.
pub proof fn lemma_references_from_any(os: Seq<Occurrence>, a: int, b: int, x: u32, y: u32)
    requires
        apart(os),
        0 <= a < os.len(),
        0 <= b < os.len(),
        touches(os[a].span, x),
        touches(os[b].span, y),
        os[a].decl is Some,
        os[b].decl == os[a].decl,
    ensures
        references_of(os, x) == references_of(os, y),
{
    lemma_mention_found(os, a, x, 0);
    lemma_mention_found(os, b, y, 0);
    lemma_one_thing(os, a, b, os.len());
}

/// Of a name with no declaration here, every place reported is a mention of that
/// sort spelled as the name is, every such mention is reported, and each once.
pub proof fn lemma_spelled_the_same(os: Seq<Occurrence>, a: int, at: u32)
    requires
        0 <= a < os.len(),
        mention_at(os, at, 0) == Some(a as nat),
        os[a].decl is None,
    ensures
        forall|s: Span| #[trigger]
            references_of(os, at).contains(s) <==> exists|k: int|
                0 <= k < os.len() && (#[trigger] os[k]).span == s && os[k].name@ == os[a].name@
                    && os[k].kind == os[a].kind,
        references_of(os, at).len() == mentions_like(os, os[a].name@, os[a].kind),
{
    lemma_spelled(os, a, os.len());
    assert(os.take(os.len() as int) =~= os);
}

/// How many mentions of a sort are spelled like this.
pub open spec fn mentions_like(os: Seq<Occurrence>, name: Seq<char>, kind: u8) -> nat {
    os.filter(|o: Occurrence| o.name@ == name && o.kind == kind).len()
}

proof fn lemma_spelled(os: Seq<Occurrence>, a: int, n: nat)
    requires
        0 <= a < os.len(),
        n <= os.len(),
        os[a].decl is None,
    ensures
        forall|s: Span| #[trigger]
            mentions(os, os[a], n).contains(s) <==> exists|k: int|
                0 <= k < n && (#[trigger] os[k]).span == s && os[k].name@ == os[a].name@
                    && os[k].kind == os[a].kind,
        mentions(os, os[a], n).len() == mentions_like(os.take(n as int), os[a].name@, os[a].kind),
    decreases n,
{
    reveal(Seq::filter);
    assert(os.take(os.len() as int) =~= os);
    if n > 0 {
        lemma_spelled(os, a, (n - 1) as nat);
        assert(os.take(n as int).drop_last() =~= os.take(n - 1));
        let rest = mentions(os, os[a], (n - 1) as nat);
        let all = mentions(os, os[a], n);
        let last = os[n - 1];
        let same = last.name@ == os[a].name@ && last.kind == os[a].kind;
        assert forall|s: Span| #[trigger] all.contains(s) <==> exists|k: int|
            0 <= k < n && (#[trigger] os[k]).span == s && os[k].name@ == os[a].name@ && os[k].kind
                == os[a].kind by {
            if all.contains(s) {
                let i = all.index_of(s);
                if i < rest.len() {
                    assert(rest[i] == s);
                    assert(rest.contains(s));
                } else {
                    assert(last.span == s && same);
                    assert(os[n - 1].span == s);
                }
            }
            if exists|k: int|
                0 <= k < n && (#[trigger] os[k]).span == s && os[k].name@ == os[a].name@
                    && os[k].kind == os[a].kind {
                let k = choose|k: int|
                    0 <= k < n && (#[trigger] os[k]).span == s && os[k].name@ == os[a].name@
                        && os[k].kind == os[a].kind;
                if k < n - 1 {
                    assert(rest.contains(s));
                    let i = rest.index_of(s);
                    assert(all[i] == s);
                } else {
                    assert(all[rest.len() as int] == s);
                }
            }
        }
    }
}

/// The thing under the cursor is a mention whose bytes begin no later than the
/// cursor and end no earlier, and there is one wherever a mention does.
pub proof fn lemma_under_the_cursor(os: Seq<Occurrence>, at: u32)
    ensures
        match mention_at(os, at, 0) {
            Some(i) => i < os.len() && ({
                let s = os[i as int].span;
                s.lo <= s.hi ==> s.lo <= at <= s.hi
            }) && forall|k: int|
                0 <= k < i ==> !((#[trigger] os[k]).span.lo <= at <= os[k].span.hi),
            None => forall|k: int|
                0 <= k < os.len() ==> !((#[trigger] os[k]).span.lo <= at <= os[k].span.hi),
        },
{
    lemma_found_under(os, at, 0);
}

proof fn lemma_found_under(os: Seq<Occurrence>, at: u32, i: nat)
    ensures
        match mention_at(os, at, i) {
            Some(j) => i <= j < os.len() && touches(os[j as int].span, at) && forall|k: int|
                i <= k < j ==> !((#[trigger] os[k]).span.lo <= at <= os[k].span.hi),
            None => forall|k: int|
                i <= k < os.len() ==> !((#[trigger] os[k]).span.lo <= at <= os[k].span.hi),
        },
    decreases os.len() - i,
{
    if i < os.len() && !touches(os[i as int].span, at) {
        lemma_found_under(os, at, i + 1);
    }
}

/// A name goes to its declaration, from wherever in it the cursor is.
pub proof fn lemma_goes_to_its_declaration(os: Seq<Occurrence>, a: int, at: u32)
    requires
        apart(os),
        0 <= a < os.len(),
        os[a].span.lo <= at <= os[a].span.hi,
    ensures
        definition_of(os, at) == os[a].decl,
        renamable(os, at) == if os[a].decl is Some {
            Some(os[a].span)
        } else {
            None
        },
{
    lemma_mention_found(os, a, at, 0);
}

} // verus!
