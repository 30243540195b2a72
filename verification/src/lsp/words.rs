//! Words: the ones the language keeps for itself, and what is said about them.
use super::tokens::Tok;
use crate::builtin::tables;
use crate::text;
use vstd::prelude::*;

verus! {

pub open spec fn keyword_list() -> Seq<Seq<char>> {
    seq![
        "break"@,
        "continue"@,
        "else"@,
        "false"@,
        "fn"@,
        "for"@,
        "if"@,
        "in"@,
        "let"@,
        "loop"@,
        "match"@,
        "mut"@,
        "nil"@,
        "return"@,
        "true"@,
        "type"@,
        "while"@,
    ]
}

/// The words no name may be.
pub fn keywords() -> (r: Vec<String>)
    ensures
        tables::texts(r@) == keyword_list(),
{
    let mut out: Vec<String> = Vec::new();
    out.push(text::owned("break"));
    out.push(text::owned("continue"));
    out.push(text::owned("else"));
    out.push(text::owned("false"));
    out.push(text::owned("fn"));
    out.push(text::owned("for"));
    out.push(text::owned("if"));
    out.push(text::owned("in"));
    out.push(text::owned("let"));
    out.push(text::owned("loop"));
    out.push(text::owned("match"));
    out.push(text::owned("mut"));
    out.push(text::owned("nil"));
    out.push(text::owned("return"));
    out.push(text::owned("true"));
    out.push(text::owned("type"));
    out.push(text::owned("while"));
    assert(tables::texts(out@) =~= keyword_list());
    out
}

pub open spec fn builtin_type_list() -> Seq<Seq<char>> {
    seq!["number"@, "string"@, "boolean"@, "nil"@, "table"@, "function"@, "any"@]
}

/// The types that need no declaring, offered where a type is written.
pub fn builtin_types() -> (r: Vec<String>)
    ensures
        tables::texts(r@) == builtin_type_list(),
{
    let mut out: Vec<String> = Vec::new();
    out.push(text::owned("number"));
    out.push(text::owned("string"));
    out.push(text::owned("boolean"));
    out.push(text::owned("nil"));
    out.push(text::owned("table"));
    out.push(text::owned("function"));
    out.push(text::owned("any"));
    assert(tables::texts(out@) =~= builtin_type_list());
    out
}

pub open spec fn starts_name(c: char) -> bool {
    c == '_' || 'a' <= c <= 'z' || 'A' <= c <= 'Z'
}

pub open spec fn continues_name(c: char) -> bool {
    starts_name(c) || '0' <= c <= '9'
}

/// Is this something rua would lex as one name?
pub open spec fn names_something(s: Seq<char>) -> bool {
    &&& s.len() > 0
    &&& starts_name(s[0])
    &&& forall|i: int| 1 <= i < s.len() ==> continues_name(#[trigger] s[i])
    &&& !keyword_list().contains(s)
}

pub(super) fn has_word(words: &Vec<String>, s: &str) -> (r: bool)
    ensures
        r == tables::texts(words@).contains(s@),
{
    let ghost all = tables::texts(words@);
    let mut i: usize = 0;
    while i < words.len()
        invariant
            i <= words@.len(),
            all == tables::texts(words@),
            forall|k: int| 0 <= k < i ==> #[trigger] all[k] != s@,
        decreases words@.len() - i,
    {
        assert(all[i as int] == words@[i as int]@);
        if text::same(words[i].as_str(), s) {
            return true;
        }
        i = i + 1;
    }
    false
}

pub fn is_name(s: &str) -> (r: bool)
    ensures
        r == names_something(s@),
{
    let cs = text::chars_of(s);
    if cs.len() == 0 {
        return false;
    }
    let first: char = cs[0];
    if !(first == '_' || ('a' <= first && first <= 'z') || ('A' <= first && first <= 'Z')) {
        return false;
    }
    let mut i: usize = 1;
    while i < cs.len()
        invariant
            1 <= i <= cs@.len(),
            cs@ == s@,
            forall|k: int| 1 <= k < i ==> continues_name(#[trigger] s@[k]),
        decreases cs@.len() - i,
    {
        let c: char = cs[i];
        if !(c == '_' || ('a' <= c && c <= 'z') || ('A' <= c && c <= 'Z') || ('0' <= c && c <= '9')) {
            assert(!continues_name(s@[i as int]));
            return false;
        }
        i = i + 1;
    }
    let kept = keywords();
    !has_word(&kept, s)
}

pub open spec fn keyword_words(t: Tok) -> Option<Seq<char>> {
    match t {
        Tok::Fn => Some("`fn` — a function. The last expression in its body is its value."@),
        Tok::Let => Some("`let` — bind a name in this scope."@),
        Tok::If => Some("`if` — a condition. It is an expression, so it has a value."@),
        Tok::Else => Some("`else` — the other branch of an `if`."@),
        Tok::Match => Some("`match` — choose by pattern. An expression, like `if`."@),
        Tok::While => Some("`while` — repeat while a condition holds."@),
        Tok::For => Some("`for` — walk a range, an array or an iterator."@),
        Tok::Loop => Some("`loop` — repeat until something `break`s."@),
        Tok::Return => Some("`return` — leave a function with a value."@),
        Tok::Break => Some("`break` — leave the innermost loop."@),
        Tok::Continue => Some("`continue` — start the innermost loop's next turn."@),
        Tok::Nil => Some("`nil` — the absence of a value."@),
        Tok::In => Some("`in` — what a `for` walks."@),
        Tok::Mut => Some(
            "`mut` — allowed on a `let`, and means nothing: every binding is assignable."@,
        ),
        Tok::Type => Some(
            "`type` — give a name to a shape: `type Point = #{ x: number, y: number }`."@,
        ),
        Tok::True | Tok::False => Some("A boolean."@),
        _ => None,
    }
}

/// What to say about a keyword under the cursor.
pub fn keyword_doc(t: Tok) -> (r: Option<&'static str>)
    ensures
        match r {
            Some(s) => keyword_words(t) == Some(s@),
            None => keyword_words(t) is None,
        },
{
    match t {
        Tok::Fn => Some("`fn` — a function. The last expression in its body is its value."),
        Tok::Let => Some("`let` — bind a name in this scope."),
        Tok::If => Some("`if` — a condition. It is an expression, so it has a value."),
        Tok::Else => Some("`else` — the other branch of an `if`."),
        Tok::Match => Some("`match` — choose by pattern. An expression, like `if`."),
        Tok::While => Some("`while` — repeat while a condition holds."),
        Tok::For => Some("`for` — walk a range, an array or an iterator."),
        Tok::Loop => Some("`loop` — repeat until something `break`s."),
        Tok::Return => Some("`return` — leave a function with a value."),
        Tok::Break => Some("`break` — leave the innermost loop."),
        Tok::Continue => Some("`continue` — start the innermost loop's next turn."),
        Tok::Nil => Some("`nil` — the absence of a value."),
        Tok::In => Some("`in` — what a `for` walks."),
        Tok::Mut => Some(
            "`mut` — allowed on a `let`, and means nothing: every binding is assignable.",
        ),
        Tok::Type => Some(
            "`type` — give a name to a shape: `type Point = #{ x: number, y: number }`.",
        ),
        Tok::True | Tok::False => Some("A boolean."),
        _ => None,
    }
}

pub open spec fn ordinal_word(i: usize) -> Seq<char> {
    match i {
        0 => "first"@,
        1 => "second"@,
        2 => "third"@,
        3 => "fourth"@,
        4 => "fifth"@,
        5 => "sixth"@,
        6 => "seventh"@,
        7 => "eighth"@,
        _ => "later argument"@,
    }
}

/// Which argument is being written, counted from nought.
pub fn ordinal(i: usize) -> (r: &'static str)
    ensures
        r@ == ordinal_word(i),
{
    match i {
        0 => "first",
        1 => "second",
        2 => "third",
        3 => "fourth",
        4 => "fifth",
        5 => "sixth",
        6 => "seventh",
        7 => "eighth",
        _ => "later argument",
    }
}

// ---- in order ----------------------------------------------------------------------------

/// Put a word in its place among those before it.
pub open spec fn put_word(s: Seq<Seq<char>>, x: Seq<char>) -> Seq<Seq<char>>
    decreases s.len(),
{
    if s.len() == 0 || !text::before(x, s.last(), 0) {
        s.push(x)
    } else {
        put_word(s.drop_last(), x).push(s.last())
    }
}

/// Words in the order a dictionary would have them.
pub open spec fn sorted_words(s: Seq<Seq<char>>) -> Seq<Seq<char>>
    decreases s.len(),
{
    if s.len() == 0 {
        s
    } else {
        put_word(sorted_words(s.drop_last()), s.last())
    }
}

fn insert_word(words: &mut Vec<String>, x: String)
    ensures
        tables::texts(final(words)@) == put_word(tables::texts(old(words)@), x@),
{
    let ghost all = tables::texts(words@);
    let mut i: usize = words.len();
    assert(all.take(i as int) + all.skip(i as int) =~= all);
    assert(put_word(all.take(i as int), x@) + all.skip(i as int) =~= put_word(all, x@));
    while i > 0 && text::comes_before(x.as_str(), words[i - 1].as_str())
        invariant
            i <= words@.len(),
            all == tables::texts(words@),
            put_word(all.take(i as int), x@) + all.skip(i as int) == put_word(all, x@),
        decreases i,
    {
        proof {
            let t = all.take(i as int);
            assert(t.drop_last() =~= all.take(i - 1));
            assert(t.last() == words@[i - 1]@);
            assert(put_word(all.take(i - 1), x@).push(all[i - 1]) + all.skip(i as int) =~= put_word(
                all.take(i - 1),
                x@,
            ) + all.skip(i - 1));
        }
        i = i - 1;
    }
    proof {
        let t = all.take(i as int);
        if i > 0 {
            assert(t.last() == words@[i - 1]@);
        }
        assert(put_word(t, x@) == t.push(x@));
        assert(all.insert(i as int, x@) =~= t.push(x@) + all.skip(i as int));
    }
    let ghost before = words@;
    words.insert(i, x);
    assert(tables::texts(words@) =~= all.insert(i as int, x@));
}

pub fn sorted(words: &Vec<String>) -> (r: Vec<String>)
    ensures
        tables::texts(r@) == sorted_words(tables::texts(words@)),
        tables::texts(r@).to_multiset() == tables::texts(words@).to_multiset(),
        ascends(tables::texts(r@)),
{
    let ghost all = tables::texts(words@);
    let mut out: Vec<String> = Vec::new();
    let mut i: usize = 0;
    assert(tables::texts(out@) =~= sorted_words(all.take(0)));
    while i < words.len()
        invariant
            i <= words@.len(),
            all == tables::texts(words@),
            tables::texts(out@) == sorted_words(all.take(i as int)),
        decreases words@.len() - i,
    {
        assert(all.take(i as int + 1).drop_last() =~= all.take(i as int));
        assert(all.take(i as int + 1).last() == words@[i as int]@);
        insert_word(&mut out, text::owned(words[i].as_str()));
        i = i + 1;
    }
    assert(all.take(all.len() as int) =~= all);
    proof {
        lemma_sorting_keeps(all);
        lemma_sorted_ascends(all);
    }
    out
}

/// Sorting keeps every word.
pub proof fn lemma_sorting_keeps(s: Seq<Seq<char>>)
    ensures
        sorted_words(s).to_multiset() == s.to_multiset(),
    decreases s.len(),
{
    broadcast use vstd::seq_lib::group_to_multiset_ensures;

    if s.len() > 0 {
        lemma_sorting_keeps(s.drop_last());
        lemma_put_keeps(sorted_words(s.drop_last()), s.last());
        assert(s.drop_last().push(s.last()) =~= s);
    }
}

proof fn lemma_put_keeps(s: Seq<Seq<char>>, x: Seq<char>)
    ensures
        put_word(s, x).to_multiset() == s.to_multiset().insert(x),
    decreases s.len(),
{
    broadcast use vstd::seq_lib::group_to_multiset_ensures;

    if s.len() == 0 || !text::before(x, s.last(), 0) {
    } else {
        lemma_put_keeps(s.drop_last(), x);
        assert(s.drop_last().push(s.last()) =~= s);
        assert(s.to_multiset() =~= s.drop_last().to_multiset().insert(s.last()));
        assert(put_word(s, x).to_multiset() =~= s.to_multiset().insert(x));
    }
}

/// No word comes before one that is in front of it.
pub open spec fn ascends(s: Seq<Seq<char>>) -> bool {
    forall|i: int, j: int|
        0 <= i < j < s.len() ==> !text::before(#[trigger] s[j], #[trigger] s[i], 0)
}

/// Sorted words ascend.
pub proof fn lemma_sorted_ascends(s: Seq<Seq<char>>)
    ensures
        ascends(sorted_words(s)),
    decreases s.len(),
{
    if s.len() > 0 {
        lemma_sorted_ascends(s.drop_last());
        lemma_put_ascends(sorted_words(s.drop_last()), s.last());
    }
}

proof fn lemma_put_ascends(s: Seq<Seq<char>>, x: Seq<char>)
    requires
        ascends(s),
    ensures
        ascends(put_word(s, x)),
        forall|i: int|
            0 <= i < put_word(s, x).len() ==> #[trigger] put_word(s, x)[i] == x || s.contains(
                put_word(s, x)[i],
            ),
    decreases s.len(),
{
    let r = put_word(s, x);
    if s.len() == 0 || !text::before(x, s.last(), 0) {
        assert forall|i: int, j: int| 0 <= i < j < r.len() implies !text::before(
            #[trigger] r[j],
            #[trigger] r[i],
            0,
        ) by {
            if j == s.len() && i < s.len() - 1 {
                assert(!text::before(s[s.len() - 1], s[i], 0));
                text::lemma_before_row(x, s.last(), s[i], 0);
            }
        }
        assert forall|i: int| 0 <= i < r.len() implies #[trigger] r[i] == x || s.contains(r[i]) by {
            if i < s.len() {
                assert(s[i] == r[i]);
            }
        }
    } else {
        let front = s.drop_last();
        let rest = put_word(front, x);
        lemma_put_ascends(front, x);
        assert forall|i: int, j: int| 0 <= i < j < r.len() implies !text::before(
            #[trigger] r[j],
            #[trigger] r[i],
            0,
        ) by {
            if j == rest.len() {
                assert(rest[i] == r[i]);
                if rest[i] == x {
                    text::lemma_before_one_way(x, s.last(), 0);
                } else {
                    let k = choose|k: int| 0 <= k < front.len() && front[k] == rest[i];
                    assert(!text::before(s[s.len() - 1], s[k], 0));
                }
            } else {
                assert(rest[i] == r[i] && rest[j] == r[j]);
            }
        }
        assert forall|i: int| 0 <= i < r.len() implies #[trigger] r[i] == x || s.contains(r[i]) by {
            if i < rest.len() {
                assert(rest[i] == r[i]);
                if rest[i] != x {
                    let k = choose|k: int| 0 <= k < front.len() && front[k] == rest[i];
                    assert(s[k] == r[i]);
                }
            } else {
                assert(s[s.len() - 1] == r[i]);
            }
        }
    }
}

// ---- what the server says about itself ---------------------------------------------------

/// How much a server says.
#[derive(Clone, Copy, Debug, PartialEq, Eq, Structural)]
pub enum Level {
    Off,
    Error,
    Warn,
    Info,
    Debug,
}

pub open spec fn lowered(c: char) -> char {
    if 'A' <= c <= 'Z' {
        (c as u32 + 32) as char
    } else {
        c
    }
}

pub open spec fn lower_case(s: Seq<char>) -> Seq<char> {
    Seq::new(s.len(), |i: int| lowered(s[i]))
}

/// What a log setting asks for. Anything else than the words it knows is the
/// ordinary level, since a typo in a log setting should not silence the log.
pub open spec fn level_named(s: Seq<char>) -> Level {
    let w = lower_case(s);
    if w == "off"@ || w == "none"@ || w == "0"@ {
        Level::Off
    } else if w == "error"@ {
        Level::Error
    } else if w == "warn"@ || w == "warning"@ {
        Level::Warn
    } else if w == "debug"@ || w == "trace"@ {
        Level::Debug
    } else {
        Level::Info
    }
}

fn lower_char(c: char) -> (r: char)
    ensures
        r == lowered(c),
{
    if 'A' <= c && c <= 'Z' {
        let n: u8 = c as u8;
        (n + 32) as char
    } else {
        c
    }
}

fn to_lower(s: &str) -> (r: String)
    ensures
        r@ == lower_case(s@),
{
    let cs = text::chars_of(s);
    let mut out = String::new();
    let mut i: usize = 0;
    while i < cs.len()
        invariant
            i <= cs@.len(),
            cs@ == s@,
            out@ == lower_case(s@).take(i as int),
        decreases cs@.len() - i,
    {
        out.push(lower_char(cs[i]));
        assert(out@ =~= lower_case(s@).take(i as int + 1));
        i = i + 1;
    }
    assert(out@ =~= lower_case(s@));
    out
}

pub fn level_of(setting: &str) -> (r: Level)
    ensures
        r == level_named(setting@),
{
    let word = to_lower(setting);
    let w = word.as_str();
    if text::same(w, "off") || text::same(w, "none") || text::same(w, "0") {
        Level::Off
    } else if text::same(w, "error") {
        Level::Error
    } else if text::same(w, "warn") || text::same(w, "warning") {
        Level::Warn
    } else if text::same(w, "debug") || text::same(w, "trace") {
        Level::Debug
    } else {
        Level::Info
    }
}

pub open spec fn rank(l: Level) -> int {
    match l {
        Level::Off => 0,
        Level::Error => 1,
        Level::Warn => 2,
        Level::Info => 3,
        Level::Debug => 4,
    }
}

fn rank_of(l: Level) -> (r: u8)
    ensures
        r == rank(l),
{
    match l {
        Level::Off => 0,
        Level::Error => 1,
        Level::Warn => 2,
        Level::Info => 3,
        Level::Debug => 4,
    }
}

/// Is a message of a level said at this setting?
pub fn enabled(setting: Level, level: Level) -> (r: bool)
    ensures
        r == (rank(setting) >= rank(level)),
{
    rank_of(setting) >= rank_of(level)
}

/// The tail of a path, which is the part a reader recognises.
pub open spec fn tail_of(path: Seq<char>) -> Seq<char> {
    match text::last_at(path, seq!['/'], path.len()) {
        Some(i) => if i + 1 < path.len() {
            path.skip(i as int + 1)
        } else {
            path
        },
        None => path,
    }
}

pub fn short(path: &str) -> (r: String)
    ensures
        r@ == tail_of(path@),
{
    let cs = text::chars_of(path);
    let n: usize = cs.len();
    let mut slash: Vec<char> = Vec::new();
    slash.push('/');
    assert(slash@ =~= seq!['/']);
    match text::find_last(&cs, &slash, n) {
        Some(i) => {
            if i < n && i + 1 < n {
                assert(cs@.subrange(i as int + 1, n as int) =~= path@.skip(i as int + 1));
                return text::string_of(&cs, i + 1, n);
            }
        },
        None => {},
    }
    text::owned(path)
}

/// What is worse is said wherever what is less bad is, and where nothing is to be said
/// nothing is.
pub proof fn lemma_levels(setting: Level, a: Level, b: Level)
    ensures
        rank(Level::Error) < rank(Level::Warn) < rank(Level::Info) < rank(Level::Debug),
        rank(setting) >= rank(b) && rank(b) >= rank(a) ==> rank(setting) >= rank(a),
        a != Level::Off ==> !(rank(Level::Off) >= rank(a)),
        a == b <==> rank(a) == rank(b),
{
}

/// The tail of a path is what follows its last slash.
pub proof fn lemma_tail(dir: Seq<char>, name: Seq<char>)
    requires
        !name.contains('/'),
        name.len() > 0,
    ensures
        tail_of(dir + seq!['/'] + name) == name,
        tail_of(name) == name,
{
    let s = dir + seq!['/'] + name;
    lemma_last_slash(s, dir.len(), s.len());
    assert(s.skip(dir.len() as int + 1) =~= name);
    lemma_no_slash(name, name.len());
}

proof fn lemma_last_slash(s: Seq<char>, at: nat, i: nat)
    requires
        at < i <= s.len(),
        s[at as int] == '/',
        forall|j: int| at < j < s.len() ==> #[trigger] s[j] != '/',
    ensures
        text::last_at(s, seq!['/'], i) == Some(at),
    decreases i,
{
    if i - 1 == at {
        assert(s.subrange(at as int, at as int + 1) =~= seq!['/']);
    } else {
        if text::is_at(s, seq!['/'], i - 1) {
            assert(s.subrange(i - 1, i as int)[0] == seq!['/'][0]);
            assert(s[i - 1] == '/');
        }
        lemma_last_slash(s, at, (i - 1) as nat);
    }
}

proof fn lemma_no_slash(s: Seq<char>, i: nat)
    requires
        !s.contains('/'),
        i <= s.len(),
    ensures
        text::last_at(s, seq!['/'], i) is None,
    decreases i,
{
    if i > 0 {
        if text::is_at(s, seq!['/'], i - 1) {
            assert(s.subrange(i - 1, i as int)[0] == seq!['/'][0]);
            assert(s[i - 1] == '/');
        }
        lemma_no_slash(s, (i - 1) as nat);
    }
}

} // verus!
