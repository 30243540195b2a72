//! The `string` module.
use super::tables;
use crate::text;
use crate::value;
use crate::value::Error;
use vstd::prelude::*;

verus! {

/// The largest string a builtin makes: 256 megabytes.
pub const MAX_STRING: usize = 0x1000_0000;

/// Bytes read as text, with a replacement where they are not.
pub uninterp spec fn lossy(bytes: Seq<u8>) -> Seq<char>;

/// `String::from_utf8_lossy`, whose result depends on the bytes alone. The
/// bytes of a text are read as that text.
#[verifier::external_body]
fn from_lossy(bytes: &[u8]) -> (r: String)
    ensures
        r@ == lossy(bytes@),
        forall|t: Seq<char>| #[trigger] vstd::utf8::encode_utf8(t) == bytes@ ==> r@ == t,
{
    String::from_utf8_lossy(bytes).into_owned()
}

/// A text in capital letters.
pub uninterp spec fn upper_of(s: Seq<char>) -> Seq<char>;

/// A text in small letters.
pub uninterp spec fn lower_of(s: Seq<char>) -> Seq<char>;

/// `str::to_uppercase`, whose result depends on the text alone.
#[verifier::external_body]
fn to_upper(s: &str) -> (r: String)
    ensures
        r@ == upper_of(s@),
{
    s.to_uppercase()
}

/// `str::to_lowercase`, whose result depends on the text alone.
#[verifier::external_body]
fn to_lower(s: &str) -> (r: String)
    ensures
        r@ == lower_of(s@),
{
    s.to_lowercase()
}

pub fn upper(s: &str) -> (r: String)
    ensures
        r@ == upper_of(s@),
{
    to_upper(s)
}

pub fn lower(s: &str) -> (r: String)
    ensures
        r@ == lower_of(s@),
{
    to_lower(s)
}

/// A text without the white space around it.
pub fn trim(s: &str) -> (r: String)
    ensures
        r@ == text::trimmed_end(text::trimmed_start(s@)),
{
    text::trim(s)
}

/// How many bytes a text takes.
pub fn byte_len(s: &str) -> (r: usize)
    ensures
        r == vstd::utf8::encode_utf8(s@).len(),
{
    s.as_bytes().len()
}

/// The byte at a place.
pub fn byte(s: &str, i: usize) -> (r: Option<u8>)
    ensures
        r == (if i < vstd::utf8::encode_utf8(s@).len() {
            Some(vstd::utf8::encode_utf8(s@)[i as int])
        } else {
            None
        }),
{
    let b = s.as_bytes();
    if i < b.len() {
        Some(b[i])
    } else {
        None
    }
}

fn part_of(b: &[u8], start: usize, end: usize) -> (r: Vec<u8>)
    requires
        start <= end <= b@.len(),
    ensures
        r@ == b@.subrange(start as int, end as int),
{
    let mut out: Vec<u8> = Vec::new();
    let mut i: usize = start;
    while i < end
        invariant
            start <= i <= end <= b@.len(),
            out@ == b@.subrange(start as int, i as int),
        decreases end - i,
    {
        out.push(b[i]);
        assert(out@ =~= b@.subrange(start as int, i as int + 1));
        i = i + 1;
    }
    out
}

/// The text between two places, counted in bytes. Bounds past the end are the
/// end.
pub open spec fn sliced(s: Seq<char>, start: usize, end: usize) -> Seq<char> {
    let b = vstd::utf8::encode_utf8(s);
    let to = if end < b.len() {
        end as int
    } else {
        b.len() as int
    };
    if start >= to {
        Seq::empty()
    } else {
        lossy(b.subrange(start as int, to))
    }
}

pub fn slice(s: &str, start: usize, end: usize) -> (r: String)
    ensures
        r@ == sliced(s@, start, end),
        start == 0 && end >= vstd::utf8::encode_utf8(s@).len() ==> r@ == s@,
{
    let b = s.as_bytes();
    let to: usize = if end < b.len() {
        end
    } else {
        b.len()
    };
    if start >= to {
        let r = String::new();
        proof {
            if start == 0 && end >= vstd::utf8::encode_utf8(s@).len() {
                assert(vstd::utf8::encode_utf8(s@).len() == 0);
                lemma_no_bytes(s@);
            }
            assert(r@ =~= Seq::<char>::empty());
        }
        return r;
    }
    let part = part_of(b, start, to);
    let r = from_lossy(part.as_slice());
    proof {
        if start == 0 && end >= vstd::utf8::encode_utf8(s@).len() {
            assert(part@ =~= vstd::utf8::encode_utf8(s@));
        }
    }
    r
}

/// Only the empty text takes no bytes.
proof fn lemma_no_bytes(s: Seq<char>)
    requires
        vstd::utf8::encode_utf8(s).len() == 0,
    ensures
        s.len() == 0,
{
    if s.len() > 0 {
        vstd::utf8::encode_utf8_first_scalar(s);
    }
}

// ---- looking -----------------------------------------------------------------------------

/// The place of the first occurrence, counted in bytes.
pub open spec fn found(s: Seq<char>, what: Seq<char>) -> Option<nat> {
    match text::first_at(s, what, 0) {
        Some(i) => Some(vstd::utf8::encode_utf8(s.take(i as int)).len()),
        None => None,
    }
}

pub fn find(s: &str, what: &str) -> (r: Option<usize>)
    ensures
        match r {
            Some(n) => found(s@, what@) == Some(n as nat),
            None => found(s@, what@) is None,
        },
{
    let cs = text::chars_of(s);
    let ws = text::chars_of(what);
    match text::find_from(&cs, &ws, 0) {
        Some(i) => {
            let front = text::string_of(&cs, 0, i);
            assert(front@ =~= s@.take(i as int));
            Some(byte_len(front.as_str()))
        },
        None => None,
    }
}

pub fn contains(s: &str, what: &str) -> (r: bool)
    ensures
        r == (exists|i: int| text::is_at(s@, what@, i)),
{
    let cs = text::chars_of(s);
    let ws = text::chars_of(what);
    let r = text::find_from(&cs, &ws, 0);
    proof {
        if r is None {
            assert forall|i: int| !text::is_at(s@, what@, i) by {
                if text::is_at(s@, what@, i) {
                    lemma_first_at(s@, what@, 0, i as nat);
                }
            }
        }
    }
    r.is_some()
}

/// What stands somewhere is found.
proof fn lemma_first_at(s: Seq<char>, what: Seq<char>, from: nat, i: nat)
    requires
        from <= i,
        text::is_at(s, what, i as int),
    ensures
        text::first_at(s, what, from) is Some,
    decreases i - from,
{
    if from < i {
        lemma_first_at(s, what, from + 1, i);
    }
}

pub fn starts_with(s: &str, what: &str) -> (r: bool)
    ensures
        r == text::is_at(s@, what@, 0),
{
    let cs = text::chars_of(s);
    let ws = text::chars_of(what);
    text::stands_at(&cs, &ws, 0)
}

pub fn ends_with(s: &str, what: &str) -> (r: bool)
    ensures
        r == text::is_at(s@, what@, s@.len() - what@.len()),
{
    let cs = text::chars_of(s);
    let ws = text::chars_of(what);
    if ws.len() > cs.len() {
        return false;
    }
    text::stands_at(&cs, &ws, cs.len() - ws.len())
}

// ---- taking apart and putting together ---------------------------------------------------

pub fn reverse(s: &str) -> (r: String)
    ensures
        r@ == s@.reverse(),
{
    let cs = text::chars_of(s);
    let mut out = String::new();
    let mut i: usize = cs.len();
    assert(out@ =~= s@.reverse().take(0));
    while i > 0
        invariant
            i <= cs@.len(),
            cs@ == s@,
            out@ == s@.reverse().take(cs@.len() - i),
        decreases i,
    {
        i = i - 1;
        out.push(cs[i]);
        assert(out@ =~= s@.reverse().take(cs@.len() - i));
    }
    assert(out@ =~= s@.reverse());
    out
}

pub open spec fn each_char(s: Seq<char>) -> Seq<Seq<char>> {
    Seq::new(s.len(), |i: int| seq![s[i]])
}

pub fn chars(s: &str) -> (r: Vec<String>)
    ensures
        tables::texts(r@) == each_char(s@),
{
    let cs = text::chars_of(s);
    let mut out: Vec<String> = Vec::new();
    let mut i: usize = 0;
    while i < cs.len()
        invariant
            i <= cs@.len(),
            cs@ == s@,
            out@.len() == i,
            forall|k: int| 0 <= k < i ==> (#[trigger] out@[k])@ == seq![s@[k]],
        decreases cs@.len() - i,
    {
        let mut one = String::new();
        one.push(cs[i]);
        assert(one@ =~= seq![s@[i as int]]);
        out.push(one);
        i = i + 1;
    }
    assert(tables::texts(out@) =~= each_char(s@));
    out
}

/// The parts between the places a separator stands at, from `i` on.
pub open spec fn parts_from(s: Seq<char>, sep: Seq<char>, i: nat) -> Seq<Seq<char>>
    decreases s.len() - i,
{
    match text::first_at(s, sep, i) {
        Some(j) => if i <= j && sep.len() > 0 && j + sep.len() <= s.len() {
            seq![s.subrange(i as int, j as int)] + parts_from(s, sep, j + sep.len())
        } else {
            seq![s.skip(i as int)]
        },
        None => seq![s.skip(i as int)],
    }
}

/// A text split at a separator. An empty one stands before and after every
/// character.
pub open spec fn parts(s: Seq<char>, sep: Seq<char>) -> Seq<Seq<char>> {
    if sep.len() == 0 {
        seq![Seq::<char>::empty()] + each_char(s) + seq![Seq::<char>::empty()]
    } else {
        parts_from(s, sep, 0)
    }
}

pub fn split(s: &str, sep: &str) -> (r: Vec<String>)
    ensures
        tables::texts(r@) == parts(s@, sep@),
{
    let cs = text::chars_of(s);
    let ws = text::chars_of(sep);
    let mut out: Vec<String> = Vec::new();
    if ws.len() == 0 {
        out.push(String::new());
        assert(out@[0]@ =~= Seq::<char>::empty());
        let each = chars(s);
        let ghost first = tables::texts(out@);
        let mut i: usize = 0;
        assert(tables::texts(out@) =~= first + each_char(s@).take(0));
        while i < each.len()
            invariant
                i <= each@.len(),
                tables::texts(each@) == each_char(s@),
                tables::texts(out@) == first + each_char(s@).take(i as int),
            decreases each@.len() - i,
        {
            let ghost before = tables::texts(out@);
            assert(tables::texts(each@)[i as int] == each@[i as int]@);
            out.push(each[i].clone());
            assert(tables::texts(out@) =~= before.push(each_char(s@)[i as int]));
            assert(tables::texts(out@) =~= first + each_char(s@).take(i as int + 1));
            i = i + 1;
        }
        let ghost before = tables::texts(out@);
        out.push(String::new());
        assert(out@[out@.len() - 1]@ =~= Seq::<char>::empty());
        assert(tables::texts(out@) =~= before.push(Seq::<char>::empty()));
        assert(tables::texts(out@) =~= parts(s@, sep@));
        return out;
    }
    let n: usize = cs.len();
    let mut i: usize = 0;
    assert(tables::texts(out@) + parts_from(s@, sep@, 0) =~= parts(s@, sep@));
    loop
        invariant
            i <= n == cs@.len(),
            cs@ == s@,
            ws@ == sep@,
            ws@.len() > 0,
            tables::texts(out@) + parts_from(s@, sep@, i as nat) == parts(s@, sep@),
        decreases n - i,
    {
        let ghost before = tables::texts(out@);
        match text::find_from(&cs, &ws, i) {
            Some(j) => {
                assert(j + ws@.len() <= n);
                let one = text::string_of(&cs, i, j);
                assert(one@ =~= s@.subrange(i as int, j as int));
                out.push(one);
                assert(tables::texts(out@) =~= before.push(s@.subrange(i as int, j as int)));
                assert(tables::texts(out@) + parts_from(s@, sep@, (j + ws@.len()) as nat)
                    =~= before + parts_from(s@, sep@, i as nat));
                i = j + ws.len();
            },
            None => {
                let one = text::string_of(&cs, i, n);
                assert(one@ =~= s@.skip(i as int));
                out.push(one);
                assert(tables::texts(out@) =~= before + parts_from(s@, sep@, i as nat));
                return out;
            },
        }
    }
}

/// A text with every occurrence of one text replaced by another.
pub fn replace(s: &str, from: &str, to: &str) -> (r: String)
    ensures
        r@ == tables::joined(parts(s@, from@), to@),
{
    let ps = split(s, from);
    tables::join(&ps, to)
}

/// Putting the parts of a text together again with the separator gives the
/// text.
pub proof fn lemma_join_undoes_split(s: Seq<char>, sep: Seq<char>)
    requires
        sep.len() > 0,
    ensures
        tables::joined(parts(s, sep), sep) == s,
{
    lemma_join_parts(s, sep, 0);
    assert(s.skip(0) =~= s);
}

proof fn lemma_join_parts(s: Seq<char>, sep: Seq<char>, i: nat)
    requires
        sep.len() > 0,
        i <= s.len(),
    ensures
        tables::joined(parts_from(s, sep, i), sep) == s.skip(i as int),
        parts_from(s, sep, i).len() > 0,
    decreases s.len() - i,
{
    lemma_first_is_at(s, sep, i);
    match text::first_at(s, sep, i) {
        Some(j) => {
            let front = s.subrange(i as int, j as int);
            let rest = parts_from(s, sep, j + sep.len());
            lemma_join_parts(s, sep, j + sep.len());
            lemma_join_front(front, rest, sep);
            assert(s.subrange(j as int, j as int + sep.len()) == sep);
            assert(front + sep + s.skip(j + sep.len() as int) =~= s.skip(i as int));
        },
        None => {},
    }
}

proof fn lemma_first_is_at(s: Seq<char>, what: Seq<char>, i: nat)
    ensures
        text::first_at(s, what, i) matches Some(j) ==> i <= j && text::is_at(s, what, j as int),
    decreases s.len() + 1 - i,
{
    if i <= s.len() && !text::is_at(s, what, i as int) {
        lemma_first_is_at(s, what, i + 1);
    }
}

/// Joining can be done from the front as well.
proof fn lemma_join_front(front: Seq<char>, rest: Seq<Seq<char>>, sep: Seq<char>)
    requires
        rest.len() > 0,
    ensures
        tables::joined(seq![front] + rest, sep) == front + sep + tables::joined(rest, sep),
    decreases rest.len(),
{
    let all = seq![front] + rest;
    if rest.len() == 1 {
        assert(all.drop_last() =~= seq![front]);
        assert(tables::joined(all.drop_last(), sep) == front);
        assert(all.last() == rest[0]);
    } else {
        lemma_join_front(front, rest.drop_last(), sep);
        assert(all.drop_last() =~= seq![front] + rest.drop_last());
        assert(all.last() == rest.last());
        assert(front + sep + tables::joined(rest.drop_last(), sep) + sep + rest.last() =~= front
            + sep + (tables::joined(rest.drop_last(), sep) + sep + rest.last()));
    }
}

pub open spec fn repeated(s: Seq<char>, n: nat) -> Seq<char>
    decreases n,
{
    if n == 0 {
        Seq::empty()
    } else {
        repeated(s, (n - 1) as nat) + s
    }
}

/// A text so many times over, unless that is too much.
pub fn repeat(s: &str, n: usize) -> (r: Result<String, Error>)
    ensures
        match r {
            Ok(t) => vstd::utf8::encode_utf8(s@).len() * n <= MAX_STRING && t@ == repeated(s@, n as nat),
            Err(e) => vstd::utf8::encode_utf8(s@).len() * n > MAX_STRING && value::plain_error(
                e,
                "repeat: the result would be too large"@,
            ),
        },
{
    let len: usize = byte_len(s);
    assert(len * n <= 0xffff_ffff_ffff_ffff * 0xffff_ffff_ffff_ffff) by (nonlinear_arith)
        requires
            0 <= len <= 0xffff_ffff_ffff_ffff,
            0 <= n <= 0xffff_ffff_ffff_ffff,
    ;
    let total: u128 = len as u128 * n as u128;
    if total > MAX_STRING as u128 {
        return value::err(text::owned("repeat: the result would be too large"));
    }
    let mut out = String::new();
    assert(out@ =~= repeated(s@, 0));
    if len == 0 {
        proof {
            lemma_no_bytes(s@);
            lemma_repeat_nothing(s@, n as nat);
        }
        return Ok(out);
    }
    let mut i: usize = 0;
    while i < n
        invariant
            i <= n,
            out@ == repeated(s@, i as nat),
        decreases n - i,
    {
        out.append(s);
        i = i + 1;
    }
    Ok(out)
}

proof fn lemma_repeat_nothing(s: Seq<char>, n: nat)
    requires
        s.len() == 0,
    ensures
        repeated(s, n) == Seq::<char>::empty(),
    decreases n,
{
    if n > 0 {
        lemma_repeat_nothing(s, (n - 1) as nat);
        assert(repeated(s, n) =~= Seq::<char>::empty());
    }
}

// ---- lines -------------------------------------------------------------------------------

/// A text without this character at its end.
pub open spec fn without_last(s: Seq<char>, c: char) -> Seq<char> {
    if s.len() > 0 && s.last() == c {
        s.drop_last()
    } else {
        s
    }
}

/// The lines of a text. A newline at the end ends the last line rather than
/// starting an empty one, and a carriage return before a newline is no part
/// of the line.
pub open spec fn lines_of(s: Seq<char>) -> Seq<Seq<char>> {
    if s.len() == 0 {
        Seq::empty()
    } else {
        let ps = parts(without_last(s, '\n'), seq!['\n']);
        Seq::new(ps.len(), |i: int| without_last(ps[i], '\r'))
    }
}

fn drop_end(s: &str, c: char) -> (r: String)
    ensures
        r@ == without_last(s@, c),
{
    let cs = text::chars_of(s);
    let n: usize = cs.len();
    if n > 0 && cs[n - 1] == c {
        let r = text::string_of(&cs, 0, n - 1);
        assert(r@ =~= s@.drop_last());
        r
    } else {
        text::owned(s)
    }
}

pub fn lines(s: &str) -> (r: Vec<String>)
    ensures
        tables::texts(r@) == lines_of(s@),
{
    let mut out: Vec<String> = Vec::new();
    if s.is_empty() {
        assert(tables::texts(out@) =~= lines_of(s@));
        return out;
    }
    let body = drop_end(s, '\n');
    let mut newline = String::new();
    newline.push('\n');
    assert(newline@ =~= seq!['\n']);
    let ps = split(body.as_str(), newline.as_str());
    let ghost want = parts(without_last(s@, '\n'), seq!['\n']);
    let mut i: usize = 0;
    while i < ps.len()
        invariant
            i <= ps@.len(),
            tables::texts(ps@) == want,
            out@.len() == i,
            forall|k: int|
                0 <= k < i ==> (#[trigger] out@[k])@ == without_last(want[k], '\r'),
        decreases ps@.len() - i,
    {
        assert(tables::texts(ps@)[i as int] == ps@[i as int]@);
        out.push(drop_end(ps[i].as_str(), '\r'));
        i = i + 1;
    }
    assert(tables::texts(out@) =~= lines_of(s@));
    out
}

/// A text without the line ends after it.
pub open spec fn chomped(s: Seq<char>, both: bool) -> Seq<char>
    decreases s.len(),
{
    if s.len() > 0 && (s.last() == '\n' || (both && s.last() == '\r')) {
        chomped(s.drop_last(), both)
    } else {
        s
    }
}

/// Take the newlines off the end of a line, and with `both` the carriage
/// returns as well.
pub fn chomp(s: &str, both: bool) -> (r: String)
    ensures
        r@ == chomped(s@, both),
{
    let cs = text::chars_of(s);
    let mut n: usize = cs.len();
    assert(cs@.take(n as int) =~= s@);
    while n > 0 && (cs[n - 1] == '\n' || (both && cs[n - 1] == '\r'))
        invariant
            n <= cs@.len(),
            cs@ == s@,
            chomped(s@.take(n as int), both) == chomped(s@, both),
        decreases n,
    {
        assert(s@.take(n as int).drop_last() =~= s@.take(n - 1));
        assert(s@.take(n as int).last() == cs@[n - 1]);
        n = n - 1;
    }
    let r = text::string_of(&cs, 0, n);
    assert(r@ =~= s@.take(n as int));
    if n > 0 {
        assert(s@.take(n as int).last() == cs@[n - 1]);
    }
    r
}

// ---- what the parts of a text are ----------------------------------------------------------

proof fn lemma_none_before(s: Seq<char>, what: Seq<char>, i: nat)
    ensures
        match text::first_at(s, what, i) {
            Some(j) => forall|k: int| i <= k < j ==> !#[trigger] text::is_at(s, what, k),
            None => forall|k: int| i <= k ==> !#[trigger] text::is_at(s, what, k),
        },
    decreases s.len() + 1 - i,
{
    if i <= s.len() && !text::is_at(s, what, i as int) {
        lemma_none_before(s, what, i + 1);
    }
}

/// What is looked for is found where it first stands, by the bytes before it; where it
/// is not found it stands nowhere.
pub proof fn lemma_found(s: Seq<char>, what: Seq<char>)
    ensures
        match found(s, what) {
            Some(n) => exists|i: int|
                #![trigger text::is_at(s, what, i)]
                text::is_at(s, what, i) && n == vstd::utf8::encode_utf8(s.take(i)).len() && forall|
                    k: int,
                |
                    0 <= k < i ==> !#[trigger] text::is_at(s, what, k),
            None => forall|k: int| !#[trigger] text::is_at(s, what, k),
        },
{
    lemma_none_before(s, what, 0);
    lemma_first_is_at(s, what, 0);
    match text::first_at(s, what, 0) {
        Some(i) => {
            assert(text::is_at(s, what, i as int));
        },
        None => {},
    }
}

proof fn lemma_no_separator_from(s: Seq<char>, sep: Seq<char>, i: nat, k: int, at: int)
    requires
        sep.len() > 0,
        i <= s.len(),
        0 <= k < parts_from(s, sep, i).len(),
    ensures
        !text::is_at(parts_from(s, sep, i)[k], sep, at),
    decreases s.len() - i,
{
    lemma_none_before(s, sep, i);
    lemma_first_is_at(s, sep, i);
    let part = parts_from(s, sep, i)[k];
    match text::first_at(s, sep, i) {
        Some(j) => {
            if k == 0 {
                assert(part == s.subrange(i as int, j as int));
                if text::is_at(part, sep, at) {
                    assert(part.subrange(at, at + sep.len()) =~= s.subrange(
                        i + at,
                        i + at + sep.len(),
                    ));
                    assert(text::is_at(s, sep, i + at));
                }
            } else {
                assert(part == parts_from(s, sep, j + sep.len())[k - 1]);
                lemma_no_separator_from(s, sep, j + sep.len(), k - 1, at);
            }
        },
        None => {
            assert(part == s.skip(i as int));
            if text::is_at(part, sep, at) {
                assert(part.subrange(at, at + sep.len()) =~= s.subrange(
                    i + at,
                    i + at + sep.len(),
                ));
                assert(text::is_at(s, sep, i + at));
            }
        },
    }
}

/// No part of a text that was split holds the separator.
pub proof fn lemma_parts_hold_no_separator(s: Seq<char>, sep: Seq<char>, k: int, at: int)
    requires
        sep.len() > 0,
        0 <= k < parts(s, sep).len(),
    ensures
        !text::is_at(parts(s, sep)[k], sep, at),
{
    lemma_no_separator_from(s, sep, 0, k, at);
}

/// A text so many times over is that many times as long, and each time it is the text.
pub proof fn lemma_repeated(s: Seq<char>, n: nat, j: nat)
    requires
        j < n,
    ensures
        repeated(s, n).len() == n * s.len(),
        j * s.len() + s.len() <= n * s.len(),
        repeated(s, n).subrange((j * s.len()) as int, (j * s.len() + s.len()) as int) == s,
        repeated(s, 0).len() == 0,
    decreases n,
{
    let m = (n - 1) as nat;
    assert(n * s.len() == m * s.len() + s.len()) by (nonlinear_arith)
        requires
            n == m + 1,
    ;
    assert(0 * s.len() == 0);
    if n > 1 {
        lemma_repeated(s, m, 0);
    }
    assert(repeated(s, m).len() == m * s.len());
    if j < m {
        lemma_repeated(s, m, j);
        assert(repeated(s, n).subrange((j * s.len()) as int, (j * s.len() + s.len()) as int)
            =~= repeated(s, m).subrange((j * s.len()) as int, (j * s.len() + s.len()) as int));
    } else {
        assert(repeated(s, n).subrange((j * s.len()) as int, (j * s.len() + s.len()) as int) =~= s);
    }
}

/// The lines of a text are what stands between its newlines: none holds one, and with
/// newlines between them they are the text again, without the newline at its end.
pub proof fn lemma_lines(s: Seq<char>, k: int, at: int)
    requires
        !s.contains('\r'),
        s.len() > 0,
    ensures
        tables::joined(lines_of(s), seq!['\n']) == without_last(s, '\n'),
        0 <= k < lines_of(s).len() && 0 <= at < lines_of(s)[k].len() ==> lines_of(s)[k][at] != '\n',
{
    let t = without_last(s, '\n');
    let nl = seq!['\n'];
    let ps = parts(t, nl);
    lemma_join_undoes_split(t, nl);
    assert forall|i: int| 0 <= i < ps.len() implies without_last(#[trigger] ps[i], '\r')
        == ps[i] by {
        lemma_letters_from(t, nl, 0, i);
        if ps[i].len() > 0 && ps[i].last() == '\r' {
            assert(ps[i][ps[i].len() - 1] == '\r');
            assert(t.contains(ps[i][ps[i].len() - 1]));
            let w = choose|w: int| 0 <= w < t.len() && t[w] == '\r';
            assert(s[w] == '\r');
        }
    }
    assert(lines_of(s) =~= ps);
    if 0 <= k < ps.len() && 0 <= at < ps[k].len() && ps[k][at] == '\n' {
        lemma_parts_hold_no_separator(t, nl, k, at);
        assert(ps[k].subrange(at, at + 1) =~= nl);
    }
}

proof fn lemma_letters_from(s: Seq<char>, sep: Seq<char>, i: nat, k: int)
    requires
        sep.len() > 0,
        i <= s.len(),
        0 <= k < parts_from(s, sep, i).len(),
    ensures
        forall|j: int|
            0 <= j < parts_from(s, sep, i)[k].len() ==> s.contains(
                #[trigger] parts_from(s, sep, i)[k][j],
            ),
    decreases s.len() - i,
{
    lemma_first_is_at(s, sep, i);
    let part = parts_from(s, sep, i)[k];
    match text::first_at(s, sep, i) {
        Some(j) => {
            if k == 0 {
                assert(part == s.subrange(i as int, j as int));
                assert forall|w: int| 0 <= w < part.len() implies s.contains(
                    #[trigger] part[w],
                ) by {
                    assert(part[w] == s[i + w]);
                }
            } else {
                assert(part == parts_from(s, sep, j + sep.len())[k - 1]);
                lemma_letters_from(s, sep, j + sep.len(), k - 1);
            }
        },
        None => {
            assert(part == s.skip(i as int));
            assert forall|w: int| 0 <= w < part.len() implies s.contains(#[trigger] part[w]) by {
                assert(part[w] == s[i + w]);
            }
        },
    }
}

/// What is taken off the end of a line is newlines, and carriage returns where they
/// are asked for too; what stays is the front of the line, and ends in neither.
pub proof fn lemma_chomped(s: Seq<char>, both: bool)
    ensures
        chomped(s, both).len() <= s.len(),
        chomped(s, both) == s.take(chomped(s, both).len() as int),
        forall|i: int|
            chomped(s, both).len() <= i < s.len() ==> #[trigger] s[i] == '\n' || (both && s[i]
                == '\r'),
        chomped(s, both).len() > 0 ==> chomped(s, both).last() != '\n' && !(both && chomped(
            s,
            both,
        ).last() == '\r'),
    decreases s.len(),
{
    if s.len() > 0 && (s.last() == '\n' || (both && s.last() == '\r')) {
        let t = s.drop_last();
        lemma_chomped(t, both);
        assert(chomped(s, both) =~= s.take(chomped(s, both).len() as int));
        assert forall|i: int| chomped(s, both).len() <= i < s.len() implies #[trigger] s[i] == '\n'
            || (both && s[i] == '\r') by {
            if i < t.len() {
                assert(t[i] == s[i]);
            }
        }
    } else {
        assert(chomped(s, both) =~= s.take(chomped(s, both).len() as int));
    }
}

/// What is trimmed is white space and stood at the ends; what stays neither begins nor
/// ends in any.
pub proof fn lemma_trimmed(s: Seq<char>) -> (cut: (int, int))
    ensures
        ({
            let t = text::trimmed_end(text::trimmed_start(s));
            let (a, b) = cut;
            &&& 0 <= a <= b <= s.len()
            &&& t == s.subrange(a, b)
            &&& forall|i: int| 0 <= i < a || b <= i < s.len() ==> text::is_space(#[trigger] s[i])
            &&& t.len() > 0 ==> !text::is_space(t[0]) && !text::is_space(t.last())
        }),
{
    let a = lemma_trimmed_start(s);
    let m = text::trimmed_start(s);
    let n = lemma_trimmed_end(m);
    let t = text::trimmed_end(m);
    assert(t =~= s.subrange(a, a + n));
    assert forall|i: int| 0 <= i < a || a + n <= i < s.len() implies text::is_space(
        #[trigger] s[i],
    ) by {
        if i >= a {
            assert(m[i - a] == s[i]);
        }
    }
    if t.len() > 0 {
        assert(t[0] == m[0]);
    }
    (a, a + n)
}

proof fn lemma_trimmed_start(s: Seq<char>) -> (a: int)
    ensures
        0 <= a <= s.len(),
        text::trimmed_start(s) == s.skip(a),
        forall|i: int| 0 <= i < a ==> text::is_space(#[trigger] s[i]),
        text::trimmed_start(s).len() > 0 ==> !text::is_space(text::trimmed_start(s)[0]),
    decreases s.len(),
{
    if s.len() > 0 && text::is_space(s[0]) {
        let t = s.drop_first();
        let b = lemma_trimmed_start(t);
        assert(t.skip(b) =~= s.skip(b + 1));
        assert forall|i: int| 0 <= i < b + 1 implies text::is_space(#[trigger] s[i]) by {
            if i > 0 {
                assert(t[i - 1] == s[i]);
            }
        }
        b + 1
    } else {
        assert(s.skip(0) =~= s);
        0
    }
}

proof fn lemma_trimmed_end(s: Seq<char>) -> (n: int)
    ensures
        0 <= n <= s.len(),
        text::trimmed_end(s) == s.take(n),
        forall|i: int| n <= i < s.len() ==> text::is_space(#[trigger] s[i]),
        text::trimmed_end(s).len() > 0 ==> !text::is_space(text::trimmed_end(s).last()),
    decreases s.len(),
{
    if s.len() > 0 && text::is_space(s.last()) {
        let t = s.drop_last();
        let n = lemma_trimmed_end(t);
        assert(t.take(n) =~= s.take(n));
        assert forall|i: int| n <= i < s.len() implies text::is_space(#[trigger] s[i]) by {
            if i < t.len() {
                assert(t[i] == s[i]);
            }
        }
        n
    } else {
        assert(s.take(s.len() as int) =~= s);
        s.len() as int
    }
}

} // verus!
