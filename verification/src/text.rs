//! Text: taking strings apart into characters and putting them together.
use vstd::prelude::*;

verus! {

/// `String::push` appends one character.
pub assume_specification[ String::push ](s: &mut String, c: char)
    ensures
        final(s)@ == old(s)@.push(c),
;

/// The equality of string slices, which compares their text.
#[verifier::external_body]
pub(crate) fn same(a: &str, b: &str) -> (r: bool)
    ensures
        r == (a@ == b@),
{
    a == b
}

/// The characters Unicode gives the property `White_Space`.
pub open spec fn is_space(c: char) -> bool {
    ||| '\u{9}' <= c && c <= '\u{d}'
    ||| c == '\u{20}' || c == '\u{85}' || c == '\u{a0}' || c == '\u{1680}'
    ||| '\u{2000}' <= c && c <= '\u{200a}'
    ||| c == '\u{2028}' || c == '\u{2029}' || c == '\u{202f}' || c == '\u{205f}'
    ||| c == '\u{3000}'
}

/// Is this character white space?
pub(crate) fn char_is_space(c: char) -> (r: bool)
    ensures
        r == is_space(c),
{
    ('\u{9}' <= c && c <= '\u{d}') || c == '\u{20}' || c == '\u{85}' || c == '\u{a0}' || c
        == '\u{1680}' || ('\u{2000}' <= c && c <= '\u{200a}') || c == '\u{2028}' || c == '\u{2029}'
        || c == '\u{202f}' || c == '\u{205f}' || c == '\u{3000}'
}

pub open spec fn ascii_letter(c: char) -> bool {
    'a' <= c && c <= 'z' || 'A' <= c && c <= 'Z'
}

pub open spec fn ascii_digit(c: char) -> bool {
    '0' <= c && c <= '9'
}

/// Does Unicode call this character, which is not ASCII, a letter?
pub uninterp spec fn unicode_letter(c: char) -> bool;

/// Does Unicode call this character, which is not ASCII, a letter or a number?
pub uninterp spec fn unicode_alnum(c: char) -> bool;

pub open spec fn is_letter(c: char) -> bool {
    if c <= '\u{7f}' {
        ascii_letter(c)
    } else {
        unicode_letter(c)
    }
}

pub open spec fn is_alnum(c: char) -> bool {
    if c <= '\u{7f}' {
        ascii_letter(c) || ascii_digit(c)
    } else {
        unicode_alnum(c)
    }
}

/// `char::is_alphabetic`, whose answer depends on the character alone. Of the
/// ASCII characters it takes `a` to `z` and `A` to `Z`.
#[verifier::external_body]
pub(crate) fn char_is_letter(c: char) -> (r: bool)
    ensures
        c <= '\u{7f}' ==> r == ascii_letter(c),
        c > '\u{7f}' ==> r == unicode_letter(c),
{
    c.is_alphabetic()
}

/// `char::is_alphanumeric`, whose answer depends on the character alone. Of the
/// ASCII characters it takes the letters and the digits.
#[verifier::external_body]
pub(crate) fn char_is_alnum(c: char) -> (r: bool)
    ensures
        c <= '\u{7f}' ==> r == (ascii_letter(c) || ascii_digit(c)),
        c > '\u{7f}' ==> r == unicode_alnum(c),
{
    c.is_alphanumeric()
}

/// The characters of a string, one by one.
pub fn chars_of(s: &str) -> (r: Vec<char>)
    ensures
        r@ == s@,
{
    let mut out: Vec<char> = Vec::new();
    for c in it: s.chars()
        invariant
            it.seq() == s@,
            out@ == s@.take(it.index() as int),
    {
        out.push(c);
        assert(out@ == s@.take(it.index() as int + 1));
    }
    assert(s@.take(s@.len() as int) == s@);
    out
}

/// The string made of a run of characters.
pub fn string_of(cs: &Vec<char>, from: usize, to: usize) -> (r: String)
    requires
        from <= to <= cs@.len(),
    ensures
        r@ == cs@.subrange(from as int, to as int),
{
    let mut out = String::new();
    let mut i: usize = from;
    while i < to
        invariant
            from <= i <= to <= cs@.len(),
            out@ == cs@.subrange(from as int, i as int),
        decreases to - i,
    {
        out.push(cs[i]);
        assert(out@ == cs@.subrange(from as int, i as int + 1));
        i = i + 1;
    }
    out
}

/// One decimal digit.
pub open spec fn digit(d: nat) -> char {
    (48 + d) as char
}

/// A number in decimal, without leading zeros.
pub open spec fn decimal(n: nat) -> Seq<char>
    decreases n,
{
    if n < 10 {
        seq![digit(n)]
    } else {
        decimal(n / 10).push(digit(n % 10))
    }
}

/// Append a number in decimal.
pub fn push_decimal(out: &mut String, n: u64)
    ensures
        final(out)@ == old(out)@ + decimal(n as nat),
    decreases n,
{
    if n >= 10 {
        push_decimal(out, n / 10);
    }
    let d: u8 = (n % 10) as u8;
    let c: char = (48 + d) as char;
    out.push(c);
    assert(c == digit((n % 10) as nat));
    assert(out@ == old(out)@ + decimal(n as nat));
}

/// The text of `a` followed by that of `b`.
pub fn joined(a: &str, b: &str) -> (r: String)
    ensures
        r@ == a@ + b@,
{
    let mut out = a.to_owned();
    out.append(b);
    out
}

/// The same text, owned.
pub fn owned(a: &str) -> (r: String)
    ensures
        r@ == a@,
{
    a.to_owned()
}

/// One hexadecimal digit.
pub open spec fn hex_digit(d: nat) -> char {
    if d < 10 {
        (48 + d) as char
    } else {
        (87 + d) as char
    }
}

/// A number in hexadecimal, without leading zeros.
pub open spec fn hexadecimal(n: nat) -> Seq<char>
    decreases n,
{
    if n < 16 {
        seq![hex_digit(n)]
    } else {
        hexadecimal(n / 16).push(hex_digit(n % 16))
    }
}

/// Append a number in hexadecimal.
pub fn push_hex(out: &mut String, n: u64)
    ensures
        final(out)@ == old(out)@ + hexadecimal(n as nat),
    decreases n,
{
    if n >= 16 {
        push_hex(out, n / 16);
    }
    let d: u8 = (n % 16) as u8;
    let c: char = if d < 10 {
        (48 + d) as char
    } else {
        (87 + d) as char
    };
    out.push(c);
    assert(c == hex_digit((n % 16) as nat));
    assert(out@ == old(out)@ + hexadecimal(n as nat));
}

/// A text as a string literal would spell it.
pub uninterp spec fn quoted(s: Seq<char>) -> Seq<char>;

/// The debug form of a string, which depends on its text alone.
#[verifier::external_body]
pub(crate) fn quote(s: &str) -> (r: String)
    ensures
        r@ == quoted(s@),
{
    format!("{s:?}")
}

/// Does `a` come before `b`, comparing from the character at `i` on? Texts
/// are ordered by their first difference, and a text comes before every
/// longer one it begins.
pub open spec fn before(a: Seq<char>, b: Seq<char>, i: nat) -> bool
    decreases b.len() - i,
{
    i < b.len() && (i >= a.len() || (a[i as int] as int) < (b[i as int] as int) || (a[i as int]
        == b[i as int] && before(a, b, i + 1)))
}

/// What is not before another, and that not before a third, is not before the
/// third: texts are in one row.
pub proof fn lemma_before_row(a: Seq<char>, b: Seq<char>, c: Seq<char>, i: nat)
    requires
        !before(a, b, i),
        !before(b, c, i),
    ensures
        !before(a, c, i),
    decreases c.len() - i,
{
    if i < c.len() && i < b.len() && i < a.len() && a[i as int] == b[i as int] && b[i as int]
        == c[i as int] {
        lemma_before_row(a, b, c, i + 1);
    }
}

/// No text is before another that is before it.
pub proof fn lemma_before_one_way(a: Seq<char>, b: Seq<char>, i: nat)
    ensures
        !(before(a, b, i) && before(b, a, i)),
    decreases b.len() - i,
{
    if i < b.len() && i < a.len() && a[i as int] == b[i as int] {
        lemma_before_one_way(a, b, i + 1);
    }
}

/// Does the text `a` come before the text `b`?
pub fn comes_before(a: &str, b: &str) -> (r: bool)
    ensures
        r == before(a@, b@, 0),
{
    let x = chars_of(a);
    let y = chars_of(b);
    let mut i: usize = 0;
    loop
        invariant
            x@ == a@,
            y@ == b@,
            i <= x@.len(),
            i <= y@.len(),
            before(a@, b@, i as nat) == before(a@, b@, 0),
        decreases y@.len() - i,
    {
        if i >= y.len() {
            return false;
        }
        if i >= x.len() {
            return true;
        }
        let c: char = x[i];
        let d: char = y[i];
        if c != d {
            return c < d;
        }
        i = i + 1;
    }
}

/// Of two texts exactly one of these holds: one comes first, the other does,
/// or they are the same.
pub proof fn lemma_before_total(a: Seq<char>, b: Seq<char>, i: nat)
    requires
        i <= a.len(),
        i <= b.len(),
        a.take(i as int) == b.take(i as int),
    ensures
        before(a, b, i) || before(b, a, i) || a == b,
        !(before(a, b, i) && before(b, a, i)),
        a == b ==> !before(a, b, i),
    decreases b.len() - i,
{
    if i == a.len() && i == b.len() {
        assert(a.take(i as int) == a);
        assert(b.take(i as int) == b);
    } else if i < a.len() && i < b.len() {
        if a[i as int] == b[i as int] {
            assert(a.take(i as int + 1) =~= a.take(i as int).push(a[i as int]));
            assert(b.take(i as int + 1) =~= b.take(i as int).push(b[i as int]));
            lemma_before_total(a, b, i + 1);
        }
    }
}

// ---- looking for text in text -----------------------------------------------------------

/// Does `what` stand in `text` at place `i`?
pub open spec fn is_at(text: Seq<char>, what: Seq<char>, i: int) -> bool {
    0 <= i && i + what.len() <= text.len() && text.subrange(i, i + what.len()) == what
}

/// The first place from `i` on where `what` stands.
pub open spec fn first_at(text: Seq<char>, what: Seq<char>, i: nat) -> Option<nat>
    decreases text.len() + 1 - i,
{
    if i > text.len() {
        None
    } else if is_at(text, what, i as int) {
        Some(i)
    } else {
        first_at(text, what, i + 1)
    }
}

/// The last place before `i` where `what` stands wholly before `i`.
pub open spec fn last_at(text: Seq<char>, what: Seq<char>, i: nat) -> Option<nat>
    decreases i,
{
    if i == 0 {
        None
    } else if is_at(text, what, i - 1) {
        Some((i - 1) as nat)
    } else {
        last_at(text, what, (i - 1) as nat)
    }
}

/// What is found stands there, and not before the place it was looked for from.
pub proof fn lemma_first_at(text: Seq<char>, what: Seq<char>, i: nat)
    ensures
        first_at(text, what, i) matches Some(k) ==> i <= k && is_at(text, what, k as int),
    decreases text.len() + 1 - i,
{
    if i <= text.len() && !is_at(text, what, i as int) {
        lemma_first_at(text, what, i + 1);
    }
}

/// What is found stands there, before the place it was looked for from.
pub proof fn lemma_last_at(text: Seq<char>, what: Seq<char>, i: nat)
    ensures
        last_at(text, what, i) matches Some(k) ==> k < i && is_at(text, what, k as int),
    decreases i,
{
    if i > 0 && !is_at(text, what, i - 1) {
        lemma_last_at(text, what, (i - 1) as nat);
    }
}

pub(crate) fn stands_at(text: &Vec<char>, what: &Vec<char>, i: usize) -> (r: bool)
    ensures
        r == is_at(text@, what@, i as int),
{
    let n: usize = text.len();
    if i > n || what.len() > n - i {
        return false;
    }
    let mut k: usize = 0;
    while k < what.len()
        invariant
            k <= what@.len(),
            i + what@.len() <= n,
            n == text@.len(),
            forall|j: int| 0 <= j < k ==> #[trigger] what@[j] == text@[i + j],
        decreases what@.len() - k,
    {
        if text[i + k] != what[k] {
            assert(text@.subrange(i as int, i + what@.len())[k as int] == text@[i + k]);
            return false;
        }
        k = k + 1;
    }
    assert(text@.subrange(i as int, i + what@.len()) =~= what@);
    true
}

pub(crate) fn find_from(text: &Vec<char>, what: &Vec<char>, from: usize) -> (r: Option<usize>)
    ensures
        match r {
            Some(i) => first_at(text@, what@, from as nat) == Some(i as nat) && from <= i && is_at(
                text@,
                what@,
                i as int,
            ),
            None => first_at(text@, what@, from as nat) is None,
        },
{
    let n: usize = text.len();
    let mut i: usize = from;
    while i < n
        invariant
            n == text@.len(),
            from <= i,
            first_at(text@, what@, i as nat) == first_at(text@, what@, from as nat),
        decreases n - i,
    {
        if stands_at(text, what, i) {
            return Some(i);
        }
        i = i + 1;
    }
    if i == n && stands_at(text, what, i) {
        return Some(i);
    }
    assert(first_at(text@, what@, (n + 1) as nat) is None);
    None
}

pub(crate) fn find_last(text: &Vec<char>, what: &Vec<char>, before_place: usize) -> (r: Option<usize>)
    ensures
        match r {
            Some(i) => last_at(text@, what@, before_place as nat) == Some(i as nat) && i
                < before_place && is_at(text@, what@, i as int),
            None => last_at(text@, what@, before_place as nat) is None,
        },
{
    let mut i: usize = before_place;
    while i > 0
        invariant
            i <= before_place,
            last_at(text@, what@, i as nat) == last_at(text@, what@, before_place as nat),
        decreases i,
    {
        i = i - 1;
        if stands_at(text, what, i) {
            return Some(i);
        }
    }
    None
}

// ---- white space at the ends -------------------------------------------------------------

/// A text without the white space it starts with.
pub open spec fn trimmed_start(s: Seq<char>) -> Seq<char>
    decreases s.len(),
{
    if s.len() > 0 && is_space(s[0]) {
        trimmed_start(s.drop_first())
    } else {
        s
    }
}

/// A text without the white space it ends with.
pub open spec fn trimmed_end(s: Seq<char>) -> Seq<char>
    decreases s.len(),
{
    if s.len() > 0 && is_space(s.last()) {
        trimmed_end(s.drop_last())
    } else {
        s
    }
}

pub fn trim_start(s: &str) -> (r: String)
    ensures
        r@ == trimmed_start(s@),
{
    let cs = chars_of(s);
    let n: usize = cs.len();
    let mut i: usize = 0;
    assert(cs@.skip(0) =~= s@);
    while i < n && char_is_space(cs[i])
        invariant
            i <= n,
            n == cs@.len(),
            cs@ == s@,
            trimmed_start(cs@.skip(i as int)) == trimmed_start(s@),
        decreases n - i,
    {
        assert(cs@.skip(i as int).drop_first() =~= cs@.skip(i as int + 1));
        i = i + 1;
    }
    assert(cs@.subrange(i as int, n as int) =~= cs@.skip(i as int));
    string_of(&cs, i, n)
}

pub fn trim_end(s: &str) -> (r: String)
    ensures
        r@ == trimmed_end(s@),
{
    let cs = chars_of(s);
    let mut n: usize = cs.len();
    assert(cs@.take(n as int) =~= s@);
    while n > 0 && char_is_space(cs[n - 1])
        invariant
            n <= cs@.len(),
            cs@ == s@,
            trimmed_end(cs@.take(n as int)) == trimmed_end(s@),
        decreases n,
    {
        assert(cs@.take(n as int).drop_last() =~= cs@.take(n - 1));
        assert(cs@.take(n as int).last() == cs@[n - 1]);
        n = n - 1;
    }
    assert(cs@.subrange(0, n as int) =~= cs@.take(n as int));
    if n > 0 {
        assert(cs@.take(n as int).last() == cs@[n - 1]);
    }
    string_of(&cs, 0, n)
}

/// A text without the white space around it.
pub fn trim(s: &str) -> (r: String)
    ensures
        r@ == trimmed_end(trimmed_start(s@)),
{
    let front = trim_start(s);
    trim_end(front.as_str())
}

// ---- numbers written in decimal ----------------------------------------------------------

pub open spec fn is_digit(c: char) -> bool {
    '0' <= c && c <= '9'
}

/// The number some digits spell.
pub open spec fn digits_value(s: Seq<char>) -> nat
    decreases s.len(),
{
    if s.len() == 0 {
        0
    } else {
        digits_value(s.drop_last()) * 10 + (s.last() as nat - 48) as nat
    }
}

pub open spec fn all_digits(s: Seq<char>) -> bool {
    forall|i: int| 0 <= i < s.len() ==> is_digit(#[trigger] s[i])
}

pub open spec fn unsigned_part(s: Seq<char>) -> Seq<char> {
    if s.len() > 0 && s[0] == '+' {
        s.skip(1)
    } else {
        s
    }
}

/// The number a text spells: digits, perhaps after a plus sign, and no more
/// than `max`.
pub open spec fn spelled(s: Seq<char>, max: nat) -> Option<nat> {
    let d = unsigned_part(s);
    if d.len() > 0 && all_digits(d) && digits_value(d) <= max {
        Some(digits_value(d))
    } else {
        None
    }
}

/// Read a number no greater than `max`.
pub fn parse_number(s: &str, max: u64) -> (r: Option<u64>)
    ensures
        match r {
            Some(n) => spelled(s@, max as nat) == Some(n as nat),
            None => spelled(s@, max as nat) is None,
        },
{
    let cs = chars_of(s);
    let from: usize = if cs.len() > 0 && cs[0] == '+' {
        1
    } else {
        0
    };
    let ghost d = unsigned_part(s@);
    assert(d =~= cs@.skip(from as int));
    if cs.len() == from {
        return None;
    }
    let mut n: u64 = 0;
    let mut over: bool = false;
    let mut i: usize = from;
    while i < cs.len()
        invariant
            from <= i <= cs@.len(),
            d == unsigned_part(s@),
            d == cs@.skip(from as int),
            forall|k: int| 0 <= k < i - from ==> is_digit(#[trigger] d[k]),
            over ==> digits_value(d.take(i - from)) > max,
            !over ==> n == digits_value(d.take(i - from)) && n <= max,
        decreases cs@.len() - i,
    {
        let c: char = cs[i];
        assert(d[i - from] == c);
        if c < '0' || c > '9' {
            assert(!is_digit(d[i - from]));
            return None;
        }
        let v: u64 = (c as u32 - 48) as u64;
        assert(d.take(i - from + 1).drop_last() =~= d.take(i - from));
        assert(d.take(i - from + 1).last() == c);
        if !over {
            if n > (u64::MAX - v) / 10 {
                over = true;
            } else {
                n = n * 10 + v;
                if n > max {
                    over = true;
                }
            }
        }
        i = i + 1;
    }
    assert(d.take(d.len() as int) =~= d);
    if over {
        None
    } else {
        Some(n)
    }
}

/// A number in hexadecimal, with zeros in front to make so many digits.
pub open spec fn hex_padded(n: nat, width: nat) -> Seq<char>
    decreases width,
{
    if width == 0 {
        Seq::empty()
    } else {
        hex_padded(n / 16, (width - 1) as nat).push(hex_digit(n % 16))
    }
}

/// Append the last `width` hexadecimal digits of a number.
pub fn push_hex_padded(out: &mut String, n: u64, width: usize)
    ensures
        final(out)@ == old(out)@ + hex_padded(n as nat, width as nat),
    decreases width,
{
    if width > 0 {
        push_hex_padded(out, n / 16, width - 1);
        let d: u8 = (n % 16) as u8;
        let c: char = if d < 10 {
            (48 + d) as char
        } else {
            (87 + d) as char
        };
        out.push(c);
        assert(c == hex_digit((n % 16) as nat));
    }
    assert(out@ =~= old(out)@ + hex_padded(n as nat, width as nat));
}

} // verus!
