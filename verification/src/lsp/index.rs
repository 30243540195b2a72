//! Byte offsets on one side, line and character on the other.
//!
//! The front end counts bytes. An editor counts lines, and within a line it
//! counts UTF-16 code units, which is neither bytes nor characters.
use crate::text;
use vstd::prelude::*;

verus! {

/// A line, and how far into it, both from zero.
#[derive(Clone, Copy, Debug, PartialEq, Eq, Structural)]
pub struct Position {
    pub line: u32,
    pub character: u32,
}

#[derive(Clone, Copy, Debug, PartialEq, Eq, Structural)]
pub struct Range {
    pub start: Position,
    pub end: Position,
}

/// How many bytes a character takes.
pub open spec fn width8(c: char) -> nat {
    if c as int <= 0x7f {
        1
    } else if c as int <= 0x7ff {
        2
    } else if c as int <= 0xffff {
        3
    } else {
        4
    }
}

/// How many UTF-16 units a character takes.
pub open spec fn width16(c: char) -> nat {
    if c as int <= 0xffff {
        1
    } else {
        2
    }
}

/// The bytes of the first `k` characters.
pub open spec fn bytes_before(s: Seq<char>, k: nat) -> nat
    decreases k,
{
    if k == 0 {
        0
    } else {
        bytes_before(s, (k - 1) as nat) + width8(s[k - 1])
    }
}

/// The lines ended by the first `k` characters.
pub open spec fn newlines(s: Seq<char>, k: nat) -> nat
    decreases k,
{
    if k == 0 {
        0
    } else if s[k - 1] == '\n' {
        newlines(s, (k - 1) as nat) + 1
    } else {
        newlines(s, (k - 1) as nat)
    }
}

/// How far into its line the place before character `k` is, in UTF-16.
pub open spec fn column(s: Seq<char>, k: nat) -> nat
    decreases k,
{
    if k == 0 || s[k - 1] == '\n' {
        0
    } else {
        column(s, (k - 1) as nat) + width16(s[k - 1])
    }
}

/// Where a text's lines start, in bytes, among its first `k` characters.
pub open spec fn line_starts(s: Seq<char>, k: nat) -> Seq<u32>
    decreases k,
{
    if k == 0 {
        seq![0u32]
    } else if s[k - 1] == '\n' {
        line_starts(s, (k - 1) as nat).push(bytes_before(s, k) as u32)
    } else {
        line_starts(s, (k - 1) as nat)
    }
}

/// The first place from `i` on that is at least so many bytes in.
pub open spec fn place_at(s: Seq<char>, offset: nat, i: nat) -> nat
    decreases s.len() - i,
{
    if i >= s.len() || bytes_before(s, i) >= offset {
        i
    } else {
        place_at(s, offset, i + 1)
    }
}

pub open spec fn clamped(s: Seq<char>, offset: u32) -> nat {
    if offset < bytes_before(s, s.len()) {
        offset as nat
    } else {
        bytes_before(s, s.len())
    }
}

/// Does an offset fall between two characters, or past the end?
pub open spec fn on_boundary(s: Seq<char>, offset: u32) -> bool {
    bytes_before(s, place_at(s, clamped(s, offset), 0)) == clamped(s, offset)
}

/// The text between two offsets.
pub open spec fn between_of(s: Seq<char>, lo: u32, hi: u32) -> Seq<char> {
    s.subrange(place_at(s, clamped(s, lo), 0) as int, place_at(s, clamped(s, hi), 0) as int)
}

/// The line and character of an offset.
pub open spec fn position_of(s: Seq<char>, offset: u32) -> Position {
    let k = place_at(s, clamped(s, offset), 0);
    Position { line: newlines(s, k) as u32, character: column(s, k) as u32 }
}

/// The first place from `i` on that is on a line.
pub open spec fn start_of(s: Seq<char>, line: nat, i: nat) -> nat
    decreases s.len() - i,
{
    if i >= s.len() || newlines(s, i) >= line {
        i
    } else {
        start_of(s, line, i + 1)
    }
}

/// The place so far into a line, or where the line ends.
pub open spec fn along(s: Seq<char>, character: nat, i: nat) -> nat
    decreases s.len() - i,
{
    if i >= s.len() || column(s, i) >= character || s[i as int] == '\n' {
        i
    } else {
        along(s, character, i + 1)
    }
}

/// The offset of a line and character, kept within the text.
pub open spec fn offset_of(s: Seq<char>, at: Position) -> nat {
    if at.line > newlines(s, s.len()) {
        bytes_before(s, s.len())
    } else {
        bytes_before(s, along(s, at.character as nat, start_of(s, at.line as nat, 0)))
    }
}

/// The bytes of a text are those of its characters.
pub proof fn lemma_bytes(s: Seq<char>, k: nat)
    requires
        k <= s.len(),
    ensures
        bytes_before(s, k) == vstd::utf8::encode_utf8(s.take(k as int)).len(),
    decreases k,
{
    if k > 0 {
        lemma_bytes(s, (k - 1) as nat);
        assert(s.take(k as int) =~= s.take(k - 1).push(s[k - 1]));
        lemma_one_more(s.take(k - 1), s[k - 1]);
    }
}

proof fn lemma_one_more(s: Seq<char>, c: char)
    ensures
        vstd::utf8::encode_utf8(s.push(c)).len() == vstd::utf8::encode_utf8(s).len() + width8(c),
    decreases s.len(),
{
    broadcast use vstd::utf8::char_is_scalar;

    let t = s.push(c);
    if s.len() == 0 {
        assert(t.drop_first() =~= Seq::<char>::empty());
        assert(t[0] == c);
        assert(vstd::utf8::encode_utf8(Seq::<char>::empty()).len() == 0);
        assert(vstd::utf8::encode_utf8(t) == vstd::utf8::encode_scalar(c as u32) + vstd::utf8::encode_utf8(
            t.drop_first(),
        ));
    } else {
        assert(t.drop_first() =~= s.drop_first().push(c));
        assert(t[0] == s[0]);
        lemma_one_more(s.drop_first(), c);
    }
}

proof fn lemma_counts(s: Seq<char>, k: nat)
    requires
        k <= s.len(),
    ensures
        k <= bytes_before(s, k) <= bytes_before(s, s.len()),
        newlines(s, k) <= k,
        newlines(s, k) <= newlines(s, s.len()),
        column(s, k) <= bytes_before(s, k),
    decreases s.len() - k,
{
    lemma_below(s, k);
    if k < s.len() {
        lemma_counts(s, k + 1);
    }
}

proof fn lemma_below(s: Seq<char>, k: nat)
    requires
        k <= s.len(),
    ensures
        k <= bytes_before(s, k),
        newlines(s, k) <= k,
        column(s, k) <= bytes_before(s, k),
    decreases k,
{
    if k > 0 {
        lemma_below(s, (k - 1) as nat);
    }
}

fn bytes_of(c: char) -> (r: u32)
    ensures
        r == width8(c),
{
    let n: u32 = c as u32;
    if n <= 0x7f {
        1
    } else if n <= 0x7ff {
        2
    } else if n <= 0xffff {
        3
    } else {
        4
    }
}

fn units_of(c: char) -> (r: u32)
    ensures
        r == width16(c),
{
    if c as u32 <= 0xffff {
        1
    } else {
        2
    }
}

/// A text, and where every line of it starts.
pub struct LineIndex {
    starts: Vec<u32>,
    chars: Vec<char>,
    text: String,
}

impl View for LineIndex {
    type V = Seq<char>;

    closed spec fn view(&self) -> Seq<char> {
        self.text@
    }
}

impl LineIndex {
    pub closed spec fn wf(&self) -> bool {
        &&& self.chars@ == self.text@
        &&& bytes_before(self.text@, self.text@.len()) <= u32::MAX
        &&& self.starts@ == line_starts(self.text@, self.text@.len())
    }

    pub fn new(text: &str) -> (r: LineIndex)
        requires
            bytes_before(text@, text@.len()) <= u32::MAX,
        ensures
            r.wf(),
            r@ == text@,
    {
        let chars = text::chars_of(text);
        let ghost s = text@;
        let mut starts: Vec<u32> = Vec::new();
        starts.push(0);
        assert(starts@ =~= line_starts(s, 0));
        let mut at: u32 = 0;
        let mut i: usize = 0;
        while i < chars.len()
            invariant
                i <= chars@.len(),
                chars@ == s,
                bytes_before(s, s.len()) <= u32::MAX,
                at == bytes_before(s, i as nat),
                starts@ == line_starts(s, i as nat),
            decreases chars@.len() - i,
        {
            proof {
                lemma_counts(s, (i + 1) as nat);
            }
            at = at + bytes_of(chars[i]);
            if chars[i] == '\n' {
                starts.push(at);
            }
            i = i + 1;
        }
        LineIndex { starts, chars, text: text::owned(text) }
    }

    pub fn text(&self) -> (r: &str)
        ensures
            r@ == self@,
    {
        self.text.as_str()
    }

    /// The line a byte offset falls on, and how far into it, in UTF-16.
    pub fn position(&self, offset: u32) -> (r: Position)
        requires
            self.wf(),
            on_boundary(self@, offset),
        ensures
            r == position_of(self@, offset),
    {
        let ghost s = self@;
        let mut at: u32 = 0;
        let mut line: u32 = 0;
        let mut character: u32 = 0;
        let mut i: usize = 0;
        let ghost want = clamped(s, offset);
        while i < self.chars.len() && at < offset
            invariant
                i <= self.chars@.len(),
                self.wf(),
                s == self@,
                want == clamped(s, offset),
                at == bytes_before(s, i as nat),
                line == newlines(s, i as nat),
                character == column(s, i as nat),
                place_at(s, want, i as nat) == place_at(s, want, 0),
            decreases self.chars@.len() - i,
        {
            proof {
                lemma_counts(s, i as nat);
                lemma_counts(s, (i + 1) as nat);
                lemma_strict(s, i as nat);
            }
            let c: char = self.chars[i];
            at = at + bytes_of(c);
            if c == '\n' {
                line = line + 1;
                character = 0;
            } else {
                character = character + units_of(c);
            }
            i = i + 1;
        }
        proof {
            lemma_counts(s, i as nat);
            assert(i >= s.len() || bytes_before(s, i as nat) >= want);
        }
        Position { line, character }
    }

    /// The byte offset of a line and character, kept within the text.
    pub fn offset(&self, at: Position) -> (r: u32)
        requires
            self.wf(),
        ensures
            r == offset_of(self@, at),
    {
        let ghost s = self@;
        let mut bytes: u32 = 0;
        let mut line: u32 = 0;
        let mut i: usize = 0;
        while i < self.chars.len() && line < at.line
            invariant
                i <= self.chars@.len(),
                self.wf(),
                s == self@,
                bytes == bytes_before(s, i as nat),
                line == newlines(s, i as nat),
                start_of(s, at.line as nat, i as nat) == start_of(s, at.line as nat, 0),
            decreases self.chars@.len() - i,
        {
            proof {
                lemma_counts(s, i as nat);
                lemma_counts(s, (i + 1) as nat);
            }
            bytes = bytes + bytes_of(self.chars[i]);
            if self.chars[i] == '\n' {
                line = line + 1;
            }
            i = i + 1;
        }
        proof {
            lemma_counts(s, i as nat);
        }
        if line < at.line {
            assert(i == s.len());
            return bytes;
        }
        let ghost from = i as nat;
        assert(start_of(s, at.line as nat, 0) == from);
        let mut units: u32 = 0;
        proof {
            lemma_start(s, at.line as nat, 0);
            assert(column(s, from) == 0);
        }
        while i < self.chars.len() && units < at.character && self.chars[i] != '\n'
            invariant
                from <= i <= self.chars@.len(),
                self.wf(),
                s == self@,
                bytes == bytes_before(s, i as nat),
                units == column(s, i as nat),
                along(s, at.character as nat, i as nat) == along(s, at.character as nat, from),
            decreases self.chars@.len() - i,
        {
            proof {
                lemma_counts(s, i as nat);
                lemma_counts(s, (i + 1) as nat);
            }
            bytes = bytes + bytes_of(self.chars[i]);
            units = units + units_of(self.chars[i]);
            i = i + 1;
        }
        bytes
    }

    /// The place in the text an offset stands before.
    fn place(&self, offset: u32) -> (r: usize)
        requires
            self.wf(),
        ensures
            r == place_at(self@, clamped(self@, offset), 0),
            r <= self.chars@.len(),
    {
        let ghost s = self@;
        let ghost want = clamped(s, offset);
        let mut at: u32 = 0;
        let mut i: usize = 0;
        while i < self.chars.len() && at < offset
            invariant
                i <= self.chars@.len(),
                self.wf(),
                s == self@,
                want == clamped(s, offset),
                at == bytes_before(s, i as nat),
                place_at(s, want, i as nat) == place_at(s, want, 0),
            decreases self.chars@.len() - i,
        {
            proof {
                lemma_counts(s, (i + 1) as nat);
                lemma_strict(s, i as nat);
            }
            at = at + bytes_of(self.chars[i]);
            i = i + 1;
        }
        proof {
            lemma_counts(s, i as nat);
            assert(i >= s.len() || bytes_before(s, i as nat) >= want);
        }
        i
    }

    /// The text between two offsets.
    pub fn between(&self, lo: u32, hi: u32) -> (r: String)
        requires
            self.wf(),
            lo <= hi,
            on_boundary(self@, lo),
            on_boundary(self@, hi),
        ensures
            r@ == between_of(self@, lo, hi),
    {
        let a: usize = self.place(lo);
        let b: usize = self.place(hi);
        proof {
            if b < a {
                lemma_monotone(self@, b as nat, a as nat);
            }
        }
        text::string_of(&self.chars, a, b)
    }

    pub fn range(&self, lo: u32, hi: u32) -> (r: Range)
        requires
            self.wf(),
            on_boundary(self@, lo),
            on_boundary(self@, hi),
        ensures
            r == (Range { start: position_of(self@, lo), end: position_of(self@, hi) }),
    {
        Range { start: self.position(lo), end: self.position(hi) }
    }

    /// Is this span written on one line?
    pub fn one_line(&self, lo: u32, hi: u32) -> (r: bool)
        requires
            self.wf(),
            on_boundary(self@, lo),
            on_boundary(self@, hi),
        ensures
            r == (position_of(self@, lo).line == position_of(self@, hi).line),
    {
        self.position(lo).line == self.position(hi).line
    }
}

/// More characters are more bytes.
proof fn lemma_strict(s: Seq<char>, k: nat)
    requires
        k < s.len(),
    ensures
        bytes_before(s, k) < bytes_before(s, k + 1) <= bytes_before(s, s.len()),
{
    lemma_counts(s, k + 1);
}

/// The first place on a line is at its very start.
proof fn lemma_start(s: Seq<char>, line: nat, i: nat)
    requires
        i <= s.len(),
        newlines(s, i) <= line,
        newlines(s, i) == line ==> column(s, i) == 0,
    ensures
        ({
            let k = start_of(s, line, i);
            &&& i <= k <= s.len()
            &&& newlines(s, k) <= line
            &&& newlines(s, k) == line ==> column(s, k) == 0
            &&& k >= s.len() || newlines(s, k) == line
            &&& forall|j: nat| i <= j < k ==> #[trigger] newlines(s, j) < line
        }),
    decreases s.len() - i,
{
    if i < s.len() && newlines(s, i) < line {
        lemma_start(s, line, i + 1);
    }
}

proof fn lemma_monotone(s: Seq<char>, a: nat, b: nat)
    requires
        a <= b <= s.len(),
    ensures
        newlines(s, a) <= newlines(s, b),
        bytes_before(s, a) <= bytes_before(s, b),
        a < b ==> bytes_before(s, a) < bytes_before(s, b),
    decreases b - a,
{
    if a < b {
        lemma_monotone(s, a, (b - 1) as nat);
    }
}

/// Along one line every character is further in.
proof fn lemma_columns(s: Seq<char>, a: nat, b: nat)
    requires
        a < b <= s.len(),
        newlines(s, a) == newlines(s, b),
    ensures
        column(s, a) < column(s, b),
    decreases b - a,
{
    lemma_monotone(s, a, (b - 1) as nat);
    if s[b - 1] == '\n' {
        assert(newlines(s, b) == newlines(s, (b - 1) as nat) + 1);
    }
    if a < b - 1 {
        lemma_columns(s, a, (b - 1) as nat);
    }
}

proof fn lemma_along(s: Seq<char>, i: nat, k: nat)
    requires
        i <= k <= s.len(),
        newlines(s, i) == newlines(s, k),
    ensures
        along(s, column(s, k), i) == k,
    decreases k - i,
{
    if i < k {
        lemma_columns(s, i, k);
        lemma_monotone(s, i, i + 1);
        lemma_monotone(s, i + 1, k);
        if s[i as int] == '\n' {
            assert(newlines(s, i + 1) == newlines(s, i) + 1);
        }
        lemma_along(s, i + 1, k);
    }
}

proof fn lemma_place(s: Seq<char>, k: nat, i: nat)
    requires
        i <= k <= s.len(),
    ensures
        place_at(s, bytes_before(s, k), i) == k,
    decreases k - i,
{
    if i < k {
        lemma_monotone(s, i, k);
        lemma_place(s, k, i + 1);
    }
}

/// More characters are no fewer bytes.
pub proof fn lemma_bytes_grow(s: Seq<char>, a: nat, b: nat)
    requires
        a <= b <= s.len(),
    ensures
        bytes_before(s, a) <= bytes_before(s, b),
{
    lemma_monotone(s, a, b);
}

/// The offset of the position of an offset is that offset, wherever between
/// two characters it is.
pub proof fn lemma_positions_round_trip(s: Seq<char>, k: nat)
    requires
        k <= s.len(),
        bytes_before(s, s.len()) <= u32::MAX,
    ensures
        on_boundary(s, bytes_before(s, k) as u32),
        offset_of(s, position_of(s, bytes_before(s, k) as u32)) == bytes_before(s, k),
{
    lemma_counts(s, k);
    lemma_place(s, k, 0);
    let offset = bytes_before(s, k) as u32;
    assert(clamped(s, offset) == bytes_before(s, k));
    let at = position_of(s, offset);
    assert(at.line == newlines(s, k));
    assert(at.character == column(s, k));
    lemma_start(s, newlines(s, k), 0);
    let from = start_of(s, newlines(s, k), 0);
    if from > k {
        assert(newlines(s, k) < newlines(s, k));
    }
    lemma_monotone(s, from, k);
    if newlines(s, from) < newlines(s, k) {
        assert(from >= s.len());
        assert(from == k);
    }
    lemma_along(s, from, k);
}

} // verus!
