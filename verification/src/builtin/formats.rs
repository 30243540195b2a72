//! `format`: templates with holes, and what a hole asks for.
use super::strings;
use crate::text;
use vstd::prelude::*;

verus! {

/// The most room a hole may ask for.
pub const MAX_FORMAT_WIDTH: u64 = 4096;

/// A piece of a template: text, or a hole and what stands in it.
#[verifier::ext_equal]
pub enum PieceView {
    Text(Seq<char>),
    Hole(Seq<char>),
}

pub enum Piece {
    Char(char),
    Hole(String),
}

pub open spec fn piece_view(p: Piece) -> PieceView {
    match p {
        Piece::Char(c) => PieceView::Text(seq![c]),
        Piece::Hole(s) => PieceView::Hole(s@),
    }
}

pub open spec fn piece_views(s: Seq<Piece>) -> Seq<PieceView> {
    Seq::new(s.len(), |i: int| piece_view(s[i]))
}

/// Where the next closing brace is, or the end.
pub open spec fn closing(s: Seq<char>, i: nat) -> nat
    decreases s.len() - i,
{
    if i >= s.len() || s[i as int] == '}' {
        i
    } else {
        closing(s, i + 1)
    }
}

/// A text without the colons it begins with.
pub open spec fn uncoloned(s: Seq<char>) -> Seq<char>
    decreases s.len(),
{
    if s.len() > 0 && s[0] == ':' {
        uncoloned(s.skip(1))
    } else {
        s
    }
}

/// The pieces of a template from `i` on. A brace written twice is a brace; one
/// alone opens a hole that runs to the next closing brace.
pub open spec fn pieces_from(s: Seq<char>, i: nat) -> Seq<PieceView>
    decreases s.len() + 1 - i,
{
    if i >= s.len() {
        Seq::empty()
    } else if doubled(s, i) {
        seq![PieceView::Text(seq![s[i as int]])] + pieces_from(s, i + 2)
    } else if s[i as int] != '{' {
        seq![PieceView::Text(seq![s[i as int]])] + pieces_from(s, i + 1)
    } else if i < closing(s, i + 1) <= s.len() {
        seq![
            PieceView::Hole(uncoloned(s.subrange(i as int + 1, closing(s, i + 1) as int))),
        ] + pieces_from(s, closing(s, i + 1) + 1)
    } else {
        Seq::empty()
    }
}

/// Is there a brace here, written twice?
pub open spec fn doubled(s: Seq<char>, i: nat) -> bool {
    (s[i as int] == '{' || s[i as int] == '}') && i + 1 < s.len() && s[i as int + 1] == s[i as int]
}

proof fn lemma_one_more(s: Seq<Piece>, p: Piece)
    ensures
        piece_views(s.push(p)) == piece_views(s).push(piece_view(p)),
{
    assert(piece_views(s.push(p)) =~= piece_views(s).push(piece_view(p)));
}

fn find_closing(cs: &Vec<char>, from: usize) -> (r: usize)
    requires
        from <= cs@.len(),
    ensures
        r == closing(cs@, from as nat),
        from <= r <= cs@.len(),
{
    let mut i: usize = from;
    while i < cs.len() && cs[i] != '}'
        invariant
            from <= i <= cs@.len(),
            closing(cs@, i as nat) == closing(cs@, from as nat),
        decreases cs@.len() - i,
    {
        i = i + 1;
    }
    i
}

fn strip_colons(cs: &Vec<char>, from: usize, to: usize) -> (r: String)
    requires
        from <= to <= cs@.len(),
    ensures
        r@ == uncoloned(cs@.subrange(from as int, to as int)),
{
    let mut i: usize = from;
    while i < to && cs[i] == ':'
        invariant
            from <= i <= to <= cs@.len(),
            uncoloned(cs@.subrange(i as int, to as int)) == uncoloned(
                cs@.subrange(from as int, to as int),
            ),
        decreases to - i,
    {
        assert(cs@.subrange(i as int, to as int).skip(1) =~= cs@.subrange(i + 1, to as int));
        i = i + 1;
    }
    if i < to {
        assert(cs@.subrange(i as int, to as int)[0] == cs@[i as int]);
    }
    text::string_of(cs, i, to)
}

/// Take a template apart.
pub fn pieces(fmt: &str) -> (r: Vec<Piece>)
    ensures
        piece_views(r@) == pieces_from(fmt@, 0),
{
    let cs = text::chars_of(fmt);
    let n: usize = cs.len();
    let mut out: Vec<Piece> = Vec::new();
    let mut i: usize = 0;
    assert(piece_views(out@) + pieces_from(fmt@, 0) =~= pieces_from(fmt@, 0));
    while i < n
        invariant
            n == cs@.len(),
            cs@ == fmt@,
            i <= n,
            piece_views(out@) + pieces_from(fmt@, i as nat) == pieces_from(fmt@, 0),
        decreases n - i,
    {
        let ghost before = piece_views(out@);
        let ghost here = i as nat;
        let c: char = cs[i];
        let twice: bool = i + 1 < n && cs[i + 1] == c;
        if (c == '{' || c == '}') && twice {
            proof {
                lemma_one_more(out@, Piece::Char(c));
            }
            out.push(Piece::Char(c));
            assert(piece_views(out@) + pieces_from(fmt@, here + 2) =~= before + pieces_from(
                fmt@,
                here,
            ));
            i = i + 2;
        } else if c == '{' {
            let end: usize = find_closing(&cs, i + 1);
            let spec = strip_colons(&cs, i + 1, end);
            proof {
                lemma_one_more(out@, Piece::Hole(spec));
            }
            out.push(Piece::Hole(spec));
            assert(piece_views(out@) + pieces_from(fmt@, (end + 1) as nat) =~= before
                + pieces_from(fmt@, here));
            if end < n {
                i = end + 1;
            } else {
                assert(pieces_from(fmt@, (end + 1) as nat) =~= pieces_from(fmt@, n as nat));
                i = n;
            }
        } else {
            proof {
                lemma_one_more(out@, Piece::Char(c));
            }
            out.push(Piece::Char(c));
            assert(piece_views(out@) + pieces_from(fmt@, here + 1) =~= before + pieces_from(
                fmt@,
                here,
            ));
            i = i + 1;
        }
    }
    assert(piece_views(out@) + pieces_from(fmt@, n as nat) =~= piece_views(out@));
    out
}

// ---- what a hole asks for ----------------------------------------------------------------

/// The side a value is put on.
#[derive(Clone, Copy, Debug, PartialEq, Eq, Structural)]
pub enum Side {
    Left,
    Middle,
    Right,
}

pub open spec fn side_of(c: char) -> Option<Side> {
    if c == '<' {
        Some(Side::Left)
    } else if c == '^' {
        Some(Side::Middle)
    } else if c == '>' {
        Some(Side::Right)
    } else {
        None
    }
}

fn side(c: char) -> (r: Option<Side>)
    ensures
        r == side_of(c),
{
    if c == '<' {
        Some(Side::Left)
    } else if c == '^' {
        Some(Side::Middle)
    } else if c == '>' {
        Some(Side::Right)
    } else {
        None
    }
}

/// `[[fill]align][width][.precision][kind]`.
#[verifier::ext_equal]
pub struct SpecView {
    pub fill: char,
    /// The fill is a zero before the width, which goes between sign and digits.
    pub zeros: bool,
    pub align: Option<Side>,
    pub width: nat,
    pub precision: Option<nat>,
    pub kind: Seq<char>,
}

pub struct Spec {
    pub fill: char,
    pub zeros: bool,
    pub align: Option<Side>,
    pub width: u64,
    pub precision: Option<u64>,
    pub kind: String,
}

impl View for Spec {
    type V = SpecView;

    open spec fn view(&self) -> SpecView {
        SpecView {
            fill: self.fill,
            zeros: self.zeros,
            align: self.align,
            width: self.width as nat,
            precision: match self.precision {
                Some(p) => Some(p as nat),
                None => None,
            },
            kind: self.kind@,
        }
    }
}

/// The fill, the side, how many characters said so, and whether it was a zero
/// before a width.
pub open spec fn fill_of(s: Seq<char>) -> (char, Option<Side>, nat, bool) {
    if s.len() >= 2 && side_of(s[1]) is Some {
        (s[0], side_of(s[1]), 2, false)
    } else if s.len() >= 1 && side_of(s[0]) is Some {
        (' ', side_of(s[0]), 1, false)
    } else if s.len() > 1 && s[0] == '0' {
        ('0', Some(Side::Right), 1, true)
    } else {
        (' ', None, 0, false)
    }
}

/// Where a run of digits ends.
pub open spec fn digits_end(s: Seq<char>, i: nat) -> nat
    decreases s.len() - i,
{
    if i < s.len() && text::is_digit(s[i as int]) {
        digits_end(s, i + 1)
    } else {
        i
    }
}

pub open spec fn complaint(what: Seq<char>, s: Seq<char>, end: Seq<char>) -> Seq<char> {
    what + s + end
}

/// What is asked for between the braces, or what is wrong with it.
pub open spec fn spec_of(s: Seq<char>) -> Result<SpecView, Seq<char>> {
    let (fill, align, from, zeros) = fill_of(s);
    let we = digits_end(s, from);
    let width = s.subrange(from as int, we as int);
    let dot = we < s.len() && s[we as int] == '.';
    let pe = digits_end(s, we + 1);
    let prec = s.subrange(we as int + 1, pe as int);
    if text::digits_value(width) > usize::MAX {
        Err(complaint("format: bad width in `"@, s, "`"@))
    } else if dot && (prec.len() == 0 || text::digits_value(prec) > usize::MAX) {
        Err(complaint("format: bad precision in `"@, s, "`"@))
    } else if text::digits_value(width) > MAX_FORMAT_WIDTH || (dot && text::digits_value(prec)
        > MAX_FORMAT_WIDTH) {
        Err(complaint("format: `"@, s, "` asks for more room than is sensible"@))
    } else {
        Ok(
            SpecView {
                fill,
                zeros,
                align,
                width: text::digits_value(width),
                precision: if dot {
                    Some(text::digits_value(prec))
                } else {
                    None
                },
                kind: if dot {
                    s.skip(pe as int)
                } else {
                    s.skip(we as int)
                },
            },
        )
    }
}

fn end_of_digits(cs: &Vec<char>, from: usize) -> (r: usize)
    requires
        from <= cs@.len(),
    ensures
        r == digits_end(cs@, from as nat),
        from <= r <= cs@.len(),
        text::all_digits(cs@.subrange(from as int, r as int)),
{
    let mut i: usize = from;
    while i < cs.len() && '0' <= cs[i] && cs[i] <= '9'
        invariant
            from <= i <= cs@.len(),
            digits_end(cs@, i as nat) == digits_end(cs@, from as nat),
            forall|k: int| from <= k < i ==> text::is_digit(#[trigger] cs@[k]),
        decreases cs@.len() - i,
    {
        i = i + 1;
    }
    i
}

/// The number some digits spell, if it fits.
fn count(cs: &Vec<char>, from: usize, to: usize) -> (r: Option<u64>)
    requires
        from <= to <= cs@.len(),
        text::all_digits(cs@.subrange(from as int, to as int)),
    ensures
        match r {
            Some(n) => n == text::digits_value(cs@.subrange(from as int, to as int)) && n
                <= usize::MAX,
            None => text::digits_value(cs@.subrange(from as int, to as int)) > usize::MAX,
        },
{
    if from == to {
        assert(cs@.subrange(from as int, to as int).len() == 0);
        return Some(0);
    }
    let s = text::string_of(cs, from, to);
    assert(s@[0] == cs@[from as int]);
    assert(text::is_digit(s@[0]));
    assert(text::unsigned_part(s@) == s@);
    text::parse_number(s.as_str(), usize::MAX as u64)
}

fn complain(a: &str, s: &str, b: &str) -> (r: String)
    ensures
        r@ == complaint(a@, s@, b@),
{
    let mut out = text::owned(a);
    out.append(s);
    out.append(b);
    out
}

/// Read what is asked for between the braces.
pub fn parse_spec(s: &str) -> (r: Result<Spec, String>)
    ensures
        match r {
            Ok(x) => spec_of(s@) == Ok::<SpecView, Seq<char>>(x@),
            Err(e) => spec_of(s@) == Err::<SpecView, Seq<char>>(e@),
        },
{
    let cs = text::chars_of(s);
    let n: usize = cs.len();
    let mut fill: char = ' ';
    let mut align: Option<Side> = None;
    let mut from: usize = 0;
    let mut zeros: bool = false;
    let second: Option<Side> = if n >= 2 {
        side(cs[1])
    } else {
        None
    };
    let first: Option<Side> = if n >= 1 {
        side(cs[0])
    } else {
        None
    };
    if second.is_some() {
        fill = cs[0];
        align = second;
        from = 2;
    } else if first.is_some() {
        align = first;
        from = 1;
    } else if n > 1 && cs[0] == '0' {
        fill = '0';
        align = Some(Side::Right);
        from = 1;
        zeros = true;
    }
    assert((fill, align, from as nat, zeros) == fill_of(s@));
    let we: usize = end_of_digits(&cs, from);
    let width: u64 = match count(&cs, from, we) {
        Some(w) => w,
        None => {
            return Err(complain("format: bad width in `", s, "`"));
        },
    };
    let mut precision: Option<u64> = None;
    let mut rest: usize = we;
    if we < n && cs[we] == '.' {
        let pe: usize = end_of_digits(&cs, we + 1);
        if pe == we + 1 {
            return Err(complain("format: bad precision in `", s, "`"));
        }
        match count(&cs, we + 1, pe) {
            Some(p) => {
                precision = Some(p);
            },
            None => {
                return Err(complain("format: bad precision in `", s, "`"));
            },
        }
        rest = pe;
    }
    let most: u64 = match precision {
        Some(p) => p,
        None => 0,
    };
    if width > MAX_FORMAT_WIDTH || most > MAX_FORMAT_WIDTH {
        return Err(complain("format: `", s, "` asks for more room than is sensible"));
    }
    let kind = text::string_of(&cs, rest, n);
    assert(kind@ =~= s@.skip(rest as int));
    Ok(Spec { fill, zeros, align, width, precision, kind })
}

/// How a value is written.
#[derive(Clone, Copy, Debug, PartialEq, Eq, Structural)]
pub enum Body {
    /// As it prints.
    Plain,
    /// So many characters of how it prints.
    Keep(u64),
    /// A number with so many decimals.
    Fixed(u64),
    Hex,
    HexUpper,
    Binary,
    Octal,
    Exponent,
}

pub open spec fn body_of(p: SpecView, s: Seq<char>, numeric: bool) -> Result<Body, Seq<char>> {
    if p.kind == ""@ {
        match p.precision {
            Some(n) => if numeric {
                Ok(Body::Fixed(n as u64))
            } else {
                Ok(Body::Keep(n as u64))
            },
            None => Ok(Body::Plain),
        }
    } else if p.kind == "x"@ {
        Ok(Body::Hex)
    } else if p.kind == "X"@ {
        Ok(Body::HexUpper)
    } else if p.kind == "b"@ {
        Ok(Body::Binary)
    } else if p.kind == "o"@ {
        Ok(Body::Octal)
    } else if p.kind == "e"@ {
        Ok(Body::Exponent)
    } else if p.kind == "f"@ {
        match p.precision {
            Some(n) => Ok(Body::Fixed(n as u64)),
            None => Ok(Body::Fixed(6)),
        }
    } else {
        Err("format: unsupported spec `"@ + p.kind + "` in `"@ + s + "`"@)
    }
}

/// How a value is written in a hole, or what is wrong with asking so.
pub fn body(p: &Spec, s: &str, numeric: bool) -> (r: Result<Body, String>)
    ensures
        match r {
            Ok(b) => body_of(p@, s@, numeric) == Ok::<Body, Seq<char>>(b),
            Err(e) => body_of(p@, s@, numeric) == Err::<Body, Seq<char>>(e@),
        },
{
    let k = p.kind.as_str();
    if text::same(k, "") {
        match p.precision {
            Some(n) => if numeric {
                Ok(Body::Fixed(n))
            } else {
                Ok(Body::Keep(n))
            },
            None => Ok(Body::Plain),
        }
    } else if text::same(k, "x") {
        Ok(Body::Hex)
    } else if text::same(k, "X") {
        Ok(Body::HexUpper)
    } else if text::same(k, "b") {
        Ok(Body::Binary)
    } else if text::same(k, "o") {
        Ok(Body::Octal)
    } else if text::same(k, "e") {
        Ok(Body::Exponent)
    } else if text::same(k, "f") {
        match p.precision {
            Some(n) => Ok(Body::Fixed(n)),
            None => Ok(Body::Fixed(6)),
        }
    } else {
        let mut e = text::owned("format: unsupported spec `");
        e.append(k);
        e.append("` in `");
        e.append(s);
        e.append("`");
        Err(e)
    }
}

/// Do the zeros in front of this go behind its sign? They do for a number, and
/// for whatever is written as one.
pub open spec fn signed(b: Seq<char>, p: SpecView, numeric: bool) -> bool {
    p.zeros && (numeric || p.kind.len() > 0) && b.len() > 0 && b[0] == '-'
}

/// A text put in its room. Numbers go to the right and everything else to the
/// left, unless a side was given. Zeros before a width stand between the sign
/// of a number and its digits.
pub open spec fn placed(b: Seq<char>, p: SpecView, numeric: bool) -> Seq<char> {
    let pad = if p.width > b.len() {
        (p.width - b.len()) as nat
    } else {
        0
    };
    let way = match p.align {
        Some(a) => a,
        None => if numeric {
            Side::Right
        } else {
            Side::Left
        },
    };
    let one = seq![p.fill];
    if signed(b, p, numeric) {
        seq!['-'] + strings::repeated(one, pad) + b.skip(1)
    } else {
        match way {
            Side::Right => strings::repeated(one, pad) + b,
            Side::Middle => strings::repeated(one, pad / 2) + b + strings::repeated(
                one,
                (pad - pad / 2) as nat,
            ),
            Side::Left => b + strings::repeated(one, pad),
        }
    }
}

fn push_fill(out: &mut String, c: char, n: u64)
    ensures
        final(out)@ == old(out)@ + strings::repeated(seq![c], n as nat),
{
    let mut i: u64 = 0;
    assert(old(out)@ + strings::repeated(seq![c], 0) =~= old(out)@);
    while i < n
        invariant
            i <= n,
            out@ == old(out)@ + strings::repeated(seq![c], i as nat),
        decreases n - i,
    {
        out.push(c);
        assert(out@ =~= old(out)@ + strings::repeated(seq![c], (i + 1) as nat));
        i = i + 1;
    }
}

pub fn pad(b: &str, p: &Spec, numeric: bool) -> (r: String)
    ensures
        r@ == placed(b@, p@, numeric),
{
    let cs = text::chars_of(b);
    let have: u64 = cs.len() as u64;
    let room: u64 = if p.width > have {
        p.width - have
    } else {
        0
    };
    let way: Side = match p.align {
        Some(a) => a,
        None => if numeric {
            Side::Right
        } else {
            Side::Left
        },
    };
    let mut out = String::new();
    let kind = text::chars_of(p.kind.as_str());
    let as_number: bool = numeric || kind.len() > 0;
    if p.zeros && as_number && have > 0 && cs[0] == '-' {
        out.push('-');
        push_fill(&mut out, p.fill, room);
        let digits = text::string_of(&cs, 1, cs.len());
        out.append(digits.as_str());
        assert(digits@ =~= b@.skip(1));
        assert(out@ =~= placed(b@, p@, numeric));
        return out;
    }
    match way {
        Side::Right => {
            push_fill(&mut out, p.fill, room);
            out.append(b);
        },
        Side::Middle => {
            push_fill(&mut out, p.fill, room / 2);
            out.append(b);
            push_fill(&mut out, p.fill, room - room / 2);
        },
        Side::Left => {
            out.append(b);
            push_fill(&mut out, p.fill, room);
        },
    }
    assert(out@ =~= placed(b@, p@, numeric));
    out
}

/// The first characters of a text.
pub fn keep(b: &str, n: u64) -> (r: String)
    ensures
        r@ == (if n < b@.len() {
            b@.take(n as int)
        } else {
            b@
        }),
{
    let cs = text::chars_of(b);
    let to: usize = if n < cs.len() as u64 {
        n as usize
    } else {
        cs.len()
    };
    let r = text::string_of(&cs, 0, to);
    assert(r@ =~= b@.take(to as int));
    assert(b@.take(b@.len() as int) =~= b@);
    r
}

/// A value put in its room is as wide as was asked, or as wide as it is.
pub proof fn lemma_as_wide_as_asked(b: Seq<char>, p: SpecView, numeric: bool)
    ensures
        placed(b, p, numeric).len() == (if p.width > b.len() {
            p.width
        } else {
            b.len()
        }),
{
    let pad = if p.width > b.len() {
        (p.width - b.len()) as nat
    } else {
        0
    };
    lemma_repeated_len(seq![p.fill], pad);
    lemma_repeated_len(seq![p.fill], pad / 2);
    lemma_repeated_len(seq![p.fill], (pad - pad / 2) as nat);
}

proof fn lemma_repeated_len(s: Seq<char>, n: nat)
    requires
        s.len() == 1,
    ensures
        strings::repeated(s, n).len() == n,
    decreases n,
{
    if n > 0 {
        lemma_repeated_len(s, (n - 1) as nat);
    }
}

// ---- what a hole gives ----------------------------------------------------------------------

proof fn lemma_repeated_fill(c: char, n: nat)
    ensures
        strings::repeated(seq![c], n).len() == n,
        forall|i: int| 0 <= i < n ==> #[trigger] strings::repeated(seq![c], n)[i] == c,
    decreases n,
{
    if n > 0 {
        lemma_repeated_fill(c, (n - 1) as nat);
    }
}

/// The side a value is put on where none is asked for: a number on the right, anything
/// else on the left.
pub open spec fn side_for(p: SpecView, numeric: bool) -> Side {
    match p.align {
        Some(a) => a,
        None => if numeric {
            Side::Right
        } else {
            Side::Left
        },
    }
}

/// A value put in its room stands there whole, on the side it was put on, with the fill
/// and nothing else beside it: on the left of what is left over, on the right of it, or
/// between two halves of it, of which the second may be one longer. Zeros before a
/// number follow its sign.
pub proof fn lemma_on_its_side(b: Seq<char>, p: SpecView, numeric: bool, from: int)
    requires
        !signed(b, p, numeric),
        from == match side_for(p, numeric) {
            Side::Left => 0,
            Side::Right => placed(b, p, numeric).len() - b.len(),
            Side::Middle => (placed(b, p, numeric).len() - b.len()) / 2,
        },
    ensures
        0 <= from <= from + b.len() <= placed(b, p, numeric).len(),
        placed(b, p, numeric).subrange(from, from + b.len()) == b,
        forall|i: int|
            0 <= i < placed(b, p, numeric).len() && !(from <= i < from + b.len())
                ==> #[trigger] placed(b, p, numeric)[i] == p.fill,
{
    let pad = if p.width > b.len() {
        (p.width - b.len()) as nat
    } else {
        0
    };
    lemma_repeated_fill(p.fill, pad);
    lemma_repeated_fill(p.fill, pad / 2);
    lemma_repeated_fill(p.fill, (pad - pad / 2) as nat);
    assert(placed(b, p, numeric).subrange(from, from + b.len()) =~= b);
}

/// Zeros before a negative number stand between its sign and its digits.
pub proof fn lemma_zeros_follow_the_sign(b: Seq<char>, p: SpecView, numeric: bool)
    requires
        signed(b, p, numeric),
    ensures
        ({
            let r = placed(b, p, numeric);
            &&& r.len() >= b.len()
            &&& r[0] == '-'
            &&& r.skip(r.len() - b.len() + 1) == b.skip(1)
            &&& forall|i: int| 1 <= i < r.len() - b.len() + 1 ==> #[trigger] r[i] == p.fill
        }),
{
    let pad = if p.width > b.len() {
        (p.width - b.len()) as nat
    } else {
        0
    };
    lemma_repeated_fill(p.fill, pad);
    let r = placed(b, p, numeric);
    assert(r.skip(r.len() - b.len() + 1) =~= b.skip(1));
}

/// The letter a hole ends in says how a number is written there.
pub proof fn lemma_what_a_letter_asks_for(p: SpecView, s: Seq<char>, numeric: bool)
    ensures
        p.kind == seq!['x'] ==> body_of(p, s, numeric) == Ok::<Body, Seq<char>>(Body::Hex),
        p.kind == seq!['X'] ==> body_of(p, s, numeric) == Ok::<Body, Seq<char>>(Body::HexUpper),
        p.kind == seq!['b'] ==> body_of(p, s, numeric) == Ok::<Body, Seq<char>>(Body::Binary),
        p.kind == seq!['o'] ==> body_of(p, s, numeric) == Ok::<Body, Seq<char>>(Body::Octal),
        p.kind == seq!['e'] ==> body_of(p, s, numeric) == Ok::<Body, Seq<char>>(Body::Exponent),
        p.kind == seq!['f'] ==> body_of(p, s, numeric) == Ok::<Body, Seq<char>>(
            Body::Fixed(
                match p.precision {
                    Some(n) => n as u64,
                    None => 6,
                },
            ),
        ),
        p.kind.len() == 0 && p.precision is None ==> body_of(p, s, numeric) == Ok::<
            Body,
            Seq<char>,
        >(Body::Plain),
        p.kind.len() == 0 && p.precision is Some ==> body_of(p, s, numeric) == Ok::<
            Body,
            Seq<char>,
        >(
            if numeric {
                Body::Fixed(p.precision->Some_0 as u64)
            } else {
                Body::Keep(p.precision->Some_0 as u64)
            },
        ),
        p.kind.len() > 1 ==> body_of(p, s, numeric) is Err,
{
    reveal_strlit("");
    reveal_strlit("x");
    reveal_strlit("X");
    reveal_strlit("b");
    reveal_strlit("o");
    reveal_strlit("e");
    reveal_strlit("f");
    assert(""@ =~= Seq::<char>::empty());
    assert("x"@ =~= seq!['x']);
    assert("X"@ =~= seq!['X']);
    assert("b"@ =~= seq!['b']);
    assert("o"@ =~= seq!['o']);
    assert("e"@ =~= seq!['e']);
    assert("f"@ =~= seq!['f']);
    if p.kind.len() == 0 {
        assert(p.kind =~= ""@);
    }
    assert(p.kind.len() == 1 ==> p.kind =~= seq![p.kind[0]]);
    assert(seq!['x'][0] == 'x' && seq!['X'][0] == 'X' && seq!['b'][0] == 'b' && seq!['o'][0] == 'o'
        && seq!['e'][0] == 'e' && seq!['f'][0] == 'f');
}

proof fn lemma_decimal_value(n: nat)
    ensures
        text::digits_value(text::decimal(n)) == n,
        text::decimal(n).len() > 0,
        text::all_digits(text::decimal(n)),
    decreases n,
{
    if n >= 10 {
        lemma_decimal_value(n / 10);
        assert(text::decimal(n).drop_last() =~= text::decimal(n / 10));
    } else {
        assert(text::decimal(n).drop_last() =~= Seq::empty());
        assert(text::digits_value(Seq::empty()) == 0);
    }
}

proof fn lemma_digits_end(s: Seq<char>, i: nat, n: nat)
    requires
        i <= n <= s.len(),
        forall|k: int| i <= k < n ==> text::is_digit(#[trigger] s[k]),
        n < s.len() ==> !text::is_digit(s[n as int]),
    ensures
        digits_end(s, i) == n,
    decreases n - i,
{
    if i < n {
        lemma_digits_end(s, i + 1, n);
    }
}

/// What is written between the braces is what is asked for: the fill, the side, how
/// wide, how many places, and how it is written.
pub proof fn lemma_asked_as_written(
    fill: char,
    side: char,
    width: nat,
    places: nat,
    kind: Seq<char>,
)
    requires
        side_of(side) is Some,
        width <= MAX_FORMAT_WIDTH,
        places <= MAX_FORMAT_WIDTH,
        kind.len() > 0 ==> !text::is_digit(kind[0]) && kind[0] != '.',
    ensures
        spec_of(
            seq![fill, side] + text::decimal(width) + seq!['.'] + text::decimal(places) + kind,
        ) == Ok::<SpecView, Seq<char>>(
            SpecView {
                fill,
                zeros: false,
                align: side_of(side),
                width,
                precision: Some(places),
                kind,
            },
        ),
        spec_of(seq![fill, side] + text::decimal(width) + kind) == Ok::<SpecView, Seq<char>>(
            SpecView {
                fill,
                zeros: false,
                align: side_of(side),
                width,
                precision: None,
                kind,
            },
        ),
{
    let dw = text::decimal(width);
    let dp = text::decimal(places);
    lemma_decimal_value(width);
    lemma_decimal_value(places);
    let s = seq![fill, side] + dw + seq!['.'] + dp + kind;
    let we = (2 + dw.len()) as nat;
    let pe = (we + 1 + dp.len()) as nat;
    assert forall|k: int| 2 <= k < we implies text::is_digit(#[trigger] s[k]) by {
        assert(s[k] == dw[k - 2]);
    }
    assert(s[we as int] == '.');
    lemma_digits_end(s, 2, we);
    assert forall|k: int| we + 1 <= k < pe implies text::is_digit(#[trigger] s[k]) by {
        assert(s[k] == dp[k - we - 1]);
    }
    if pe < s.len() {
        assert(s[pe as int] == kind[0]);
    }
    lemma_digits_end(s, we + 1, pe);
    assert(s[0] == fill && s[1] == side);
    assert(s.subrange(2, we as int) =~= dw);
    assert(s.subrange(we as int + 1, pe as int) =~= dp);
    assert(s.skip(pe as int) =~= kind);
    let t = seq![fill, side] + dw + kind;
    assert forall|k: int| 2 <= k < we implies text::is_digit(#[trigger] t[k]) by {
        assert(t[k] == dw[k - 2]);
    }
    if we < t.len() {
        assert(t[we as int] == kind[0]);
    }
    lemma_digits_end(t, 2, we);
    assert(t[0] == fill && t[1] == side);
    assert(t.subrange(2, we as int) =~= dw);
    assert(t.skip(we as int) =~= kind);
}

/// A zero before the width asks for zeros, on the left of a number.
pub proof fn lemma_zeros_asked(width: nat, kind: Seq<char>)
    requires
        0 < width <= MAX_FORMAT_WIDTH,
        kind.len() > 0 ==> !text::is_digit(kind[0]) && kind[0] != '.',
        kind.len() > 0 ==> side_of(kind[0]) is None,
    ensures
        spec_of(seq!['0'] + text::decimal(width) + kind) == Ok::<SpecView, Seq<char>>(
            SpecView {
                fill: '0',
                zeros: true,
                align: Some(Side::Right),
                width,
                precision: None,
                kind,
            },
        ),
{
    let dw = text::decimal(width);
    lemma_decimal_value(width);
    let t = seq!['0'] + dw + kind;
    let we = (1 + dw.len()) as nat;
    assert forall|k: int| 1 <= k < we implies text::is_digit(#[trigger] t[k]) by {
        assert(t[k] == dw[k - 1]);
    }
    if we < t.len() {
        assert(t[we as int] == kind[0]);
    }
    lemma_digits_end(t, 1, we);
    assert(t[0] == '0');
    assert(text::is_digit(t[1]));
    assert(t.subrange(1, we as int) =~= dw);
    assert(t.skip(we as int) =~= kind);
}

/// Which sign puts a value on which side.
pub proof fn lemma_sides()
    ensures
        side_of('<') == Some(Side::Left),
        side_of('^') == Some(Side::Middle),
        side_of('>') == Some(Side::Right),
        forall|c: char| #[trigger] side_of(c) is Some ==> c == '<' || c == '^' || c == '>',
{
}

// ---- templates ------------------------------------------------------------------------------

/// A text as a template that stands for it: every brace twice.
pub open spec fn escaped(s: Seq<char>) -> Seq<char>
    decreases s.len(),
{
    if s.len() == 0 {
        Seq::empty()
    } else if s[0] == '{' || s[0] == '}' {
        seq![s[0], s[0]] + escaped(s.drop_first())
    } else {
        seq![s[0]] + escaped(s.drop_first())
    }
}

pub open spec fn letters(s: Seq<char>) -> Seq<PieceView> {
    Seq::new(s.len(), |i: int| PieceView::Text(seq![s[i]]))
}

proof fn lemma_escaped_from(before: Seq<char>, s: Seq<char>, after: Seq<char>)
    requires
        after.len() > 0 ==> after[0] == '{' && (after.len() > 1 ==> after[1] != '{'),
    ensures
        pieces_from(before + escaped(s) + after, before.len()) == letters(s) + pieces_from(
            before + escaped(s) + after,
            before.len() + escaped(s).len(),
        ),
    decreases s.len(),
{
    let all = before + escaped(s) + after;
    let i = before.len();
    let rest = pieces_from(all, i + escaped(s).len());
    if s.len() == 0 {
        assert(letters(s) + rest =~= rest);
    } else {
        let more = s.drop_first();
        let c = s[0];
        assert(all[i as int] == c);
        if c == '{' || c == '}' {
            let b2 = before + seq![c, c];
            assert(b2 + escaped(more) + after =~= all);
            lemma_escaped_from(b2, more, after);
            assert(all[i as int + 1] == c);
            assert(doubled(all, i));
        } else {
            let b2 = before + seq![c];
            assert(b2 + escaped(more) + after =~= all);
            lemma_escaped_from(b2, more, after);
            assert(!doubled(all, i));
        }
        assert(seq![PieceView::Text(seq![c])] + (letters(more) + rest) =~= letters(s) + rest) by {
            assert(letters(s) =~= seq![PieceView::Text(seq![c])] + letters(more));
        }
    }
}

proof fn lemma_closing(s: Seq<char>, i: nat, n: nat)
    requires
        i <= n < s.len(),
        s[n as int] == '}',
        forall|k: int| i <= k < n ==> #[trigger] s[k] != '}',
    ensures
        closing(s, i) == n,
    decreases n - i,
{
    if i < n {
        lemma_closing(s, i + 1, n);
    }
}

/// A template whose braces are all written twice is a text; a hole in it is what
/// stands between one brace and the next, and what follows is a template again.
pub proof fn lemma_templates(s: Seq<char>, hole: Seq<char>, after: Seq<char>)
    requires
        !hole.contains('}'),
        hole.len() > 0 ==> hole[0] != '{' && hole[0] != ':',
    ensures
        pieces_from(escaped(s), 0) == letters(s),
        pieces_from(escaped(s) + (seq!['{'] + hole + seq!['}']) + after, 0) == letters(s) + (seq![
            PieceView::Hole(hole),
        ] + pieces_from(
            escaped(s) + (seq!['{'] + hole + seq!['}']) + after,
            escaped(s).len() + hole.len() + 2,
        )),
{
    let none = Seq::<char>::empty();
    assert(none + escaped(s) + none =~= escaped(s));
    lemma_escaped_from(none, s, none);
    assert(letters(s) + Seq::<PieceView>::empty() =~= letters(s));
    let open = seq!['{'] + hole + seq!['}'];
    let all = escaped(s) + open + after;
    assert(none + escaped(s) + (open + after) =~= all);
    let i = escaped(s).len();
    assert((open + after)[0] == '{');
    assert((open + after)[1] != '{');
    lemma_escaped_from(none, s, open + after);
    assert(all[i as int] == '{' && all[i as int + 1] == (open + after)[1]);
    assert(!doubled(all, i));
    let n = (i + 1 + hole.len()) as nat;
    assert(all[n as int] == '}');
    assert forall|k: int| i + 1 <= k < n implies #[trigger] all[k] != '}' by {
        assert(all[k] == hole[k - i - 1]);
    }
    lemma_closing(all, i + 1, n);
    assert(all.subrange(i as int + 1, n as int) =~= hole);
    assert(uncoloned(hole) == hole);
}

} // verus!
