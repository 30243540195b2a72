//! What the command line makes of a script and of a line typed at it.
use crate::builtin::strings;
use crate::lsp::index;
use crate::text;
use vstd::prelude::*;

verus! {

// ---- where a line is ---------------------------------------------------------------------

/// The first newline from `i` on, or the end of the text.
pub open spec fn line_end(s: Seq<char>, i: nat) -> nat
    decreases s.len() - i,
{
    if i >= s.len() || s[i as int] == '\n' {
        i
    } else {
        line_end(s, i + 1)
    }
}

/// The byte range of a line counted from one, to underline: up to the white
/// space it ends with, and never nothing at all.
pub open spec fn underlined(s: Seq<char>, line: u32) -> Option<(nat, nat)> {
    if line == 0 {
        None
    } else {
        let k = index::start_of(s, (line - 1) as nat, 0);
        if k < s.len() && index::newlines(s, k) == line - 1 {
            let shown = text::trimmed_end(s.subrange(k as int, line_end(s, k) as int));
            let n = vstd::utf8::encode_utf8(shown).len();
            Some((index::bytes_before(s, k), if n == 0 { 1 } else { n }))
        } else {
            None
        }
    }
}

proof fn lemma_fits(s: Seq<char>, k: nat)
    requires
        k <= s.len(),
    ensures
        index::bytes_before(s, k) <= vstd::utf8::encode_utf8(s).len(),
{
    index::lemma_bytes(s, s.len());
    index::lemma_bytes_grow(s, k, s.len());
    assert(s.take(s.len() as int) =~= s);
}

fn width(c: char) -> (r: usize)
    ensures
        r == index::width8(c),
{
    let n: u32 = c as u32;
    if n <= 0x7f {
        1
    } else if n <= 0x7ff {
        2
    } else if n <= 0xffff {
        3
    } else {
        4
    }
}

pub fn line_span(src: &str, line: u32) -> (r: Option<(usize, usize)>)
    ensures
        match r {
            Some((at, n)) => underlined(src@, line) == Some((at as nat, n as nat)),
            None => underlined(src@, line) is None,
        },
{
    if line == 0 {
        return None;
    }
    let cs = text::chars_of(src);
    let ghost s = src@;
    let total: usize = strings::byte_len(src);
    let n: usize = cs.len();
    let want: u32 = line - 1;
    let mut at: usize = 0;
    let mut seen: u32 = 0;
    let mut i: usize = 0;
    while i < n && seen < want
        invariant
            i <= n,
            n == cs@.len(),
            cs@ == s,
            total == vstd::utf8::encode_utf8(s).len(),
            at == index::bytes_before(s, i as nat),
            seen == index::newlines(s, i as nat),
            seen <= want,
            index::start_of(s, want as nat, i as nat) == index::start_of(s, want as nat, 0),
        decreases n - i,
    {
        proof {
            lemma_fits(s, (i + 1) as nat);
        }
        let c: char = cs[i];
        at = at + width(c);
        if c == '\n' {
            seen = seen + 1;
        }
        i = i + 1;
    }
    if i >= n || seen < want {
        return None;
    }
    let mut end: usize = i;
    while end < n && cs[end] != '\n'
        invariant
            i <= end <= n,
            n == cs@.len(),
            cs@ == s,
            line_end(s, end as nat) == line_end(s, i as nat),
        decreases n - end,
    {
        end = end + 1;
    }
    let whole = text::string_of(&cs, i, end);
    let shown = text::trim_end(whole.as_str());
    let len: usize = strings::byte_len(shown.as_str());
    Some((at, if len == 0 { 1 } else { len }))
}

/// What an error is labelled with: the function it happened in.
pub open spec fn labelled(place: Option<Seq<char>>) -> Seq<char> {
    match place {
        Some(f) => "in "@ + f,
        None => "here"@,
    }
}

pub fn label(place: Option<&str>) -> (r: String)
    ensures
        r@ == labelled(
            match place {
                Some(f) => Some(f@),
                None => None,
            },
        ),
{
    match place {
        Some(f) => {
            let mut out = text::owned("in ");
            out.append(f);
            out
        },
        None => text::owned("here"),
    }
}

// ---- a line typed at the prompt ----------------------------------------------------------

/// A text without what it starts with, if it starts with it.
pub open spec fn after_prefix(s: Seq<char>, prefix: Seq<char>) -> Option<Seq<char>> {
    if text::is_at(s, prefix, 0) {
        Some(s.skip(prefix.len() as int))
    } else {
        None
    }
}

/// How many characters of a name a text starts with.
pub open spec fn name_length(s: Seq<char>, i: nat) -> nat
    decreases s.len() - i,
{
    if i < s.len() && (text::is_alnum(s[i as int]) || s[i as int] == '_') {
        name_length(s, i + 1)
    } else {
        i
    }
}

/// What a `let` binds, without the `mut` it may have.
pub open spec fn bound_part(line: Seq<char>) -> Option<Seq<char>> {
    match after_prefix(line, "let "@) {
        Some(r) => {
            let rest = text::trimmed_start(r);
            match after_prefix(rest, "mut "@) {
                Some(m) => Some(m),
                None => Some(rest),
            }
        },
        None => None,
    }
}

pub open spec fn assigned(rest: Seq<char>) -> Option<Seq<char>> {
    let n = name_length(rest, 0);
    let after = text::trimmed_start(rest.skip(n as int));
    if n > 0 && after.len() > 0 && after[0] == '=' && !(after.len() > 1 && after[1] == '=') {
        Some(rest.take(n as int) + " "@ + after)
    } else {
        None
    }
}

/// In the REPL a top level `let x = ..` becomes `x = ..`, a global, so that the
/// binding is still there on the next line. Anything else is left alone.
pub open spec fn rewritten(line: Seq<char>) -> Seq<char> {
    match bound_part(line) {
        Some(rest) => match assigned(rest) {
            Some(s) => s,
            None => line,
        },
        None => line,
    }
}

fn strip(s: &str, prefix: &str) -> (r: Option<String>)
    ensures
        match r {
            Some(t) => after_prefix(s@, prefix@) == Some(t@),
            None => after_prefix(s@, prefix@) is None,
        },
{
    let cs = text::chars_of(s);
    let ps = text::chars_of(prefix);
    if text::stands_at(&cs, &ps, 0) {
        let n: usize = cs.len();
        let m: usize = ps.len();
        assert(cs@.subrange(m as int, n as int) =~= s@.skip(m as int));
        Some(text::string_of(&cs, m, n))
    } else {
        None
    }
}

fn bound(line: &str) -> (r: Option<String>)
    ensures
        match r {
            Some(t) => bound_part(line@) == Some(t@),
            None => bound_part(line@) is None,
        },
{
    match strip(line, "let ") {
        Some(r) => {
            let rest = text::trim_start(r.as_str());
            match strip(rest.as_str(), "mut ") {
                Some(m) => Some(m),
                None => Some(rest),
            }
        },
        None => None,
    }
}

fn assign(rest: &str) -> (r: Option<String>)
    ensures
        match r {
            Some(t) => assigned(rest@) == Some(t@),
            None => assigned(rest@) is None,
        },
{
    let cs = text::chars_of(rest);
    let total: usize = cs.len();
    let mut n: usize = 0;
    while n < total && (text::char_is_alnum(cs[n]) || cs[n] == '_')
        invariant
            n <= total,
            total == cs@.len(),
            cs@ == rest@,
            name_length(rest@, n as nat) == name_length(rest@, 0),
        decreases total - n,
    {
        n = n + 1;
    }
    assert(n == name_length(rest@, 0));
    assert(cs@.subrange(n as int, total as int) =~= rest@.skip(n as int));
    let tail = text::string_of(&cs, n, total);
    let after = text::trim_start(tail.as_str());
    let afters = text::chars_of(after.as_str());
    if n > 0 && afters.len() > 0 && afters[0] == '=' && !(afters.len() > 1 && afters[1] == '=') {
        assert(cs@.subrange(0, n as int) =~= rest@.take(n as int));
        let mut out = text::string_of(&cs, 0, n);
        out.append(" ");
        out.append(after.as_str());
        Some(out)
    } else {
        None
    }
}

pub fn repl_rewrite(line: &str) -> (r: String)
    ensures
        r@ == rewritten(line@),
{
    match bound(line) {
        Some(rest) => match assign(rest.as_str()) {
            Some(s) => s,
            None => text::owned(line),
        },
        None => text::owned(line),
    }
}

// ---- bytecode, shown ---------------------------------------------------------------------

/// A number in a column of a width.
pub open spec fn in_column(n: nat, width: nat) -> Seq<char> {
    let d = text::decimal(n);
    if d.len() < width {
        Seq::new((width - d.len()) as nat, |i: int| ' ') + d
    } else {
        d
    }
}

/// One instruction of a listing.
pub open spec fn listed_op(i: nat, op: Seq<char>) -> Seq<char> {
    "  "@ + in_column(i, 4) + "  "@ + op + "\n"@
}

pub open spec fn listed_ops(ops: Seq<String>, n: nat) -> Seq<char>
    decreases n,
{
    if n == 0 {
        Seq::empty()
    } else {
        listed_ops(ops, (n - 1) as nat) + listed_op((n - 1) as nat, ops[n - 1]@)
    }
}

/// A function's bytecode, one instruction to a line.
pub open spec fn listing_of(name: Seq<char>, regs: nat, ops: Seq<String>, consts: nat) -> Seq<char> {
    "\nfunction "@ + (if name.len() == 0 {
        "<closure>"@
    } else {
        name
    }) + "  ("@ + text::decimal(regs) + " registers, "@ + text::decimal(ops.len()) + " ops, "@
        + text::decimal(consts) + " constants)\n"@ + listed_ops(ops, ops.len())
}

fn push_column(out: &mut String, n: u64, width: usize)
    ensures
        final(out)@ == old(out)@ + in_column(n as nat, width as nat),
{
    let mut d = String::new();
    text::push_decimal(&mut d, n);
    assert(d@ =~= text::decimal(n as nat));
    let len: usize = text::chars_of(d.as_str()).len();
    let ghost start = out@;
    if len < width {
        let mut i: usize = len;
        assert(out@ =~= start + Seq::new(0, |k: int| ' '));
        while i < width
            invariant
                len <= i <= width,
                out@ == start + Seq::new((i - len) as nat, |k: int| ' '),
            decreases width - i,
        {
            out.push(' ');
            assert(out@ =~= start + Seq::new((i + 1 - len) as nat, |k: int| ' '));
            i = i + 1;
        }
    }
    out.append(d.as_str());
    assert(out@ =~= start + in_column(n as nat, width as nat));
}

pub fn listing(name: &str, regs: usize, ops: &Vec<String>, consts: usize) -> (r: String)
    ensures
        r@ == listing_of(name@, regs as nat, ops@, consts as nat),
{
    let mut out = text::owned("\nfunction ");
    if name.is_empty() {
        out.append("<closure>");
    } else {
        out.append(name);
    }
    out.append("  (");
    text::push_decimal(&mut out, regs as u64);
    out.append(" registers, ");
    text::push_decimal(&mut out, ops.len() as u64);
    out.append(" ops, ");
    text::push_decimal(&mut out, consts as u64);
    out.append(" constants)\n");
    let ghost head = out@;
    let mut i: usize = 0;
    assert(out@ =~= head + listed_ops(ops@, 0));
    while i < ops.len()
        invariant
            i <= ops@.len(),
            out@ == head + listed_ops(ops@, i as nat),
        decreases ops@.len() - i,
    {
        let ghost before = out@;
        out.append("  ");
        push_column(&mut out, i as u64, 4);
        out.append("  ");
        out.append(ops[i].as_str());
        out.append("\n");
        assert(out@ =~= before + listed_op(i as nat, ops@[i as int]@));
        assert(out@ =~= head + listed_ops(ops@, (i + 1) as nat));
        i = i + 1;
    }
    out
}

// ---- what is shown --------------------------------------------------------------------------

/// A number in a column stands on its right, with blanks before it.
pub proof fn lemma_in_column(n: nat, width: nat)
    ensures
        ({
            let r = in_column(n, width);
            let d = text::decimal(n);
            &&& r.len() == if d.len() < width {
                width
            } else {
                d.len()
            }
            &&& r.skip(r.len() - d.len()) == d
            &&& forall|i: int| 0 <= i < r.len() - d.len() ==> #[trigger] r[i] == ' '
        }),
{
    let r = in_column(n, width);
    let d = text::decimal(n);
    assert(r.skip(r.len() - d.len()) =~= d);
}

pub open spec fn is_name(s: Seq<char>) -> bool {
    s.len() > 0 && forall|i: int|
        0 <= i < s.len() ==> text::is_alnum(#[trigger] s[i]) || s[i] == '_'
}

proof fn lemma_name_length(s: Seq<char>, i: nat, n: nat)
    requires
        i <= n <= s.len(),
        forall|k: int| i <= k < n ==> text::is_alnum(#[trigger] s[k]) || s[k] == '_',
        n < s.len() ==> !(text::is_alnum(s[n as int]) || s[n as int] == '_'),
    ensures
        name_length(s, i) == n,
    decreases n - i,
{
    if i < n {
        lemma_name_length(s, i + 1, n);
    }
}

/// A name that is bound on a line of its own is a global from then on: the line is
/// read as an assignment to that name of what it was bound to. A line that binds
/// nothing is read as it is.
pub proof fn lemma_bindings_last(name: Seq<char>, value: Seq<char>, line: Seq<char>)
    requires
        is_name(name),
        !text::is_space(name[0]),
        !text::is_at(name + (" = "@ + value), "mut "@, 0),
        value.len() == 0 || value[0] != '=',
    ensures
        rewritten("let "@ + (name + (" = "@ + value))) == name + (" = "@ + value),
        !text::is_at(line, "let "@, 0) ==> rewritten(line) == line,
{
    reveal_strlit("let ");
    reveal_strlit("mut ");
    reveal_strlit(" = ");
    reveal_strlit(" ");
    let rest = name + (" = "@ + value);
    let s = "let "@ + rest;
    assert(s.subrange(0, 4) =~= "let "@);
    assert(s.skip(4) =~= rest);
    assert(rest[0] == name[0]);
    assert(text::trimmed_start(rest) == rest);
    let n = name.len();
    assert forall|k: int| 0 <= k < n implies text::is_alnum(#[trigger] rest[k]) || rest[k]
        == '_' by {
        assert(rest[k] == name[k]);
    }
    assert(rest[n as int] == ' ');
    lemma_name_length(rest, 0, n);
    let after = rest.skip(n as int);
    assert(after =~= " = "@ + value);
    let tail = after.drop_first();
    assert(after[0] == ' ' && tail[0] == '=' && tail[1] == ' ');
    assert(text::trimmed_start(after) == text::trimmed_start(tail));
    assert(text::trimmed_start(tail) == tail);
    assert(rest.take(n as int) =~= name);
    assert(name + " "@ + tail =~= rest);
}

} // verus!
