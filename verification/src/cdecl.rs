//! Declarations of C functions, and how values cross over to them.
use crate::builtin::tables;
use crate::text;
use crate::value;
use crate::value::{Error, Val, Value};
use vstd::prelude::*;

verus! {

/// The types of C a declaration may use.
#[derive(Clone, Copy, Debug, PartialEq, Eq, Structural)]
pub enum CType {
    Void,
    I8,
    U8,
    I16,
    U16,
    I32,
    U32,
    I64,
    U64,
    F32,
    F64,
    Ptr,
    CStr,
}

/// What a function takes and gives.
pub struct Signature {
    pub name: String,
    pub ret: CType,
    pub params: Vec<CType>,
}

#[verifier::ext_equal]
pub struct SignatureView {
    pub name: Seq<char>,
    pub ret: CType,
    pub params: Seq<CType>,
}

impl View for Signature {
    type V = SignatureView;

    open spec fn view(&self) -> SignatureView {
        SignatureView { name: self.name@, ret: self.ret, params: self.params@ }
    }
}

// ---- tokens ------------------------------------------------------------------------------

pub open spec fn is_mark(c: char) -> bool {
    c == '(' || c == ')' || c == ',' || c == '*'
}

pub open spec fn flushed(cur: Seq<char>) -> Seq<Seq<char>> {
    if cur.len() == 0 {
        Seq::empty()
    } else {
        seq![cur]
    }
}

/// The tokens of a declaration from `i` on, with the word that is under way.
pub open spec fn tokens_from(s: Seq<char>, i: nat, cur: Seq<char>) -> Seq<Seq<char>>
    decreases s.len() - i,
{
    if i >= s.len() {
        flushed(cur)
    } else if is_mark(s[i as int]) {
        flushed(cur) + seq![seq![s[i as int]]] + tokens_from(s, i + 1, Seq::empty())
    } else if text::is_space(s[i as int]) {
        flushed(cur) + tokens_from(s, i + 1, Seq::empty())
    } else {
        tokens_from(s, i + 1, cur.push(s[i as int]))
    }
}

pub open spec fn tokens(s: Seq<char>) -> Seq<Seq<char>> {
    tokens_from(s, 0, Seq::empty())
}

fn flush(cur: String, out: &mut Vec<String>)
    ensures
        tables::texts(final(out)@) == tables::texts(old(out)@) + flushed(cur@),
{
    let ghost before = tables::texts(out@);
    let ghost c = cur@;
    if !cur.as_str().is_empty() {
        out.push(cur);
        assert(tables::texts(out@) =~= before + flushed(c));
    } else {
        assert(tables::texts(out@) =~= before + flushed(c));
    }
}

fn ctokens(s: &str) -> (r: Vec<String>)
    ensures
        tables::texts(r@) == tokens(s@),
{
    let cs = text::chars_of(s);
    let mut out: Vec<String> = Vec::new();
    let mut cur = String::new();
    assert(cur@ =~= Seq::<char>::empty());
    assert(tables::texts(out@) + tokens_from(s@, 0, cur@) =~= tokens(s@));
    let mut i: usize = 0;
    while i < cs.len()
        invariant
            i <= cs@.len(),
            cs@ == s@,
            tables::texts(out@) + tokens_from(s@, i as nat, cur@) == tokens(s@),
        decreases cs@.len() - i,
    {
        let c: char = cs[i];
        let ghost before = tables::texts(out@);
        let ghost word = cur@;
        if c == '(' || c == ')' || c == ',' || c == '*' {
            flush(cur, &mut out);
            let ghost mid = tables::texts(out@);
            let mut one = String::new();
            one.push(c);
            assert(one@ =~= seq![c]);
            out.push(one);
            assert(tables::texts(out@) =~= mid.push(seq![c]));
            cur = String::new();
            assert(cur@ =~= Seq::<char>::empty());
            assert(tables::texts(out@) + tokens_from(s@, (i + 1) as nat, cur@) =~= before + tokens_from(
                s@,
                i as nat,
                word,
            ));
        } else if text::char_is_space(c) {
            flush(cur, &mut out);
            cur = String::new();
            assert(cur@ =~= Seq::<char>::empty());
            assert(tables::texts(out@) + tokens_from(s@, (i + 1) as nat, cur@) =~= before + tokens_from(
                s@,
                i as nat,
                word,
            ));
        } else {
            cur.push(c);
        }
        i = i + 1;
    }
    flush(cur, &mut out);
    out
}

// ---- types -------------------------------------------------------------------------------

/// How many tokens are this.
pub open spec fn how_many(ts: Seq<Seq<char>>, what: Seq<char>) -> nat
    decreases ts.len(),
{
    if ts.len() == 0 {
        0
    } else if ts.last() == what {
        how_many(ts.drop_last(), what) + 1
    } else {
        how_many(ts.drop_last(), what)
    }
}

/// The words that say what a type is.
pub open spec fn base_words(ts: Seq<Seq<char>>) -> Seq<Seq<char>>
    decreases ts.len(),
{
    if ts.len() == 0 {
        Seq::empty()
    } else {
        let w = ts.last();
        let r = base_words(ts.drop_last());
        if w == "*"@ || w == "const"@ || w == "struct"@ || w == "signed"@ || w == "unsigned"@ {
            r
        } else {
            r.push(w)
        }
    }
}

pub open spec fn one_of(unsigned: bool, u: CType, i: CType) -> CType {
    if unsigned {
        u
    } else {
        i
    }
}

/// The type some tokens spell. A `char *` is a string, any other pointer is
/// opaque, and a sign alone is a sign of `int`.
pub open spec fn type_of(ts: Seq<Seq<char>>) -> Result<CType, Seq<char>> {
    let b = tables::joined(base_words(ts), " "@);
    let u = ts.contains("unsigned"@);
    let s = ts.contains("signed"@);
    if how_many(ts, "*"@) > 0 {
        if b == "char"@ && how_many(ts, "*"@) == 1 && !u && !s {
            Ok(CType::CStr)
        } else {
            Ok(CType::Ptr)
        }
    } else if b == ""@ && u {
        Ok(CType::U32)
    } else if b == ""@ && s {
        Ok(CType::I32)
    } else if b == "void"@ || b == ""@ {
        Ok(CType::Void)
    } else if b == "char"@ || b == "int8_t"@ {
        Ok(one_of(u, CType::U8, CType::I8))
    } else if b == "uint8_t"@ || b == "bool"@ || b == "_Bool"@ {
        Ok(CType::U8)
    } else if b == "short"@ || b == "short int"@ || b == "int16_t"@ {
        Ok(one_of(u, CType::U16, CType::I16))
    } else if b == "uint16_t"@ {
        Ok(CType::U16)
    } else if b == "int"@ || b == "int32_t"@ {
        Ok(one_of(u, CType::U32, CType::I32))
    } else if b == "uint32_t"@ {
        Ok(CType::U32)
    } else if b == "long"@ || b == "long int"@ || b == "long long"@ || b == "long long int"@ || b
        == "int64_t"@ || b == "ssize_t"@ || b == "intptr_t"@ {
        Ok(one_of(u, CType::U64, CType::I64))
    } else if b == "uint64_t"@ || b == "size_t"@ || b == "uintptr_t"@ {
        Ok(CType::U64)
    } else if b == "float"@ {
        Ok(CType::F32)
    } else if b == "double"@ || b == "long double"@ {
        Ok(CType::F64)
    } else {
        Err("unsupported C type `"@ + b + "`"@)
    }
}

fn pick(unsigned: bool, u: CType, i: CType) -> (r: CType)
    ensures
        r == one_of(unsigned, u, i),
{
    if unsigned {
        u
    } else {
        i
    }
}

fn parse_type(ts: &Vec<String>, from: usize, to: usize) -> (r: Result<CType, String>)
    requires
        from <= to <= ts@.len(),
    ensures
        match r {
            Ok(t) => type_of(tables::texts(ts@).subrange(from as int, to as int)) == Ok::<CType, Seq<char>>(
                t,
            ),
            Err(e) => type_of(tables::texts(ts@).subrange(from as int, to as int)) == Err::<
                CType,
                Seq<char>,
            >(e@),
        },
{
    let ghost all = tables::texts(ts@).subrange(from as int, to as int);
    let mut stars: usize = 0;
    let mut u: bool = false;
    let mut s: bool = false;
    let mut words: Vec<String> = Vec::new();
    let mut i: usize = from;
    assert(tables::texts(words@) =~= base_words(all.take(0)));
    while i < to
        invariant
            from <= i <= to <= ts@.len(),
            all == tables::texts(ts@).subrange(from as int, to as int),
            stars == how_many(all.take(i - from), "*"@),
            stars <= i - from,
            s == (exists|k: int| 0 <= k < i - from && #[trigger] all[k] == "signed"@),
            u == (exists|k: int| 0 <= k < i - from && #[trigger] all[k] == "unsigned"@),
            tables::texts(words@) == base_words(all.take(i - from)),
        decreases to - i,
    {
        assert(all.take(i - from + 1).drop_last() =~= all.take(i - from));
        assert(all.take(i - from + 1).last() == ts@[i as int]@);
        assert(all[i - from] == ts@[i as int]@);
        let ghost before = tables::texts(words@);
        let w = ts[i].as_str();
        if text::same(w, "*") {
            stars = stars + 1;
        }
        if text::same(w, "unsigned") {
            u = true;
        }
        if text::same(w, "signed") {
            s = true;
        }
        if !(text::same(w, "*") || text::same(w, "const") || text::same(w, "struct") || text::same(
            w,
            "signed",
        ) || text::same(w, "unsigned")) {
            words.push(ts[i].clone());
            assert(tables::texts(words@) =~= before.push(ts@[i as int]@));
        }
        i = i + 1;
    }
    assert(all.take(all.len() as int) =~= all);
    let name = tables::join(&words, " ");
    let b = name.as_str();
    if stars > 0 {
        return if text::same(b, "char") && stars == 1 && !u && !s {
            Ok(CType::CStr)
        } else {
            Ok(CType::Ptr)
        };
    }
    if text::same(b, "") && u {
        Ok(CType::U32)
    } else if text::same(b, "") && s {
        Ok(CType::I32)
    } else if text::same(b, "void") || text::same(b, "") {
        Ok(CType::Void)
    } else if text::same(b, "char") || text::same(b, "int8_t") {
        Ok(pick(u, CType::U8, CType::I8))
    } else if text::same(b, "uint8_t") || text::same(b, "bool") || text::same(b, "_Bool") {
        Ok(CType::U8)
    } else if text::same(b, "short") || text::same(b, "short int") || text::same(b, "int16_t") {
        Ok(pick(u, CType::U16, CType::I16))
    } else if text::same(b, "uint16_t") {
        Ok(CType::U16)
    } else if text::same(b, "int") || text::same(b, "int32_t") {
        Ok(pick(u, CType::U32, CType::I32))
    } else if text::same(b, "uint32_t") {
        Ok(CType::U32)
    } else if text::same(b, "long") || text::same(b, "long int") || text::same(b, "long long")
        || text::same(b, "long long int") || text::same(b, "int64_t") || text::same(b, "ssize_t")
        || text::same(b, "intptr_t") {
        Ok(pick(u, CType::U64, CType::I64))
    } else if text::same(b, "uint64_t") || text::same(b, "size_t") || text::same(b, "uintptr_t") {
        Ok(CType::U64)
    } else if text::same(b, "float") {
        Ok(CType::F32)
    } else if text::same(b, "double") || text::same(b, "long double") {
        Ok(CType::F64)
    } else {
        let mut e = text::owned("unsupported C type `");
        e.append(b);
        e.append("`");
        Err(e)
    }
}

// ---- declarations ------------------------------------------------------------------------

pub open spec fn word_char(c: char) -> bool {
    text::is_alnum(c) || c == '_'
}

pub open spec fn word_chars(t: Seq<char>) -> bool {
    forall|i: int| 0 <= i < t.len() ==> word_char(#[trigger] t[i])
}

/// Could this be the name of a parameter?
pub open spec fn name_like(t: Seq<char>) -> bool {
    t.len() > 0 && (text::is_letter(t[0]) || t[0] == '_') && word_chars(t)
}

/// Is this a word types are written with?
pub open spec fn type_word(t: Seq<char>) -> bool {
    t == "void"@ || t == "char"@ || t == "short"@ || t == "int"@ || t == "long"@ || t == "float"@ || t
        == "double"@ || t == "signed"@ || t == "unsigned"@ || t == "size_t"@ || t == "ssize_t"@ || t
        == "bool"@ || t == "_Bool"@ || t == "int8_t"@ || t == "uint8_t"@ || t == "int16_t"@ || t
        == "uint16_t"@ || t == "int32_t"@ || t == "uint32_t"@ || t == "int64_t"@ || t == "uint64_t"@
        || t == "intptr_t"@ || t == "uintptr_t"@ || t == "const"@ || t == "*"@
}

/// The first place a token is at.
pub open spec fn first_token(ts: Seq<Seq<char>>, what: Seq<char>, i: nat) -> Option<nat>
    decreases ts.len() - i,
{
    if i >= ts.len() {
        None
    } else if ts[i as int] == what {
        Some(i)
    } else {
        first_token(ts, what, i + 1)
    }
}

/// The last place before `i` a token is at.
pub open spec fn last_token(ts: Seq<Seq<char>>, what: Seq<char>, i: nat) -> Option<nat>
    decreases i,
{
    if i == 0 {
        None
    } else if ts[i - 1] == what {
        Some((i - 1) as nat)
    } else {
        last_token(ts, what, (i - 1) as nat)
    }
}

/// The tokens of one parameter, without its name.
pub open spec fn unnamed(ts: Seq<Seq<char>>) -> Seq<Seq<char>> {
    if ts.len() > 1 && name_like(ts.last()) && !type_word(ts.last()) {
        ts.drop_last()
    } else {
        ts
    }
}

/// The types of the parameters between two places, the first mistake counting.
pub open spec fn params_from(ts: Seq<Seq<char>>, i: nat, end: nat) -> Result<Seq<CType>, Seq<char>>
    decreases end - i,
{
    let comma = match first_token(ts, ","@, i) {
        Some(j) => if i <= j < end {
            j
        } else {
            end
        },
        None => end,
    };
    match type_of(unnamed(ts.subrange(i as int, comma as int))) {
        Err(e) => Err(e),
        Ok(t) => if i <= comma < end {
            match params_from(ts, comma + 1, end) {
                Ok(r) => Ok(seq![t] + r),
                Err(e) => Err(e),
            }
        } else {
            Ok(seq![t])
        },
    }
}

pub open spec fn quoted(a: Seq<char>, s: Seq<char>, b: Seq<char>) -> Seq<char> {
    a + s + b
}

/// Everything up to the parameters: the name, the result and where the
/// parameters are.
pub open spec fn head_of(decl: Seq<char>) -> Result<(Seq<char>, CType, nat, nat), Seq<char>> {
    let ts = tokens(decl);
    match first_token(ts, "("@, 0) {
        None => Err(quoted("`"@, decl, "` is not a function declaration"@)),
        Some(l) => match last_token(ts, ")"@, ts.len()) {
            None => Err(quoted("`"@, decl, "` is missing `)`"@)),
            Some(r) => if r < l {
                Err(quoted("`"@, decl, "` is missing `)`"@))
            } else if l == 0 {
                Err("declaration has no name"@)
            } else if !word_chars(ts[l - 1]) {
                Err(quoted("`"@, ts[l - 1], "` is not a valid function name"@))
            } else {
                match type_of(ts.take(l - 1)) {
                    Ok(t) => Ok((ts[l - 1], t, l, r)),
                    Err(e) => Err(e),
                }
            },
        },
    }
}

/// A declaration, read.
pub open spec fn decl_of(decl: Seq<char>) -> Result<SignatureView, Seq<char>> {
    let ts = tokens(decl);
    match head_of(decl) {
        Err(e) => Err(e),
        Ok((name, ret, l, r)) => if r == l + 1 || (r == l + 2 && ts[l as int + 1] == "void"@) {
            Ok(SignatureView { name, ret, params: Seq::empty() })
        } else {
            match params_from(ts, l + 1, r) {
                Ok(params) => Ok(SignatureView { name, ret, params }),
                Err(e) => Err(e),
            }
        },
    }
}

fn all_word_chars(t: &str) -> (r: bool)
    ensures
        r == word_chars(t@),
{
    let cs = text::chars_of(t);
    let mut i: usize = 0;
    while i < cs.len()
        invariant
            i <= cs@.len(),
            cs@ == t@,
            forall|k: int| 0 <= k < i ==> word_char(#[trigger] t@[k]),
        decreases cs@.len() - i,
    {
        if !(text::char_is_alnum(cs[i]) || cs[i] == '_') {
            assert(!word_char(t@[i as int]));
            return false;
        }
        i = i + 1;
    }
    true
}

fn is_name(t: &str) -> (r: bool)
    ensures
        r == name_like(t@),
{
    let cs = text::chars_of(t);
    if cs.len() == 0 {
        return false;
    }
    (text::char_is_letter(cs[0]) || cs[0] == '_') && all_word_chars(t)
}

fn is_type_word(t: &str) -> (r: bool)
    ensures
        r == type_word(t@),
{
    text::same(t, "void") || text::same(t, "char") || text::same(t, "short") || text::same(t, "int")
        || text::same(t, "long") || text::same(t, "float") || text::same(t, "double") || text::same(
        t,
        "signed",
    ) || text::same(t, "unsigned") || text::same(t, "size_t") || text::same(t, "ssize_t")
        || text::same(t, "bool") || text::same(t, "_Bool") || text::same(t, "int8_t") || text::same(
        t,
        "uint8_t",
    ) || text::same(t, "int16_t") || text::same(t, "uint16_t") || text::same(t, "int32_t")
        || text::same(t, "uint32_t") || text::same(t, "int64_t") || text::same(t, "uint64_t")
        || text::same(t, "intptr_t") || text::same(t, "uintptr_t") || text::same(t, "const")
        || text::same(t, "*")
}

fn find_token(ts: &Vec<String>, what: &str, from: usize) -> (r: Option<usize>)
    ensures
        match r {
            Some(i) => first_token(tables::texts(ts@), what@, from as nat) == Some(i as nat) && from <= i
                < ts@.len(),
            None => first_token(tables::texts(ts@), what@, from as nat) is None,
        },
{
    let mut i: usize = from;
    while i < ts.len()
        invariant
            from <= i,
            first_token(tables::texts(ts@), what@, i as nat) == first_token(
                tables::texts(ts@),
                what@,
                from as nat,
            ),
        decreases ts@.len() - i,
    {
        assert(tables::texts(ts@)[i as int] == ts@[i as int]@);
        if text::same(ts[i].as_str(), what) {
            return Some(i);
        }
        i = i + 1;
    }
    None
}

fn find_last_token(ts: &Vec<String>, what: &str) -> (r: Option<usize>)
    ensures
        match r {
            Some(i) => last_token(tables::texts(ts@), what@, ts@.len()) == Some(i as nat) && i < ts@.len(),
            None => last_token(tables::texts(ts@), what@, ts@.len()) is None,
        },
{
    let mut i: usize = ts.len();
    while i > 0
        invariant
            i <= ts@.len(),
            last_token(tables::texts(ts@), what@, i as nat) == last_token(tables::texts(ts@), what@, ts@.len()),
        decreases i,
    {
        i = i - 1;
        assert(tables::texts(ts@)[i as int] == ts@[i as int]@);
        if text::same(ts[i].as_str(), what) {
            return Some(i);
        }
    }
    None
}

fn say(a: &str, s: &str, b: &str) -> (r: String)
    ensures
        r@ == quoted(a@, s@, b@),
{
    let mut out = text::owned(a);
    out.append(s);
    out.append(b);
    out
}

fn parse_params(ts: &Vec<String>, from: usize, end: usize) -> (r: Result<Vec<CType>, String>)
    requires
        from <= end <= ts@.len(),
    ensures
        match r {
            Ok(v) => params_from(tables::texts(ts@), from as nat, end as nat) == Ok::<
                Seq<CType>,
                Seq<char>,
            >(v@),
            Err(e) => params_from(tables::texts(ts@), from as nat, end as nat) == Err::<
                Seq<CType>,
                Seq<char>,
            >(e@),
        },
    decreases end - from,
{
    let ghost all = tables::texts(ts@);
    let comma: usize = match find_token(ts, ",", from) {
        Some(j) => if j < end {
            j
        } else {
            end
        },
        None => end,
    };
    let mut to: usize = comma;
    let ghost chunk = all.subrange(from as int, comma as int);
    if comma - from > 1 {
        assert(chunk.last() == ts@[comma - 1]@);
        if is_name(ts[comma - 1].as_str()) && !is_type_word(ts[comma - 1].as_str()) {
            to = comma - 1;
        }
    }
    assert(all.subrange(from as int, to as int) =~= unnamed(chunk));
    let t: CType = match parse_type(ts, from, to) {
        Ok(t) => t,
        Err(e) => {
            return Err(e);
        },
    };
    let mut out: Vec<CType> = Vec::new();
    out.push(t);
    if comma >= end {
        assert(out@ =~= seq![t]);
        return Ok(out);
    }
    match parse_params(ts, comma + 1, end) {
        Ok(rest) => {
            let mut i: usize = 0;
            assert(out@ =~= seq![t] + rest@.take(0));
            while i < rest.len()
                invariant
                    i <= rest@.len(),
                    out@ == seq![t] + rest@.take(i as int),
                decreases rest@.len() - i,
            {
                out.push(rest[i]);
                assert(out@ =~= seq![t] + rest@.take(i as int + 1));
                i = i + 1;
            }
            assert(rest@.take(rest@.len() as int) =~= rest@);
            Ok(out)
        },
        Err(e) => Err(e),
    }
}

/// What is read of a declaration before its parameters.
struct Head {
    name: String,
    ret: CType,
    open: usize,
    close: usize,
}

fn parse_head(ts: &Vec<String>, decl: &str) -> (r: Result<Head, String>)
    requires
        tables::texts(ts@) == tokens(decl@),
    ensures
        match r {
            Ok(h) => head_of(decl@) == Ok::<(Seq<char>, CType, nat, nat), Seq<char>>(
                (h.name@, h.ret, h.open as nat, h.close as nat),
            ) && h.open <= h.close < ts@.len(),
            Err(e) => head_of(decl@) == Err::<(Seq<char>, CType, nat, nat), Seq<char>>(e@),
        },
{
    let open: usize = match find_token(ts, "(", 0) {
        Some(i) => i,
        None => {
            return Err(say("`", decl, "` is not a function declaration"));
        },
    };
    let close: usize = match find_last_token(ts, ")") {
        Some(i) => i,
        None => {
            return Err(say("`", decl, "` is missing `)`"));
        },
    };
    if close < open {
        return Err(say("`", decl, "` is missing `)`"));
    }
    if open == 0 {
        return Err(text::owned("declaration has no name"));
    }
    assert(tables::texts(ts@)[open - 1] == ts@[open - 1]@);
    if !all_word_chars(ts[open - 1].as_str()) {
        return Err(say("`", ts[open - 1].as_str(), "` is not a valid function name"));
    }
    assert(tables::texts(ts@).subrange(0, open - 1) =~= tables::texts(ts@).take(open - 1));
    match parse_type(ts, 0, open - 1) {
        Ok(ret) => Ok(Head { name: ts[open - 1].clone(), ret, open, close }),
        Err(e) => Err(e),
    }
}

/// Read one declaration of a C function, such as `int puts(const char *s)`.
pub fn parse_decl(decl: &str) -> (r: Result<Signature, String>)
    ensures
        match r {
            Ok(s) => decl_of(decl@) == Ok::<SignatureView, Seq<char>>(s@),
            Err(e) => decl_of(decl@) == Err::<SignatureView, Seq<char>>(e@),
        },
{
    let ts = ctokens(decl);
    let Head { name, ret, open, close } = match parse_head(&ts, decl) {
        Ok(h) => h,
        Err(e) => {
            return Err(e);
        },
    };
    if close == open {
        proof {
            lemma_tokens_differ(tables::texts(ts@), open as nat, close as nat);
        }
    }
    let none: Vec<CType> = Vec::new();
    if close == open + 1 {
        assert(none@ =~= Seq::empty());
        return Ok(Signature { name, ret, params: none });
    }
    if close == open + 2 {
        assert(tables::texts(ts@)[open + 1] == ts@[open + 1]@);
        if text::same(ts[open + 1].as_str(), "void") {
            assert(none@ =~= Seq::empty());
            return Ok(Signature { name, ret, params: none });
        }
    }
    match parse_params(&ts, open + 1, close) {
        Ok(params) => Ok(Signature { name, ret, params }),
        Err(e) => Err(e),
    }
}

/// The place a parameter list opens is not the place it closes.
proof fn lemma_tokens_differ(ts: Seq<Seq<char>>, l: nat, r: nat)
    requires
        first_token(ts, "("@, 0) == Some(l),
        last_token(ts, ")"@, ts.len()) == Some(r),
    ensures
        l != r,
{
    reveal_strlit("(");
    reveal_strlit(")");
    lemma_first_token(ts, "("@, 0);
    lemma_last_token(ts, ")"@, ts.len());
    if l == r {
        assert("("@[0] == '(');
        assert(")"@[0] == ')');
    }
}

proof fn lemma_first_token(ts: Seq<Seq<char>>, what: Seq<char>, i: nat)
    ensures
        first_token(ts, what, i) matches Some(j) ==> j < ts.len() && ts[j as int] == what,
    decreases ts.len() - i,
{
    if i < ts.len() && ts[i as int] != what {
        lemma_first_token(ts, what, i + 1);
    }
}

proof fn lemma_last_token(ts: Seq<Seq<char>>, what: Seq<char>, i: nat)
    requires
        i <= ts.len(),
    ensures
        last_token(ts, what, i) matches Some(j) ==> j < ts.len() && ts[j as int] == what,
    decreases i,
{
    if i > 0 && ts[i - 1] != what {
        lemma_last_token(ts, what, (i - 1) as nat);
    }
}

// ---- libraries ---------------------------------------------------------------------------

/// Does a name already say which file it is?
pub open spec fn is_path(name: Seq<char>) -> bool {
    text::first_at(name, ".so"@, 0) is Some || text::first_at(name, "/"@, 0) is Some
        || text::first_at(name, ".dylib"@, 0) is Some
}

/// The files a library may be in, in the order they are tried.
pub open spec fn candidates_of(name: Seq<char>) -> Seq<Seq<char>> {
    if is_path(name) {
        seq![name]
    } else {
        seq!["lib"@ + name + ".so"@, "lib"@ + name + ".so.6"@, "lib"@ + name + ".dylib"@, name]
    }
}

fn mentions(cs: &Vec<char>, what: &str) -> (r: bool)
    ensures
        r == (text::first_at(cs@, what@, 0) is Some),
{
    let ws = text::chars_of(what);
    text::find_from(cs, &ws, 0).is_some()
}

pub fn library_candidates(name: &str) -> (r: Vec<String>)
    ensures
        tables::texts(r@) == candidates_of(name@),
{
    let cs = text::chars_of(name);
    let mut out: Vec<String> = Vec::new();
    if !(mentions(&cs, ".so") || mentions(&cs, "/") || mentions(&cs, ".dylib")) {
        out.push(say("lib", name, ".so"));
        out.push(say("lib", name, ".so.6"));
        out.push(say("lib", name, ".dylib"));
    }
    out.push(text::owned(name));
    assert(tables::texts(out@) =~= candidates_of(name@));
    out
}

// ---- crossing over -----------------------------------------------------------------------

/// How a value is handed to a function of C.
pub enum Pass {
    Null,
    Pointer(u64),
    /// Text, copied for the call.
    Text(String),
    /// A number that is one or zero.
    Flag(bool),
    /// Whatever number the value is read as.
    Number,
    /// Not at all: there is no argument of type `void`.
    Void,
}

#[verifier::ext_equal]
pub enum PassView {
    Null,
    Pointer(u64),
    Text(Seq<char>),
    Flag(bool),
    Number,
    Void,
}

pub open spec fn pass_view(p: Pass) -> PassView {
    match p {
        Pass::Null => PassView::Null,
        Pass::Pointer(a) => PassView::Pointer(a),
        Pass::Text(s) => PassView::Text(s@),
        Pass::Flag(b) => PassView::Flag(b),
        Pass::Number => PassView::Number,
        Pass::Void => PassView::Void,
    }
}

/// How a value crosses over as a parameter of this type.
pub open spec fn passed(ty: CType, v: Val) -> Result<PassView, Seq<char>> {
    match ty {
        CType::Ptr | CType::CStr => match v {
            Val::Nil => Ok(PassView::Null),
            Val::Ptr(p) => Ok(PassView::Pointer(p)),
            Val::Str(s) => if s.contains('\0') {
                Err("string contains a NUL byte"@)
            } else {
                Ok(PassView::Text(s))
            },
            _ => Err("ffi: cannot pass a "@ + value::type_text(v) + " as a pointer"@),
        },
        CType::U8 => match v {
            Val::Bool(b) => Ok(PassView::Flag(b)),
            _ => Ok(PassView::Number),
        },
        CType::Void => Ok(PassView::Void),
        _ => Ok(PassView::Number),
    }
}

fn has_nul(s: &str) -> (r: bool)
    ensures
        r == s@.contains('\0'),
{
    let cs = text::chars_of(s);
    let mut i: usize = 0;
    while i < cs.len()
        invariant
            i <= cs@.len(),
            cs@ == s@,
            forall|k: int| 0 <= k < i ==> #[trigger] s@[k] != '\0',
        decreases cs@.len() - i,
    {
        if cs[i] == '\0' {
            assert(s@[i as int] == '\0');
            return true;
        }
        i = i + 1;
    }
    false
}

pub fn pass(ty: CType, v: &Value) -> (r: Result<Pass, Error>)
    ensures
        match r {
            Ok(p) => passed(ty, v@) == Ok::<PassView, Seq<char>>(pass_view(p)),
            Err(e) => passed(ty, v@) matches Err(m) && value::plain_error(e, m),
        },
{
    match ty {
        CType::Ptr | CType::CStr => match v {
            Value::Nil => Ok(Pass::Null),
            Value::Ptr(p) => Ok(Pass::Pointer(*p)),
            Value::Str(s) => {
                if has_nul(s.as_str()) {
                    value::err(text::owned("string contains a NUL byte"))
                } else {
                    Ok(Pass::Text(text::owned(s.as_str())))
                }
            },
            _ => value::err(say("ffi: cannot pass a ", v.type_label(), " as a pointer")),
        },
        CType::U8 => match v {
            Value::Bool(b) => Ok(Pass::Flag(*b)),
            _ => Ok(Pass::Number),
        },
        CType::Void => Ok(Pass::Void),
        _ => Ok(Pass::Number),
    }
}

/// The wrong number of arguments.
pub open spec fn miscounted(name: Seq<char>, want: nat, got: nat) -> Seq<char> {
    name + ": expected "@ + text::decimal(want) + " argument(s), got "@ + text::decimal(got)
}

/// Is this how many arguments a function takes? More than it takes are let
/// be; they are not looked at.
pub fn check_count(sig: &Signature, got: usize) -> (r: Result<(), Error>)
    ensures
        match r {
            Ok(_) => got >= sig.params@.len(),
            Err(e) => got < sig.params@.len() && value::plain_error(
                e,
                miscounted(sig.name@, sig.params@.len(), got as nat),
            ),
        },
{
    if got < sig.params.len() {
        let mut e = text::owned(sig.name.as_str());
        e.append(": expected ");
        text::push_decimal(&mut e, sig.params.len() as u64);
        e.append(" argument(s), got ");
        text::push_decimal(&mut e, got as u64);
        return value::err(e);
    }
    Ok(())
}

/// Is this exactly how many arguments a function takes, once they have been
/// turned into what C takes?
pub fn check_exactly(sig: &Signature, got: usize) -> (r: Result<(), Error>)
    ensures
        match r {
            Ok(_) => got == sig.params@.len(),
            Err(e) => got != sig.params@.len() && value::plain_error(
                e,
                miscounted(sig.name@, sig.params@.len(), got as nat),
            ),
        },
{
    if got != sig.params.len() {
        let mut e = text::owned(sig.name.as_str());
        e.append(": expected ");
        text::push_decimal(&mut e, sig.params.len() as u64);
        e.append(" argument(s), got ");
        text::push_decimal(&mut e, got as u64);
        return value::err(e);
    }
    Ok(())
}

/// The number an integer result stands for. It comes back widened, so only
/// the bits of its own type count.
pub open spec fn narrowed(ty: CType, r: u64) -> int {
    match ty {
        CType::I8 => signed_part(r as int, 0x100),
        CType::U8 => r as int % 0x100,
        CType::I16 => signed_part(r as int, 0x1_0000),
        CType::U16 => r as int % 0x1_0000,
        CType::I32 => signed_part(r as int, 0x1_0000_0000),
        CType::U32 => r as int % 0x1_0000_0000,
        CType::I64 => signed_part(r as int, 0x1_0000_0000_0000_0000),
        _ => r as int,
    }
}

pub open spec fn signed_part(r: int, size: int) -> int {
    if r % size >= size / 2 {
        r % size - size
    } else {
        r % size
    }
}

fn signed(r: u64, size: u64) -> (n: i128)
    requires
        size == 0x100 || size == 0x1_0000 || size == 0x1_0000_0000,
    ensures
        n == signed_part(r as int, size as int),
{
    let m: u64 = r % size;
    if m >= size / 2 {
        m as i128 - size as i128
    } else {
        m as i128
    }
}

pub fn integer_result(ty: CType, r: u64) -> (n: i128)
    ensures
        n == narrowed(ty, r),
{
    match ty {
        CType::I8 => signed(r, 0x100),
        CType::U8 => (r % 0x100) as i128,
        CType::I16 => signed(r, 0x1_0000),
        CType::U16 => (r % 0x1_0000) as i128,
        CType::I32 => signed(r, 0x1_0000_0000),
        CType::U32 => (r % 0x1_0000_0000) as i128,
        CType::I64 => {
            if r >= 0x8000_0000_0000_0000 {
                r as i128 - 0x1_0000_0000_0000_0000
            } else {
                r as i128
            }
        },
        _ => r as i128,
    }
}

/// Is the token at `i` the name of a parameter of the list from `l` to `r`?
pub open spec fn names_param(ts: Seq<Seq<char>>, l: nat, r: nat, i: int) -> bool {
    &&& l + 1 < i < r < ts.len()
    &&& name_like(ts[i])
    &&& !type_word(ts[i])
    &&& ts[i - 1] != ","@
    &&& i + 1 == r || ts[i + 1] == ","@
}

/// The same tokens, but for what the parameters are called.
pub open spec fn renamed(a: Seq<Seq<char>>, b: Seq<Seq<char>>, l: nat, r: nat) -> bool {
    &&& a.len() == b.len()
    &&& forall|i: int|
        0 <= i < a.len() ==> a[i] == #[trigger] b[i] || (names_param(a, l, r, i) && names_param(
            b,
            l,
            r,
            i,
        ))
}

proof fn lemma_name_is_no_mark(t: Seq<char>)
    requires
        name_like(t),
    ensures
        t != "("@ && t != ")"@ && t != ","@,
{
    reveal_strlit("(");
    reveal_strlit(")");
    reveal_strlit(",");
    assert(word_char(t[0]));
}

proof fn lemma_first_renamed(
    a: Seq<Seq<char>>,
    b: Seq<Seq<char>>,
    l: nat,
    r: nat,
    what: Seq<char>,
    i: nat,
)
    requires
        renamed(a, b, l, r),
        what == "("@ || what == ","@,
    ensures
        first_token(a, what, i) == first_token(b, what, i),
    decreases a.len() - i,
{
    if i < a.len() {
        if a[i as int] != b[i as int] {
            lemma_name_is_no_mark(a[i as int]);
            lemma_name_is_no_mark(b[i as int]);
        }
        lemma_first_renamed(a, b, l, r, what, i + 1);
    }
}

proof fn lemma_last_renamed(a: Seq<Seq<char>>, b: Seq<Seq<char>>, l: nat, r: nat, i: nat)
    requires
        renamed(a, b, l, r),
        i <= a.len(),
    ensures
        last_token(a, ")"@, i) == last_token(b, ")"@, i),
    decreases i,
{
    if i > 0 {
        assert(a[i - 1] == b[i - 1] || names_param(a, l, r, i - 1));
        if a[i - 1] != b[i - 1] {
            lemma_name_is_no_mark(a[i - 1]);
            lemma_name_is_no_mark(b[i - 1]);
        }
        lemma_last_renamed(a, b, l, r, (i - 1) as nat);
    }
}

proof fn lemma_first_is(ts: Seq<Seq<char>>, what: Seq<char>, i: nat)
    ensures
        match first_token(ts, what, i) {
            Some(j) => i <= j < ts.len() && ts[j as int] == what && forall|k: int|
                i <= k < j ==> #[trigger] ts[k] != what,
            None => forall|k: int| i <= k < ts.len() ==> #[trigger] ts[k] != what,
        },
    decreases ts.len() - i,
{
    if i < ts.len() && ts[i as int] != what {
        lemma_first_is(ts, what, i + 1);
    }
}

proof fn lemma_params_renamed(
    a: Seq<Seq<char>>,
    b: Seq<Seq<char>>,
    l: nat,
    r: nat,
    i: nat,
)
    requires
        renamed(a, b, l, r),
        l < i <= r < a.len(),
        i > l + 1 ==> a[i - 1] == ","@,
    ensures
        params_from(a, i, r) == params_from(b, i, r),
    decreases r - i,
{
    lemma_first_renamed(a, b, l, r, ","@, i);
    lemma_first_is(a, ","@, i);
    lemma_first_is(b, ","@, i);
    let comma = match first_token(a, ","@, i) {
        Some(j) => if i <= j < r {
            j
        } else {
            r
        },
        None => r,
    };
    let x = a.subrange(i as int, comma as int);
    let y = b.subrange(i as int, comma as int);
    assert forall|k: int| i <= k < comma implies a[k] == b[k] || (k == comma - 1 && k > i
        && names_param(a, l, r, k) && names_param(b, l, r, k)) by {
        assert(a[k] == b[k] || (names_param(a, l, r, k) && names_param(b, l, r, k)));
    }
    assert(unnamed(x) =~= unnamed(y)) by {
        if x.len() > 0 {
            let k = comma - 1;
            assert(a[k] == b[k] || (names_param(a, l, r, k) && names_param(b, l, r, k)));
        }
    }
    if comma < r {
        assert(a[comma as int] == ","@);
        lemma_params_renamed(a, b, l, r, comma + 1);
    }
}

/// What a declaration declares does not depend on what its parameters are
/// called.
pub proof fn lemma_names_of_parameters_are_nothing(x: Seq<char>, y: Seq<char>)
    requires
        head_of(x) matches Ok(h) && renamed(tokens(x), tokens(y), h.2, h.3),
    ensures
        decl_of(x) == decl_of(y),
{
    let h = head_of(x)->Ok_0;
    let (l, r) = (h.2, h.3);
    let a = tokens(x);
    let b = tokens(y);
    lemma_first_renamed(a, b, l, r, "("@, 0);
    lemma_last_renamed(a, b, l, r, a.len());
    lemma_first_is(a, "("@, 0);
    lemma_before(a, ")"@, a.len());
    assert(a[l - 1] == b[l - 1] || names_param(a, l, r, l - 1));
    assert forall|i: int| 0 <= i < l implies a[i] == b[i] by {
        assert(a[i] == b[i] || names_param(a, l, r, i));
    }
    assert(a.take(l - 1) =~= b.take(l - 1));
    reveal_strlit("(");
    reveal_strlit(")");
    assert(a[l as int] != a[r as int]) by {
        assert("("@[0] != ")"@[0]);
    }
    assert(head_of(y) == head_of(x));
    if r > l + 1 {
        assert(a[l as int + 1] == b[l as int + 1] || names_param(a, l, r, l as int + 1));
        lemma_params_renamed(a, b, l, r, l + 1);
    }
}

proof fn lemma_before(ts: Seq<Seq<char>>, what: Seq<char>, i: nat)
    requires
        i <= ts.len(),
    ensures
        last_token(ts, what, i) matches Some(j) ==> j < i && ts[j as int] == what,
    decreases i,
{
    if i > 0 && ts[i - 1] != what {
        lemma_before(ts, what, (i - 1) as nat);
    }
}

/// The parameters between two places, as they are written: split at the commas.
pub open spec fn split(ts: Seq<Seq<char>>, i: nat, end: nat) -> Seq<Seq<Seq<char>>>
    decreases end - i,
{
    let comma = match first_token(ts, ","@, i) {
        Some(j) => if i <= j < end {
            j
        } else {
            end
        },
        None => end,
    };
    let one = seq![unnamed(ts.subrange(i as int, comma as int))];
    if i <= comma < end {
        one + split(ts, comma + 1, end)
    } else {
        one
    }
}

/// The types of some parameters, the first mistake counting.
pub open spec fn types_of(ps: Seq<Seq<Seq<char>>>) -> Result<Seq<CType>, Seq<char>>
    decreases ps.len(),
{
    if ps.len() == 0 {
        Ok(Seq::empty())
    } else {
        match type_of(ps[0]) {
            Err(e) => Err(e),
            Ok(t) => match types_of(ps.drop_first()) {
                Ok(r) => Ok(seq![t] + r),
                Err(e) => Err(e),
            },
        }
    }
}

proof fn lemma_params_split(ts: Seq<Seq<char>>, i: nat, end: nat)
    ensures
        params_from(ts, i, end) == types_of(split(ts, i, end)),
    decreases end - i,
{
    let comma = match first_token(ts, ","@, i) {
        Some(j) => if i <= j < end {
            j
        } else {
            end
        },
        None => end,
    };
    let ps = split(ts, i, end);
    if i <= comma < end {
        let rest = split(ts, comma + 1, end);
        lemma_params_split(ts, comma + 1, end);
        assert(ps.drop_first() =~= rest);
    } else {
        assert(ps.drop_first() =~= Seq::empty());
        match type_of(ps[0]) {
            Ok(t) => {
                assert(types_of(ps.drop_first()) == Ok::<Seq<CType>, Seq<char>>(Seq::empty()));
                assert(seq![t] + Seq::<CType>::empty() =~= seq![t]);
            },
            Err(_) => {},
        }
    }
}

/// Does a parameter list say that there are none?
pub open spec fn says_none(ts: Seq<Seq<char>>, l: nat, r: nat) -> bool {
    r == l + 1 || (r == l + 2 && ts[l as int + 1] == "void"@)
}

/// Two declarations with the same head whose parameters are the same types
/// declare the same, whether their parameters have names or not.
pub proof fn lemma_only_types_count(x: Seq<char>, y: Seq<char>)
    requires
        head_of(x) matches Ok(a) && head_of(y) matches Ok(b) && a.0 == b.0 && a.1 == b.1
            && says_none(tokens(x), a.2, a.3) == says_none(tokens(y), b.2, b.3) && split(
            tokens(x),
            a.2 + 1,
            a.3,
        ) == split(tokens(y), b.2 + 1, b.3),
    ensures
        decl_of(x) == decl_of(y),
{
    let a = head_of(x)->Ok_0;
    let b = head_of(y)->Ok_0;
    lemma_params_split(tokens(x), a.2 + 1, a.3);
    lemma_params_split(tokens(y), b.2 + 1, b.3);
}

/// How many times a token stands between two places.
pub open spec fn times(ts: Seq<Seq<char>>, what: Seq<char>, i: nat, end: nat) -> nat
    decreases end - i,
{
    if i >= end {
        0
    } else {
        times(ts, what, i + 1, end) + (if ts[i as int] == what {
            1nat
        } else {
            0nat
        })
    }
}

proof fn lemma_times_skip(ts: Seq<Seq<char>>, what: Seq<char>, i: nat, j: nat, end: nat)
    requires
        i <= j <= end <= ts.len(),
        forall|k: int| i <= k < j ==> #[trigger] ts[k] != what,
    ensures
        times(ts, what, i, end) == times(ts, what, j, end),
    decreases j - i,
{
    if i < j {
        lemma_times_skip(ts, what, i + 1, j, end);
    }
}

proof fn lemma_split_count(ts: Seq<Seq<char>>, i: nat, end: nat)
    requires
        i <= end <= ts.len(),
    ensures
        split(ts, i, end).len() == times(ts, ","@, i, end) + 1,
    decreases end - i,
{
    lemma_first_is(ts, ","@, i);
    let comma = match first_token(ts, ","@, i) {
        Some(j) => if i <= j < end {
            j
        } else {
            end
        },
        None => end,
    };
    lemma_times_skip(ts, ","@, i, comma, end);
    if comma < end {
        lemma_split_count(ts, comma + 1, end);
    }
}

proof fn lemma_types_count(ps: Seq<Seq<Seq<char>>>)
    ensures
        types_of(ps) matches Ok(r) ==> r.len() == ps.len(),
    decreases ps.len(),
{
    if ps.len() > 0 {
        lemma_types_count(ps.drop_first());
    }
}

/// A function takes one parameter more than there are commas, or none where the
/// list is empty or says `void`.
pub proof fn lemma_one_more_than_commas(x: Seq<char>)
    requires
        decl_of(x) is Ok,
    ensures
        ({
            let h = head_of(x)->Ok_0;
            decl_of(x)->Ok_0.params.len() == if says_none(tokens(x), h.2, h.3) {
                0
            } else {
                times(tokens(x), ","@, h.2 + 1, h.3) + 1
            }
        }),
{
    let h = head_of(x)->Ok_0;
    let ts = tokens(x);
    lemma_first_is(ts, "("@, 0);
    lemma_before(ts, ")"@, ts.len());
    reveal_strlit("(");
    reveal_strlit(")");
    assert(ts[h.2 as int] != ts[h.3 as int]) by {
        assert("("@[0] != ")"@[0]);
    }
    lemma_params_split(ts, h.2 + 1, h.3);
    lemma_split_count(ts, h.2 + 1, h.3);
    lemma_types_count(split(ts, h.2 + 1, h.3));
}

/// A declaration is refused for what is in front of its parameters: two that
/// are the same there, and whose lists both close or both do not, are refused or
/// read alike.
pub proof fn lemma_heads_are_refused_alike(x: Seq<char>, y: Seq<char>, l: nat)
    requires
        first_token(tokens(x), "("@, 0) == Some(l),
        first_token(tokens(y), "("@, 0) == Some(l),
        tokens(x).take(l as int) == tokens(y).take(l as int),
        (last_token(tokens(x), ")"@, tokens(x).len()) matches Some(r) && r >= l) == (last_token(
            tokens(y),
            ")"@,
            tokens(y).len(),
        ) matches Some(r) && r >= l),
    ensures
        head_of(x) is Ok == head_of(y) is Ok,
        head_of(x) is Ok ==> head_of(x)->Ok_0.0 == head_of(y)->Ok_0.0 && head_of(x)->Ok_0.1
            == head_of(y)->Ok_0.1,
{
    let a = tokens(x);
    let b = tokens(y);
    lemma_first_is(a, "("@, 0);
    lemma_first_is(b, "("@, 0);
    if l > 0 {
        assert(a.take(l as int)[l - 1] == b.take(l as int)[l - 1]);
        assert(a.take(l - 1) =~= a.take(l as int).take(l - 1));
        assert(b.take(l - 1) =~= b.take(l as int).take(l - 1));
    }
}

// ---- what the types of C are ---------------------------------------------------------------

/// A whole number of so many bits, with a sign or without.
pub open spec fn is_whole(t: CType, bits: nat, signed: bool) -> bool {
    match t {
        CType::I8 => bits == 8 && signed,
        CType::U8 => bits == 8 && !signed,
        CType::I16 => bits == 16 && signed,
        CType::U16 => bits == 16 && !signed,
        CType::I32 => bits == 32 && signed,
        CType::U32 => bits == 32 && !signed,
        CType::I64 => bits == 64 && signed,
        CType::U64 => bits == 64 && !signed,
        _ => false,
    }
}

/// A floating number of so many bits.
pub open spec fn is_real(t: CType, bits: nat) -> bool {
    (t == CType::F32 && bits == 32) || (t == CType::F64 && bits == 64)
}

pub open spec fn gives_whole(r: Result<CType, Seq<char>>, bits: nat, signed: bool) -> bool {
    r is Ok && is_whole(r->Ok_0, bits, signed)
}

pub open spec fn gives_real(r: Result<CType, Seq<char>>, bits: nat) -> bool {
    r is Ok && is_real(r->Ok_0, bits)
}

/// A result that is a whole number is the one of its width and sign whose bits
/// came back: it is in the range of its type, and differs from what came back by a
/// multiple of the size of its type.
pub proof fn lemma_results_fit_their_type(t: CType, bits: nat, signed: bool, r: u64)
    requires
        is_whole(t, bits, signed),
    ensures
        ({
            let size = vstd::arithmetic::power2::pow2(bits) as int;
            let v = narrowed(t, r);
            &&& if signed {
                -size <= 2 * v < size
            } else {
                0 <= v < size
            }
            &&& (r as int - v) % size == 0
        }),
{
    vstd::arithmetic::power2::lemma2_to64();
    vstd::arithmetic::power2::lemma2_to64_rest();
    let size = vstd::arithmetic::power2::pow2(bits) as int;
    assert(size == 0x100 || size == 0x1_0000 || size == 0x1_0000_0000 || size
        == 0x1_0000_0000_0000_0000);
    lemma_part(r as int, size);
    vstd::arithmetic::div_mod::lemma_small_mod(r as nat, 0x1_0000_0000_0000_0000);
}

proof fn lemma_part(x: int, size: int)
    requires
        size > 0,
        size % 2 == 0,
        0 <= x,
    ensures
        (x - x % size) % size == 0,
        (x - signed_part(x, size)) % size == 0,
        -size <= 2 * signed_part(x, size) < size,
        0 <= x % size < size,
{
    let k = x / size;
    vstd::arithmetic::div_mod::lemma_fundamental_div_mod(x, size);
    vstd::arithmetic::div_mod::lemma_mod_multiples_basic(k, size);
    vstd::arithmetic::div_mod::lemma_mod_multiples_basic(k + 1, size);
    vstd::arithmetic::div_mod::lemma_mod_bound(x, size);
    vstd::arithmetic::mul::lemma_mul_is_commutative(k, size);
    vstd::arithmetic::mul::lemma_mul_is_distributive_add_other_way(size, k, 1);
    assert(x - x % size == k * size);
    assert((k + 1) * size == k * size + size);
}

/// A word that says nothing of what a type is, or only its sign.
pub open spec fn is_qualifier(w: Seq<char>) -> bool {
    w == "const"@ || w == "struct"@ || w == "signed"@ || w == "unsigned"@
}

/// The words of a type that are no qualifiers and no stars.
pub open spec fn bare(ts: Seq<Seq<char>>) -> Seq<Seq<char>> {
    ts.filter(|w: Seq<char>| !is_qualifier(w) && w != "*"@)
}

proof fn lemma_bare(ts: Seq<Seq<char>>)
    ensures
        base_words(ts) == bare(ts),
    decreases ts.len(),
{
    reveal(Seq::filter);
    if ts.len() > 0 {
        lemma_bare(ts.drop_last());
    }
}

proof fn lemma_no_stars(ts: Seq<Seq<char>>, what: Seq<char>)
    ensures
        how_many(ts, what) == 0 <==> !ts.contains(what),
    decreases ts.len(),
{
    if ts.len() > 0 {
        let front = ts.drop_last();
        lemma_no_stars(front, what);
        assert(ts.last() == ts[ts.len() - 1]);
        if ts.contains(what) {
            let i = choose|i: int| 0 <= i < ts.len() && ts[i] == what;
            if i < ts.len() - 1 {
                assert(front[i] == what);
            }
        }
        if front.contains(what) {
            let i = choose|i: int| 0 <= i < front.len() && front[i] == what;
            assert(ts[i] == what);
        }
    }
}

/// The bytes that the names of C's types are told apart by.
proof fn lemma_names_differ()
    ensures
        "void"@.len() == 4,
        ""@.len() == 0,
        "char"@.len() == 4,
        "int8_t"@.len() == 6,
        "uint8_t"@.len() == 7,
        "bool"@.len() == 4,
        "_Bool"@.len() == 5,
        "short"@.len() == 5,
        "short int"@.len() == 9,
        "int16_t"@.len() == 7,
        "uint16_t"@.len() == 8,
        "int"@.len() == 3,
        "int32_t"@.len() == 7,
        "uint32_t"@.len() == 8,
        "long"@.len() == 4,
        "long int"@.len() == 8,
        "long long"@.len() == 9,
        "long long int"@.len() == 13,
        "int64_t"@.len() == 7,
        "ssize_t"@.len() == 7,
        "intptr_t"@.len() == 8,
        "uint64_t"@.len() == 8,
        "size_t"@.len() == 6,
        "uintptr_t"@.len() == 9,
        "float"@.len() == 5,
        "double"@.len() == 6,
        "long double"@.len() == 11,
        "void"@[0] == 'v',
        "void"@[1] == 'o',
        "void"@[2] == 'i',
        "void"@[3] == 'd',
        "char"@[0] == 'c',
        "char"@[1] == 'h',
        "char"@[2] == 'a',
        "char"@[3] == 'r',
        "int8_t"@[0] == 'i',
        "int8_t"@[1] == 'n',
        "int8_t"@[2] == 't',
        "int8_t"@[3] == '8',
        "int8_t"@[4] == '_',
        "int8_t"@[5] == 't',
        "uint8_t"@[0] == 'u',
        "uint8_t"@[1] == 'i',
        "uint8_t"@[2] == 'n',
        "uint8_t"@[3] == 't',
        "uint8_t"@[4] == '8',
        "uint8_t"@[5] == '_',
        "uint8_t"@[6] == 't',
        "bool"@[0] == 'b',
        "bool"@[1] == 'o',
        "bool"@[2] == 'o',
        "bool"@[3] == 'l',
        "_Bool"@[0] == '_',
        "_Bool"@[1] == 'B',
        "_Bool"@[2] == 'o',
        "_Bool"@[3] == 'o',
        "_Bool"@[4] == 'l',
        "short"@[0] == 's',
        "short"@[1] == 'h',
        "short"@[2] == 'o',
        "short"@[3] == 'r',
        "short"@[4] == 't',
        "short int"@[0] == 's',
        "short int"@[1] == 'h',
        "short int"@[2] == 'o',
        "short int"@[3] == 'r',
        "short int"@[4] == 't',
        "short int"@[5] == ' ',
        "short int"@[6] == 'i',
        "short int"@[7] == 'n',
        "short int"@[8] == 't',
        "int16_t"@[0] == 'i',
        "int16_t"@[1] == 'n',
        "int16_t"@[2] == 't',
        "int16_t"@[3] == '1',
        "int16_t"@[4] == '6',
        "int16_t"@[5] == '_',
        "int16_t"@[6] == 't',
        "uint16_t"@[0] == 'u',
        "uint16_t"@[1] == 'i',
        "uint16_t"@[2] == 'n',
        "uint16_t"@[3] == 't',
        "uint16_t"@[4] == '1',
        "uint16_t"@[5] == '6',
        "uint16_t"@[6] == '_',
        "uint16_t"@[7] == 't',
        "int"@[0] == 'i',
        "int"@[1] == 'n',
        "int"@[2] == 't',
        "int32_t"@[0] == 'i',
        "int32_t"@[1] == 'n',
        "int32_t"@[2] == 't',
        "int32_t"@[3] == '3',
        "int32_t"@[4] == '2',
        "int32_t"@[5] == '_',
        "int32_t"@[6] == 't',
        "uint32_t"@[0] == 'u',
        "uint32_t"@[1] == 'i',
        "uint32_t"@[2] == 'n',
        "uint32_t"@[3] == 't',
        "uint32_t"@[4] == '3',
        "uint32_t"@[5] == '2',
        "uint32_t"@[6] == '_',
        "uint32_t"@[7] == 't',
        "long"@[0] == 'l',
        "long"@[1] == 'o',
        "long"@[2] == 'n',
        "long"@[3] == 'g',
        "long int"@[0] == 'l',
        "long int"@[1] == 'o',
        "long int"@[2] == 'n',
        "long int"@[3] == 'g',
        "long int"@[4] == ' ',
        "long int"@[5] == 'i',
        "long int"@[6] == 'n',
        "long int"@[7] == 't',
        "long long"@[0] == 'l',
        "long long"@[1] == 'o',
        "long long"@[2] == 'n',
        "long long"@[3] == 'g',
        "long long"@[4] == ' ',
        "long long"@[5] == 'l',
        "long long"@[6] == 'o',
        "long long"@[7] == 'n',
        "long long"@[8] == 'g',
        "long long int"@[0] == 'l',
        "long long int"@[1] == 'o',
        "long long int"@[2] == 'n',
        "long long int"@[3] == 'g',
        "long long int"@[4] == ' ',
        "long long int"@[5] == 'l',
        "long long int"@[6] == 'o',
        "long long int"@[7] == 'n',
        "long long int"@[8] == 'g',
        "long long int"@[9] == ' ',
        "long long int"@[10] == 'i',
        "long long int"@[11] == 'n',
        "long long int"@[12] == 't',
        "int64_t"@[0] == 'i',
        "int64_t"@[1] == 'n',
        "int64_t"@[2] == 't',
        "int64_t"@[3] == '6',
        "int64_t"@[4] == '4',
        "int64_t"@[5] == '_',
        "int64_t"@[6] == 't',
        "ssize_t"@[0] == 's',
        "ssize_t"@[1] == 's',
        "ssize_t"@[2] == 'i',
        "ssize_t"@[3] == 'z',
        "ssize_t"@[4] == 'e',
        "ssize_t"@[5] == '_',
        "ssize_t"@[6] == 't',
        "intptr_t"@[0] == 'i',
        "intptr_t"@[1] == 'n',
        "intptr_t"@[2] == 't',
        "intptr_t"@[3] == 'p',
        "intptr_t"@[4] == 't',
        "intptr_t"@[5] == 'r',
        "intptr_t"@[6] == '_',
        "intptr_t"@[7] == 't',
        "uint64_t"@[0] == 'u',
        "uint64_t"@[1] == 'i',
        "uint64_t"@[2] == 'n',
        "uint64_t"@[3] == 't',
        "uint64_t"@[4] == '6',
        "uint64_t"@[5] == '4',
        "uint64_t"@[6] == '_',
        "uint64_t"@[7] == 't',
        "size_t"@[0] == 's',
        "size_t"@[1] == 'i',
        "size_t"@[2] == 'z',
        "size_t"@[3] == 'e',
        "size_t"@[4] == '_',
        "size_t"@[5] == 't',
        "uintptr_t"@[0] == 'u',
        "uintptr_t"@[1] == 'i',
        "uintptr_t"@[2] == 'n',
        "uintptr_t"@[3] == 't',
        "uintptr_t"@[4] == 'p',
        "uintptr_t"@[5] == 't',
        "uintptr_t"@[6] == 'r',
        "uintptr_t"@[7] == '_',
        "uintptr_t"@[8] == 't',
        "float"@[0] == 'f',
        "float"@[1] == 'l',
        "float"@[2] == 'o',
        "float"@[3] == 'a',
        "float"@[4] == 't',
        "double"@[0] == 'd',
        "double"@[1] == 'o',
        "double"@[2] == 'u',
        "double"@[3] == 'b',
        "double"@[4] == 'l',
        "double"@[5] == 'e',
        "long double"@[0] == 'l',
        "long double"@[1] == 'o',
        "long double"@[2] == 'n',
        "long double"@[3] == 'g',
        "long double"@[4] == ' ',
        "long double"@[5] == 'd',
        "long double"@[6] == 'o',
        "long double"@[7] == 'u',
        "long double"@[8] == 'b',
        "long double"@[9] == 'l',
        "long double"@[10] == 'e',
{
    reveal_strlit("void");
    reveal_strlit("");
    reveal_strlit("char");
    reveal_strlit("int8_t");
    reveal_strlit("uint8_t");
    reveal_strlit("bool");
    reveal_strlit("_Bool");
    reveal_strlit("short");
    reveal_strlit("short int");
    reveal_strlit("int16_t");
    reveal_strlit("uint16_t");
    reveal_strlit("int");
    reveal_strlit("int32_t");
    reveal_strlit("uint32_t");
    reveal_strlit("long");
    reveal_strlit("long int");
    reveal_strlit("long long");
    reveal_strlit("long long int");
    reveal_strlit("int64_t");
    reveal_strlit("ssize_t");
    reveal_strlit("intptr_t");
    reveal_strlit("uint64_t");
    reveal_strlit("size_t");
    reveal_strlit("uintptr_t");
    reveal_strlit("float");
    reveal_strlit("double");
    reveal_strlit("long double");
}

/// One word with or without qualifiers names the type C gives that name: `size_t`,
/// `uint64_t` and `uintptr_t` are whole numbers of 64 bits without a sign, `float`
/// and `double` are floating, and so on. Where the name does not settle the sign,
/// `unsigned` does; a word that is none of these names no type.
pub proof fn lemma_what_a_name_names(ts: Seq<Seq<char>>, w: Seq<char>)
    requires
        bare(ts) == seq![w],
        !ts.contains("*"@),
    ensures
        ({
            let u = ts.contains("unsigned"@);
            let t = type_of(ts);
            &&& w == "size_t"@ || w == "uint64_t"@ || w == "uintptr_t"@ ==> gives_whole(t,
                64,
                false,
            )
            &&& w == "long"@ || w == "int64_t"@ || w == "ssize_t"@ || w == "intptr_t"@
                ==> gives_whole(t, 64, !u)
            &&& w == "uint32_t"@ ==> gives_whole(t, 32, false)
            &&& w == "int"@ || w == "int32_t"@ ==> gives_whole(t, 32, !u)
            &&& w == "uint16_t"@ ==> gives_whole(t, 16, false)
            &&& w == "short"@ || w == "int16_t"@ ==> gives_whole(t, 16, !u)
            &&& w == "uint8_t"@ || w == "bool"@ || w == "_Bool"@ ==> gives_whole(t,
                8,
                false,
            )
            &&& w == "char"@ || w == "int8_t"@ ==> gives_whole(t, 8, !u)
            &&& w == "float"@ ==> gives_real(t, 32)
            &&& w == "double"@ ==> gives_real(t, 64)
            &&& w == "void"@ ==> t == Ok::<CType, Seq<char>>(CType::Void)
            &&& t == Ok::<CType, Seq<char>>(CType::F32) || t == Ok::<CType, Seq<char>>(CType::F64)
                ==> w == "float"@ || w == "double"@ || w == "long double"@
        }),
{
    lemma_bare(ts);
    lemma_no_stars(ts, "*"@);
    lemma_names_differ();
    assert(tables::joined(seq![w], " "@) == w);
}

/// `long long`, `long int` and `long long int` are as wide as `long`, `short int` as
/// `short`, `long double` is floating, and a sign alone is a sign of `int`.
pub proof fn lemma_what_several_words_name(ts: Seq<Seq<char>>)
    requires
        !ts.contains("*"@),
    ensures
        ({
            let u = ts.contains("unsigned"@);
            let t = type_of(ts);
            let ws = bare(ts);
            &&& ws == seq!["long"@, "long"@] || ws == seq!["long"@, "int"@] || ws == seq![
                "long"@,
                "long"@,
                "int"@,
            ] ==> gives_whole(t, 64, !u)
            &&& ws == seq!["short"@, "int"@] ==> gives_whole(t, 16, !u)
            &&& ws == seq!["long"@, "double"@] ==> gives_real(t, 64)
            &&& ws.len() == 0 && u ==> gives_whole(t, 32, false)
            &&& ws.len() == 0 && !u && ts.contains("signed"@) ==> gives_whole(t,
                32,
                true,
            )
        }),
{
    lemma_bare(ts);
    lemma_no_stars(ts, "*"@);
    lemma_names_differ();
    reveal_strlit(" ");
    let ws = bare(ts);
    reveal_with_fuel(tables::joined, 4);
    assert(seq!["long"@, "long"@].drop_last() =~= seq!["long"@]);
    assert(seq!["long"@, "int"@].drop_last() =~= seq!["long"@]);
    assert(seq!["short"@, "int"@].drop_last() =~= seq!["short"@]);
    assert(seq!["long"@, "double"@].drop_last() =~= seq!["long"@]);
    assert(seq!["long"@, "long"@, "int"@].drop_last() =~= seq!["long"@, "long"@]);
    assert("long"@ + " "@ + "long"@ =~= "long long"@);
    assert("long"@ + " "@ + "int"@ =~= "long int"@);
    assert("short"@ + " "@ + "int"@ =~= "short int"@);
    assert("long"@ + " "@ + "double"@ =~= "long double"@);
    assert("long long"@ + " "@ + "int"@ =~= "long long int"@);
    assert(""@ =~= Seq::<char>::empty());
}

/// A star makes a pointer of anything, and only one star after a plain `char` makes
/// a text; without a star there is neither.
pub proof fn lemma_stars_point(ts: Seq<Seq<char>>)
    ensures
        ts.contains("*"@) ==> type_of(ts) == Ok::<CType, Seq<char>>(CType::Ptr) || type_of(ts)
            == Ok::<CType, Seq<char>>(CType::CStr),
        !ts.contains("*"@) ==> type_of(ts) != Ok::<CType, Seq<char>>(CType::Ptr) && type_of(ts)
            != Ok::<CType, Seq<char>>(CType::CStr),
        type_of(ts) == Ok::<CType, Seq<char>>(CType::CStr) <==> bare(ts) == seq!["char"@]
            && how_many(ts, "*"@) == 1 && !ts.contains("unsigned"@) && !ts.contains("signed"@),
{
    lemma_bare(ts);
    lemma_no_stars(ts, "*"@);
    lemma_names_differ();
    reveal_strlit(" ");
    let ws = bare(ts);
    let b = tables::joined(ws, " "@);
    if ws.len() >= 2 {
        let front = tables::joined(ws.drop_last(), " "@);
        assert(b[front.len() as int] == ' ');
    }
    if ws.len() == 1 {
        assert(ws =~= seq![ws[0]]);
    }
}

// ---- whole declarations ---------------------------------------------------------------------

proof fn lemma_tokens_shift(s: Seq<char>, i: nat, cur: Seq<char>, t: Seq<char>, j: nat)
    requires
        i <= s.len(),
        j <= t.len(),
        s.skip(i as int) == t.skip(j as int),
    ensures
        tokens_from(s, i, cur) == tokens_from(t, j, cur),
    decreases s.len() - i,
{
    assert(s.skip(i as int).len() == s.len() - i);
    assert(t.skip(j as int).len() == t.len() - j);
    if i < s.len() {
        assert(s.skip(i as int)[0] == s[i as int]);
        assert(t.skip(j as int)[0] == t[j as int]);
        assert(s.skip(i as int + 1) =~= s.skip(i as int).skip(1));
        assert(t.skip(j as int + 1) =~= t.skip(j as int).skip(1));
        let c = s[i as int];
        lemma_tokens_shift(s, i + 1, Seq::empty(), t, j + 1);
        lemma_tokens_shift(s, i + 1, cur.push(c), t, j + 1);
    }
}

/// Is this a word: no mark and no white space in it?
pub open spec fn is_word(w: Seq<char>) -> bool {
    w.len() > 0 && forall|i: int|
        0 <= i < w.len() ==> !is_mark(#[trigger] w[i]) && !text::is_space(w[i])
}

proof fn lemma_word_under_way(w: Seq<char>, rest: Seq<char>, i: nat)
    requires
        is_word(w),
        i <= w.len(),
        rest.len() > 0 ==> is_mark(rest[0]) || text::is_space(rest[0]),
    ensures
        tokens_from(w + rest, i, w.take(i as int)) == seq![w] + tokens(rest),
    decreases w.len() - i,
{
    let s = w + rest;
    if i < w.len() {
        assert(s[i as int] == w[i as int]);
        assert(w.take(i as int).push(w[i as int]) =~= w.take(i as int + 1));
        lemma_word_under_way(w, rest, i + 1);
    } else {
        assert(w.take(i as int) =~= w);
        if rest.len() == 0 {
            assert(tokens(rest) =~= Seq::empty());
            assert(seq![w] + tokens(rest) =~= seq![w]);
        } else {
            assert(s[i as int] == rest[0]);
            assert(s.skip(i as int + 1) =~= rest.skip(1));
            lemma_tokens_shift(s, i + 1, Seq::empty(), rest, 1);
            let more = tokens_from(rest, 1, Seq::empty());
            if is_mark(rest[0]) {
                assert(flushed(w) + seq![seq![rest[0]]] + more =~= seq![w] + (Seq::<
                    Seq<char>,
                >::empty() + seq![seq![rest[0]]] + more));
            } else {
                assert(Seq::<Seq<char>>::empty() + more =~= more);
            }
        }
    }
}

/// A declaration is read word by word: a word is a token, however much white space
/// follows it, and a mark is one of its own.
pub proof fn lemma_words_are_tokens(w: Seq<char>, rest: Seq<char>, c: char)
    requires
        is_word(w),
        rest.len() > 0 ==> is_mark(rest[0]) || text::is_space(rest[0]),
    ensures
        tokens(w + rest) == seq![w] + tokens(rest),
        text::is_space(c) && !is_mark(c) ==> tokens(seq![c] + rest) == tokens(rest),
        is_mark(c) ==> tokens(seq![c] + rest) == seq![seq![c]] + tokens(rest),
        tokens(Seq::empty()).len() == 0,
{
    lemma_word_under_way(w, rest, 0);
    assert(w.take(0) =~= Seq::empty());
    let s = seq![c] + rest;
    assert(s[0] == c);
    assert(s.skip(1) =~= rest.skip(0));
    lemma_tokens_shift(s, 1, Seq::empty(), rest, 0);
    let none = Seq::<Seq<char>>::empty();
    assert(none + tokens(rest) =~= tokens(rest));
    assert(none + seq![seq![c]] + tokens(rest) =~= seq![seq![c]] + tokens(rest));
}

/// Parameters with commas between them.
pub open spec fn listed(ps: Seq<Seq<Seq<char>>>) -> Seq<Seq<char>>
    decreases ps.len(),
{
    if ps.len() == 0 {
        Seq::empty()
    } else if ps.len() == 1 {
        ps[0]
    } else {
        ps[0] + (seq![","@] + listed(ps.drop_first()))
    }
}

proof fn lemma_token_first(ts: Seq<Seq<char>>, what: Seq<char>, i: nat, j: nat)
    requires
        i <= j <= ts.len(),
        forall|k: int| i <= k < j ==> #[trigger] ts[k] != what,
    ensures
        j < ts.len() && ts[j as int] == what ==> first_token(ts, what, i) == Some(j),
        match first_token(ts, what, i) {
            Some(k) => j <= k < ts.len(),
            None => true,
        },
    decreases ts.len() - i,
{
    if i < j {
        lemma_token_first(ts, what, i + 1, j);
    } else {
        lemma_at_or_after(ts, what, i);
    }
}

proof fn lemma_at_or_after(ts: Seq<Seq<char>>, what: Seq<char>, i: nat)
    ensures
        match first_token(ts, what, i) {
            Some(k) => i <= k < ts.len(),
            None => true,
        },
    decreases ts.len() - i,
{
    if i < ts.len() && ts[i as int] != what {
        lemma_at_or_after(ts, what, i + 1);
    }
}

/// The type of each parameter, in order.
pub open spec fn types_in(ps: Seq<Seq<Seq<char>>>) -> Seq<CType> {
    Seq::new(ps.len(), |i: int| type_of(unnamed(ps[i]))->Ok_0)
}

proof fn lemma_params_in_order(ts: Seq<Seq<char>>, i: nat, end: nat, ps: Seq<Seq<Seq<char>>>)
    requires
        i <= end <= ts.len(),
        ps.len() > 0,
        ts.subrange(i as int, end as int) == listed(ps),
        forall|k: int| 0 <= k < ps.len() ==> !(#[trigger] ps[k]).contains(","@),
        forall|k: int| 0 <= k < ps.len() ==> type_of(unnamed(#[trigger] ps[k])) is Ok,
    ensures
        params_from(ts, i, end) == Ok::<Seq<CType>, Seq<char>>(types_in(ps)),
    decreases ps.len(),
{
    let first = ps[0];
    let part = ts.subrange(i as int, end as int);
    let j = (i + first.len()) as nat;
    assert(first.len() <= part.len());
    assert forall|k: int| i <= k < j implies #[trigger] ts[k] != ","@ by {
        assert(part[k - i] == first[k - i]);
        assert(ts[k] == part[k - i]);
    }
    lemma_token_first(ts, ","@, i, j);
    assert(ts.subrange(i as int, j as int) =~= first) by {
        assert forall|k: int| 0 <= k < first.len() implies ts[i + k] == #[trigger] first[k] by {
            assert(ts[i + k] == part[k]);
            assert(part[k] == listed(ps)[k]);
        }
    }
    let rest = ps.drop_first();
    if ps.len() == 1 {
        assert(j == end);
        assert(types_in(ps) =~= seq![type_of(unnamed(first))->Ok_0]);
    } else {
        assert(part[first.len() as int] == ","@);
        assert(ts[j as int] == part[j - i]);
        assert(ts.subrange(j as int + 1, end as int) =~= listed(rest)) by {
            assert(part.skip(first.len() as int + 1) =~= listed(rest));
            assert(ts.subrange(j as int + 1, end as int) =~= part.skip(first.len() as int + 1));
        }
        assert forall|k: int| 0 <= k < rest.len() implies !(#[trigger] rest[k]).contains(
            ","@,
        ) && type_of(unnamed(rest[k])) is Ok by {
            assert(rest[k] == ps[k + 1]);
        }
        lemma_params_in_order(ts, j + 1, end, rest);
        assert(types_in(ps) =~= seq![type_of(unnamed(first))->Ok_0] + types_in(rest));
    }
}

/// A declaration is read as it is written: the words before the name are the result,
/// and what stands between the brackets is the parameters, from first to last.
pub proof fn lemma_declarations(
    decl: Seq<char>,
    ret: Seq<Seq<char>>,
    name: Seq<char>,
    ps: Seq<Seq<Seq<char>>>,
)
    requires
        tokens(decl) == ret + seq![name, "("@] + listed(ps) + seq![")"@],
        !ret.contains("("@),
        name != "("@,
        word_chars(name),
        type_of(ret) is Ok,
        ps.len() > 0,
        listed(ps).len() > 1 || (listed(ps).len() == 1 && listed(ps)[0] != "void"@),
        forall|k: int| 0 <= k < ps.len() ==> !(#[trigger] ps[k]).contains(","@),
        forall|k: int| 0 <= k < ps.len() ==> type_of(unnamed(#[trigger] ps[k])) is Ok,
    ensures
        decl_of(decl) == Ok::<SignatureView, Seq<char>>(
            SignatureView { name, ret: type_of(ret)->Ok_0, params: types_in(ps) },
        ),
{
    let ts = tokens(decl);
    let l = (ret.len() + 1) as nat;
    let r = (ts.len() - 1) as nat;
    assert forall|k: int| 0 <= k < l implies #[trigger] ts[k] != "("@ by {
        if k < ret.len() {
            assert(ts[k] == ret[k]);
        } else {
            assert(ts[k] == name);
        }
    }
    assert(ts[l as int] == "("@);
    lemma_token_first(ts, "("@, 0, l);
    assert(ts[r as int] == ")"@);
    assert(last_token(ts, ")"@, ts.len()) == Some(r));
    assert(ts[l - 1] == name);
    assert(ts.take(l - 1) =~= ret);
    assert(ts.subrange(l as int + 1, r as int) =~= listed(ps));
    assert(ts[l as int + 1] == listed(ps)[0]);
    lemma_params_in_order(ts, l + 1, r, ps);
}

} // verus!
