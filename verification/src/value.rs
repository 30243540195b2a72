//! Values, and what they are known by when they key a table.
//!
//! A value is two words. Strings are shared handles that carry the hash of
//! their bytes; tables, functions and captured variables live in the
//! machine's heap and a value names them by their place in it.
use crate::hash;
use crate::num;
use crate::text;
use std::rc::Rc;
use vstd::prelude::*;

verus! {

/// A runtime error, with the line it came from once that is known.
pub struct Error {
    pub message: String,
    /// The line, once known. `located` says whether it has been stamped.
    pub line: u32,
    pub located: bool,
    /// The function it happened in, if it was not top level code.
    pub where_: Option<String>,
    /// The call stack when it happened, innermost last: the function called,
    /// and the line its caller called it from.
    pub trace: Vec<(String, u32)>,
}

/// How a function is named in a traceback.
pub open spec fn frame_name(name: Seq<char>) -> Seq<char> {
    if name.len() == 0 {
        "a closure"@
    } else {
        name
    }
}

/// One line of a traceback: what was called, by whom, and from which line.
pub open spec fn trace_line(trace: Seq<(String, u32)>, i: int) -> Seq<char> {
    frame_name(trace[i].0@) + " called from "@ + (if i == 0 {
        "top level"@
    } else {
        frame_name(trace[i - 1].0@)
    }) + ", line "@ + text::decimal(trace[i].1 as nat)
}

/// An error as it is shown: where it happened, what happened, and in what.
pub open spec fn error_text(e: Error) -> Seq<char> {
    (if e.located {
        "line "@ + text::decimal(e.line as nat) + ": "@
    } else {
        Seq::<char>::empty()
    }) + e.message@ + match e.where_ {
        Some(w) => " (in "@ + w@ + ")"@,
        None => Seq::<char>::empty(),
    }
}

fn name_of_frame(name: &String) -> (r: String)
    ensures
        r@ == frame_name(name@),
{
    if name.as_str().is_empty() {
        text::owned("a closure")
    } else {
        name.clone()
    }
}

impl Error {
    /// The call stack, one frame per line, innermost first.
    pub fn traceback(&self) -> (r: Vec<String>)
        ensures
            r@.len() == self.trace@.len(),
            forall|k: int|
                0 <= k < r@.len() ==> (#[trigger] r@[k])@ == trace_line(
                    self.trace@,
                    self.trace@.len() - 1 - k,
                ),
    {
        let mut out: Vec<String> = Vec::new();
        let n: usize = self.trace.len();
        let mut i: usize = n;
        while i > 0
            invariant
                i <= n == self.trace@.len(),
                out@.len() == n - i,
                forall|k: int|
                    0 <= k < out@.len() ==> (#[trigger] out@[k])@ == trace_line(
                        self.trace@,
                        n - 1 - k,
                    ),
            decreases i,
        {
            i = i - 1;
            let mut line = name_of_frame(&self.trace[i].0);
            line.append(" called from ");
            if i == 0 {
                line.append("top level");
            } else {
                let caller = name_of_frame(&self.trace[i - 1].0);
                line.append(caller.as_str());
            }
            line.append(", line ");
            text::push_decimal(&mut line, self.trace[i].1 as u64);
            out.push(line);
        }
        out
    }

    /// The error in one line: `line 3: message (in f)`.
    pub fn text(&self) -> (r: String)
        ensures
            r@ == error_text(*self),
    {
        let mut out = String::new();
        if self.located {
            out.append("line ");
            text::push_decimal(&mut out, self.line as u64);
            out.append(": ");
        }
        out.append(self.message.as_str());
        match &self.where_ {
            Some(w) => {
                out.append(" (in ");
                out.append(w.as_str());
                out.append(")");
            },
            None => {},
        }
        assert(out@ == error_text(*self));
        out
    }
}

/// What an error that nobody has located yet says of itself.
pub open spec fn plain_error(e: Error, message: Seq<char>) -> bool {
    &&& e.message@ == message
    &&& e.line == 0
    &&& !e.located
    &&& e.where_ is None
    &&& e.trace@.len() == 0
}

/// An error with a message and nothing known yet about where it happened.
#[allow(non_snake_case)]
pub fn Error(message: String) -> (r: Error)
    ensures
        plain_error(r, message@),
{
    Error { message, line: 0, located: false, where_: None, trace: Vec::new() }
}

/// The failing result with that message.
pub fn err<T>(message: String) -> (r: Result<T, Error>)
    ensures
        r matches Err(e) && plain_error(e, message@),
{
    Err(self::Error(message))
}

/// Short strings are interned: equal texts of up to this many bytes are one
/// string.
pub const INTERN_MAX: usize = 40;

/// Is this text short enough to be interned?
pub open spec fn is_short(t: Seq<char>) -> bool {
    vstd::utf8::encode_utf8(t).len() <= INTERN_MAX
}

/// The bytes of a string and their hash.
pub struct StrData {
    hash: u64,
    short: bool,
    s: String,
}

impl StrData {
    pub closed spec fn text(&self) -> Seq<char> {
        self.s@
    }

    #[verifier::type_invariant]
    spec fn hash_is_right(self) -> bool {
        &&& self.hash == hash::text_hash(vstd::utf8::encode_utf8(self.s@))
        &&& self.short == is_short(self.s@)
    }
}

/// A string value: a shared handle to its text and its hash.
pub struct RStr(Rc<StrData>);

impl View for RStr {
    type V = Seq<char>;

    closed spec fn view(&self) -> Seq<char> {
        self.0.text()
    }
}

impl Clone for RStr {
    fn clone(&self) -> (r: RStr)
        ensures
            r == *self,
    {
        RStr(self.0.clone())
    }
}

/// `Rc::ptr_eq`: handles to one allocation hold one text. Two allocations may
/// hold equal texts, so nothing follows from a `false`.
#[verifier::external_body]
fn one_allocation(a: &Rc<StrData>, b: &Rc<StrData>) -> (r: bool)
    ensures
        r ==> a == b,
{
    Rc::ptr_eq(a, b)
}

/// `Rc::strong_count`, of which nothing is promised: it depends on who else
/// holds the string at that moment.
#[verifier::external_body]
fn holders(a: &Rc<StrData>) -> usize {
    Rc::strong_count(a)
}

impl RStr {
    pub fn new(s: &str) -> (r: RStr)
        ensures
            r@ == s@,
    {
        let hash: u64 = hash::str_hash(s);
        let short: bool = s.as_bytes().len() <= INTERN_MAX;
        RStr(Rc::new(StrData { hash, short, s: s.to_owned() }))
    }

    pub fn as_str(&self) -> (r: &str)
        ensures
            r@ == self@,
    {
        self.0.s.as_str()
    }

    /// The hash of the bytes, computed when the string was made.
    pub fn hash_bits(&self) -> (r: u64)
        ensures
            r == hash::text_hash(vstd::utf8::encode_utf8(self@)),
    {
        proof {
            use_type_invariant(&*self.0);
        }
        self.0.hash
    }

    /// Are these two handles to one string? A cheap test before comparing
    /// bytes: yes means that the texts are equal. Short strings are interned,
    /// so of two of them no means that the texts differ. Two long strings with
    /// equal bytes are one only where one handle was made from the other,
    /// which their contents do not show.
    pub fn same(&self, other: &RStr) -> (r: bool)
        ensures
            r ==> self@ == other@,
            is_short(self@) || is_short(other@) ==> r == (self@ == other@),
    {
        proof {
            use_type_invariant(&*self.0);
            use_type_invariant(&*other.0);
        }
        if one_allocation(&self.0, &other.0) {
            return true;
        }
        self.0.short && other.0.short && self.0.hash == other.0.hash && self.0.s == other.0.s
    }

    /// Do these two hold the same text? The same allocation, then the same
    /// hash, and only then the bytes.
    pub fn equals(&self, other: &RStr) -> (r: bool)
        ensures
            r == (self@ == other@),
    {
        if self.same(other) {
            return true;
        }
        if self.hash_bits() != other.hash_bits() {
            return false;
        }
        self.0.s == other.0.s
    }
}

/// The smallest number of strings worth looking through for dead ones.
pub const SWEEP_MIN: usize = 512;

/// The entries of a table of strings that somebody else holds too, in order.
pub open spec fn kept_of<T>(entries: Seq<T>, holders: Seq<usize>) -> Seq<T>
    decreases entries.len(),
{
    if entries.len() == 0 {
        Seq::empty()
    } else if holders[entries.len() - 1] > 1 {
        kept_of(entries.drop_last(), holders).push(entries.last())
    } else {
        kept_of(entries.drop_last(), holders)
    }
}

/// How many strings the next sweep waits for, when this many are left.
pub open spec fn next_sweep(live: nat) -> nat {
    if 2 * live > usize::MAX {
        usize::MAX as nat
    } else if 2 * live > SWEEP_MIN {
        2 * live
    } else {
        SWEEP_MIN as nat
    }
}

fn sweep_after(n: usize) -> (r: usize)
    ensures
        r == next_sweep(n as nat),
{
    if n > usize::MAX / 2 {
        usize::MAX
    } else if n * 2 > SWEEP_MIN {
        n * 2
    } else {
        SWEEP_MIN
    }
}

/// What is kept was there before.
proof fn lemma_kept_was_there(ts: Seq<Seq<char>>, holders: Seq<usize>, t: Seq<char>)
    requires
        kept_of(ts, holders).contains(t),
    ensures
        ts.contains(t),
    decreases ts.len(),
{
    if ts.len() > 0 {
        let rest = kept_of(ts.drop_last(), holders);
        let k = choose|k: int|
            0 <= k < kept_of(ts, holders).len() && kept_of(ts, holders)[k] == t;
        if k < rest.len() {
            assert(rest[k] == t);
            lemma_kept_was_there(ts.drop_last(), holders, t);
            let j = choose|j: int| 0 <= j < ts.drop_last().len() && ts.drop_last()[j] == t;
            assert(ts[j] == t);
        } else {
            assert(ts[ts.len() - 1] == t);
        }
    }
}

/// What is kept is still held once each.
proof fn lemma_kept_once(ts: Seq<Seq<char>>, holders: Seq<usize>)
    requires
        ts.no_duplicates(),
    ensures
        kept_of(ts, holders).no_duplicates(),
    decreases ts.len(),
{
    if ts.len() > 0 {
        let front = ts.drop_last();
        assert(front.no_duplicates());
        lemma_kept_once(front, holders);
        let rest = kept_of(front, holders);
        if rest.contains(ts.last()) {
            lemma_kept_was_there(front, holders, ts.last());
            let j = choose|j: int| 0 <= j < front.len() && front[j] == ts.last();
            assert(ts[j] == ts[ts.len() - 1]);
        }
        assert forall|a: int, b: int|
            0 <= a < b < kept_of(ts, holders).len() implies #[trigger] kept_of(ts, holders)[a]
            != #[trigger] kept_of(ts, holders)[b] by {
            if b == rest.len() {
                assert(rest.contains(rest[a]));
            }
        }
    }
}

/// An entry somebody else holds stays.
pub proof fn lemma_held_stays(ts: Seq<Seq<char>>, holders: Seq<usize>, i: int)
    requires
        0 <= i < ts.len(),
        holders[i] > 1,
    ensures
        kept_of(ts, holders).contains(ts[i]),
    decreases ts.len(),
{
    if i < ts.len() - 1 {
        lemma_held_stays(ts.drop_last(), holders, i);
        let rest = kept_of(ts.drop_last(), holders);
        let k = choose|k: int| 0 <= k < rest.len() && rest[k] == ts[i];
        assert(kept_of(ts, holders)[k] == ts[i]);
    } else {
        assert(kept_of(ts, holders).last() == ts[i]);
    }
}

/// The strings of a number of handles.
pub open spec fn texts_of(rs: Seq<RStr>) -> Seq<Seq<char>> {
    Seq::new(rs.len(), |i: int| rs[i]@)
}

/// Interned strings. Entries are dropped once the interner is the only
/// holder, which is checked when the table has doubled since the last sweep.
pub struct Interner {
    entries: Vec<RStr>,
    sweep_at: usize,
}

/// The table after a text came in when it was full, and what nobody held left.
pub open spec fn swept_in(was: Interner, holders: Seq<usize>, t: Seq<char>, now: Interner) -> bool {
    &&& holders.len() == was.texts().len()
    &&& now.texts() == kept_of(was.texts(), holders).push(t)
    &&& now.limit() == next_sweep(now.texts().len())
}

impl Interner {
    /// The texts that are shared, in the order they were first seen.
    pub closed spec fn texts(&self) -> Seq<Seq<char>> {
        texts_of(self.entries@)
    }

    /// How many texts the next sweep waits for.
    pub closed spec fn limit(&self) -> nat {
        self.sweep_at as nat
    }

    /// No text is held twice.
    pub open spec fn wf(&self) -> bool {
        self.texts().no_duplicates()
    }

    pub fn new() -> (r: Interner)
        ensures
            r.wf(),
            r.texts().len() == 0,
            r.limit() == 0,
    {
        Interner { entries: Vec::new(), sweep_at: 0 }
    }

    /// How many handles there are to each entry. What this answers depends on
    /// who else holds the strings at that moment.
    fn counts(&self) -> (r: Vec<usize>)
        ensures
            r@.len() == self.texts().len(),
    {
        let mut out: Vec<usize> = Vec::new();
        let mut i: usize = 0;
        while i < self.entries.len()
            invariant
                i <= self.entries@.len(),
                out@.len() == i,
            decreases self.entries@.len() - i,
        {
            out.push(holders(&self.entries[i].0));
            i = i + 1;
        }
        out
    }

    /// The entries that stay, given how many handles there are to each.
    pub fn kept(&self, holders: &Vec<usize>) -> (r: Vec<RStr>)
        requires
            holders@.len() == self.texts().len(),
        ensures
            texts_of(r@) == kept_of(self.texts(), holders@),
    {
        let mut out: Vec<RStr> = Vec::new();
        let mut i: usize = 0;
        assert(texts_of(out@) =~= kept_of(self.texts().take(0), holders@));
        while i < self.entries.len()
            invariant
                i <= self.entries@.len(),
                holders@.len() == self.entries@.len(),
                texts_of(out@) == kept_of(self.texts().take(i as int), holders@),
            decreases self.entries@.len() - i,
        {
            let ghost before = out@;
            if holders[i] > 1 {
                out.push(self.entries[i].clone());
                assert(texts_of(out@) =~= texts_of(before).push(self.texts()[i as int]));
            }
            assert(self.texts().take(i as int + 1).drop_last() =~= self.texts().take(i as int));
            i = i + 1;
        }
        assert(self.texts().take(i as int) =~= self.texts());
        out
    }

    /// The place of a text among the entries.
    fn place(&self, s: &RStr) -> (r: Option<usize>)
        ensures
            match r {
                Some(i) => i < self.entries@.len() && self.texts()[i as int] == s@,
                None => !self.texts().contains(s@),
            },
    {
        let mut i: usize = 0;
        while i < self.entries.len()
            invariant
                i <= self.entries@.len(),
                forall|k: int| 0 <= k < i ==> #[trigger] self.texts()[k] != s@,
            decreases self.entries@.len() - i,
        {
            if self.entries[i].equals(s) {
                return Some(i);
            }
            i = i + 1;
        }
        None
    }

    /// A handle for this text: the one handed out before if it is still held,
    /// a fresh one otherwise. Where the table has filled up, the entries that
    /// nobody else holds leave it first.
    pub fn intern(&mut self, s: &str) -> (r: RStr)
        ensures
            r@ == s@,
            old(self).wf() ==> final(self).wf(),
            final(self).texts().contains(s@),
            old(self).texts().contains(s@) ==> *final(self) == *old(self),
            !old(self).texts().contains(s@) && old(self).texts().len() < old(self).limit()
                ==> final(self).texts() == old(self).texts().push(s@) && final(self).limit()
                == old(self).limit(),
            !old(self).texts().contains(s@) && old(self).texts().len() >= old(self).limit()
                ==> exists|holders: Seq<usize>| swept_in(*old(self), holders, s@, *final(self)),
    {
        let fresh = RStr::new(s);
        match self.place(&fresh) {
            Some(i) => {
                let shared = self.entries[i].clone();
                return shared;
            },
            None => {},
        }
        let full: bool = self.entries.len() >= self.sweep_at;
        let ghost mut counted: Seq<usize> = Seq::empty();
        if full {
            let holders = self.counts();
            proof {
                counted = holders@;
                if old(self).wf() {
                    lemma_kept_once(self.texts(), holders@);
                }
                if kept_of(self.texts(), holders@).contains(s@) {
                    lemma_kept_was_there(self.texts(), holders@, s@);
                }
            }
            self.entries = self.kept(&holders);
        }
        let ghost before = self.texts();
        let shared = fresh.clone();
        self.entries.push(shared);
        assert(self.texts() =~= before.push(s@));
        if full {
            self.sweep_at = sweep_after(self.entries.len());
            assert(swept_in(*old(self), counted, s@, *self));
        }
        assert(self.texts().last() == s@);
        fresh
    }

    /// Drop the strings nobody else holds, and wait for the rest to double
    /// before looking again.
    pub fn sweep(&mut self)
        ensures
            old(self).wf() ==> final(self).wf(),
            exists|holders: Seq<usize>|
                holders.len() == old(self).texts().len() && #[trigger] kept_of(
                    old(self).texts(),
                    holders,
                ) == final(self).texts(),
            final(self).limit() == next_sweep(final(self).texts().len()),
    {
        let holders = self.counts();
        let kept = self.kept(&holders);
        proof {
            if old(self).wf() {
                lemma_kept_once(self.texts(), holders@);
            }
        }
        self.entries = kept;
        assert(kept_of(old(self).texts(), holders@) == self.texts());
        self.sweep_at = sweep_after(self.entries.len());
    }
}

/// How far the JIT has got with a function.
#[derive(Clone, Copy, Debug, PartialEq, Eq, Structural)]
pub enum JitState {
    Cold,
    Compiled,
    /// Tried and cannot be compiled.
    Blocked,
}

/// The model of a value: what a script can tell apart.
pub enum Val {
    Nil,
    Bool(bool),
    Num(u64),
    Str(Seq<char>),
    Table(usize),
    Func(usize),
    Native(usize),
    Ptr(u64),
    Iter(usize),
    Cell(usize),
}

/// A value: what a register, an array element or a field holds.
pub enum Value {
    Nil,
    Bool(bool),
    /// A number, as the bits of its IEEE double.
    Num(u64),
    Str(RStr),
    /// A table, by its place in the heap.
    Table(usize),
    /// A rua function, by its place in the heap.
    Func(usize),
    /// A builtin, by the number the host knows it by.
    Native(usize),
    /// A raw C pointer.
    Ptr(u64),
    /// An iterator the machine made for a loop, by its place in the heap. A
    /// script sees a function.
    Iter(usize),
    /// A captured local, by its place in the heap. Never visible to scripts:
    /// it only ever sits in a frame slot that the resolver marked as captured.
    Cell(usize),
}

impl View for Value {
    type V = Val;

    open spec fn view(&self) -> Val {
        match self {
            Value::Nil => Val::Nil,
            Value::Bool(b) => Val::Bool(*b),
            Value::Num(n) => Val::Num(*n),
            Value::Str(s) => Val::Str(s@),
            Value::Table(i) => Val::Table(*i),
            Value::Func(i) => Val::Func(*i),
            Value::Native(i) => Val::Native(*i),
            Value::Ptr(p) => Val::Ptr(*p),
            Value::Iter(i) => Val::Iter(*i),
            Value::Cell(i) => Val::Cell(*i),
        }
    }
}

impl Clone for Value {
    fn clone(&self) -> (r: Value)
        ensures
            r == *self,
    {
        match self {
            Value::Nil => Value::Nil,
            Value::Bool(b) => Value::Bool(*b),
            Value::Num(n) => Value::Num(*n),
            Value::Str(s) => Value::Str(s.clone()),
            Value::Table(i) => Value::Table(*i),
            Value::Func(i) => Value::Func(*i),
            Value::Native(i) => Value::Native(*i),
            Value::Ptr(p) => Value::Ptr(*p),
            Value::Iter(i) => Value::Iter(*i),
            Value::Cell(i) => Value::Cell(*i),
        }
    }
}

/// The models of a run of values.
pub open spec fn vals(s: Seq<Value>) -> Seq<Val> {
    Seq::new(s.len(), |i: int| s[i]@)
}

/// `a == b`, where neither is a captured variable: numbers as numbers,
/// strings by their text, and anything with an identity by that.
pub open spec fn same_val(a: Val, b: Val) -> bool {
    match (a, b) {
        (Val::Num(x), Val::Num(y)) => num::equal(x, y),
        _ => a == b,
    }
}

/// Everything but `nil` and `false` is true.
pub open spec fn is_true(v: Val) -> bool {
    !(v is Nil) && v != Val::Bool(false)
}

/// The name of a value's type, as a script sees it.
pub open spec fn type_text(v: Val) -> Seq<char> {
    match v {
        Val::Nil => "nil"@,
        Val::Bool(_) => "boolean"@,
        Val::Num(_) => "number"@,
        Val::Str(_) => "string"@,
        Val::Table(_) => "table"@,
        Val::Func(_) | Val::Native(_) | Val::Iter(_) => "function"@,
        Val::Ptr(_) => "cdata"@,
        Val::Cell(_) => "cell"@,
    }
}

/// The number of a value's type.
pub open spec fn type_number(v: Val) -> nat {
    match v {
        Val::Nil => 0,
        Val::Bool(_) => 1,
        Val::Num(_) => 2,
        Val::Str(_) => 3,
        Val::Table(_) => 4,
        Val::Func(_) | Val::Native(_) | Val::Iter(_) => 5,
        Val::Ptr(_) => 6,
        Val::Cell(_) => 7,
    }
}

impl Value {
    /// A string value.
    pub fn str(s: &str) -> (r: Value)
        ensures
            r@ == Val::Str(s@),
    {
        Value::Str(RStr::new(s))
    }

    /// Overwrite a slot with a new value.
    pub fn put(slot: &mut Value, v: Value)
        ensures
            *final(slot) == v,
    {
        *slot = v;
    }

    pub fn truthy(&self) -> (r: bool)
        ensures
            r == is_true(self@),
    {
        match self {
            Value::Nil => false,
            Value::Bool(b) => *b,
            _ => true,
        }
    }

    pub fn is_nil(&self) -> (r: bool)
        ensures
            r == (self@ is Nil),
    {
        match self {
            Value::Nil => true,
            _ => false,
        }
    }

    /// The index of this value's type among the type names.
    pub fn type_index(&self) -> (r: usize)
        ensures
            r == type_number(self@),
    {
        match self {
            Value::Nil => 0,
            Value::Bool(_) => 1,
            Value::Num(_) => 2,
            Value::Str(_) => 3,
            Value::Table(_) => 4,
            Value::Func(_) => 5,
            Value::Native(_) => 5,
            Value::Iter(_) => 5,
            Value::Ptr(_) => 6,
            Value::Cell(_) => 7,
        }
    }

    pub fn type_label(&self) -> (r: &'static str)
        ensures
            r@ == type_text(self@),
    {
        match self {
            Value::Nil => "nil",
            Value::Bool(_) => "boolean",
            Value::Num(_) => "number",
            Value::Str(_) => "string",
            Value::Table(_) => "table",
            Value::Func(_) => "function",
            Value::Native(_) => "function",
            Value::Iter(_) => "function",
            Value::Ptr(_) => "cdata",
            Value::Cell(_) => "cell",
        }
    }

    /// `self == other`.
    pub fn equals(&self, other: &Value) -> (r: bool)
        ensures
            r == same_val(self@, other@),
    {
        match (self, other) {
            (Value::Nil, Value::Nil) => true,
            (Value::Bool(a), Value::Bool(b)) => *a == *b,
            (Value::Num(a), Value::Num(b)) => num::num_eq(*a, *b),
            (Value::Str(a), Value::Str(b)) => a.equals(b),
            (Value::Table(a), Value::Table(b)) => *a == *b,
            (Value::Func(a), Value::Func(b)) => *a == *b,
            (Value::Native(a), Value::Native(b)) => *a == *b,
            (Value::Ptr(a), Value::Ptr(b)) => *a == *b,
            (Value::Iter(a), Value::Iter(b)) => *a == *b,
            (Value::Cell(a), Value::Cell(b)) => *a == *b,
            _ => false,
        }
    }
}

/// The model of a table key.
pub enum KeyVal {
    Str(Seq<char>),
    Num(u64),
    Bool(bool),
    Ptr(u64),
    Obj(Val),
}

/// What a value is known by when it keys a table.
pub enum Key {
    Str(RStr),
    /// The bits of a number, so that equal bits are one key.
    Num(u64),
    Bool(bool),
    Ptr(u64),
    /// A table or a function, known by its identity.
    Obj(ObjKey),
}

/// A table or function as a table key.
pub struct ObjKey(pub Value);

impl View for Key {
    type V = KeyVal;

    open spec fn view(&self) -> KeyVal {
        match self {
            Key::Str(s) => KeyVal::Str(s@),
            Key::Num(b) => KeyVal::Num(*b),
            Key::Bool(b) => KeyVal::Bool(*b),
            Key::Ptr(p) => KeyVal::Ptr(*p),
            Key::Obj(o) => KeyVal::Obj(o.0@),
        }
    }
}

/// The key a value is; `nil` is none.
pub open spec fn key_of(v: Val) -> Option<KeyVal> {
    match v {
        Val::Nil => None,
        Val::Str(s) => Some(KeyVal::Str(s)),
        Val::Num(b) => Some(KeyVal::Num(b)),
        Val::Bool(b) => Some(KeyVal::Bool(b)),
        Val::Ptr(p) => Some(KeyVal::Ptr(p)),
        _ => Some(KeyVal::Obj(v)),
    }
}

/// The value a key is.
pub open spec fn val_of_key(k: KeyVal) -> Val {
    match k {
        KeyVal::Str(s) => Val::Str(s),
        KeyVal::Num(b) => Val::Num(b),
        KeyVal::Bool(b) => Val::Bool(b),
        KeyVal::Ptr(p) => Val::Ptr(p),
        KeyVal::Obj(v) => v,
    }
}

impl Clone for Key {
    fn clone(&self) -> (r: Key)
        ensures
            r@ == self@,
    {
        match self {
            Key::Str(s) => Key::Str(s.clone()),
            Key::Num(b) => Key::Num(*b),
            Key::Bool(b) => Key::Bool(*b),
            Key::Ptr(p) => Key::Ptr(*p),
            Key::Obj(o) => Key::Obj(ObjKey(o.0.clone())),
        }
    }
}

impl Key {
    /// The key a value is. Only `nil` is refused.
    pub fn from_value(v: &Value) -> (r: Result<Key, Error>)
        ensures
            match r {
                Ok(k) => key_of(v@) == Some(k@),
                Err(e) => v@ is Nil && plain_error(e, "table index is nil"@),
            },
    {
        match v {
            Value::Nil => err(text::owned("table index is nil")),
            Value::Str(s) => Ok(Key::Str(s.clone())),
            Value::Num(b) => Ok(Key::Num(*b)),
            Value::Bool(b) => Ok(Key::Bool(*b)),
            Value::Ptr(p) => Ok(Key::Ptr(*p)),
            _ => Ok(Key::Obj(ObjKey(v.clone()))),
        }
    }

    /// The value this key is.
    pub fn to_value(&self) -> (r: Value)
        ensures
            r@ == val_of_key(self@),
    {
        match self {
            Key::Str(s) => Value::Str(s.clone()),
            Key::Num(b) => Value::Num(*b),
            Key::Bool(b) => Value::Bool(*b),
            Key::Ptr(p) => Value::Ptr(*p),
            Key::Obj(o) => o.0.clone(),
        }
    }

    /// Is this the same key?
    pub fn equals(&self, other: &Key) -> (r: bool)
        ensures
            r == (self@ == other@),
    {
        match (self, other) {
            (Key::Str(a), Key::Str(b)) => a.equals(b),
            (Key::Num(a), Key::Num(b)) => *a == *b,
            (Key::Bool(a), Key::Bool(b)) => *a == *b,
            (Key::Ptr(a), Key::Ptr(b)) => *a == *b,
            (Key::Obj(a), Key::Obj(b)) => match (&a.0, &b.0) {
                (Value::Num(x), Value::Num(y)) => *x == *y,
                (x, y) => x.equals(y),
            },
            _ => false,
        }
    }
}

/// A value comes back from its key as the value it was.
pub proof fn lemma_key_round_trip(v: Val)
    requires
        !(v is Nil),
    ensures
        key_of(v) is Some,
        val_of_key(key_of(v)->Some_0) == v,
{
}

} // verus!
