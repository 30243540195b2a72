//! What instructions compute: operators, lookups and tables.
use super::calls::a_value;
use super::{Outcome, Request, Vm};
use crate::bytecode::{BinKind, Reg};
use crate::machine;
use crate::machine::{Mach, Need, Pending};
use crate::num;
use crate::text;
use crate::value;
use crate::value::{Key, RStr, Val, Value};
use vstd::prelude::*;

verus! {

/// What comes of asking for a number, a text or a value.
pub(super) enum Needs<T> {
    Is(T),
    Ask(Request),
    Bad(String),
}

pub(super) open spec fn need_num(n: Needs<u64>) -> Need<u64> {
    match n {
        Needs::Is(x) => Need::Is(x),
        Needs::Ask(q) => Need::Ask(super::request_view(q)),
        Needs::Bad(e) => Need::Bad(e@),
    }
}

pub(super) open spec fn need_text(n: Needs<String>) -> Need<Seq<char>> {
    match n {
        Needs::Is(x) => Need::Is(x@),
        Needs::Ask(q) => Need::Ask(super::request_view(q)),
        Needs::Bad(e) => Need::Bad(e@),
    }
}

pub(super) open spec fn need_val(n: Needs<Value>) -> Need<Val> {
    match n {
        Needs::Is(x) => Need::Is(x@),
        Needs::Ask(q) => Need::Ask(super::request_view(q)),
        Needs::Bad(e) => Need::Bad(e@),
    }
}

/// Is this a comparison?
fn is_comparison(kind: BinKind) -> (r: bool)
    ensures
        r == crate::bytecode::compares(kind),
{
    match kind {
        BinKind::Add | BinKind::Sub | BinKind::Mul | BinKind::Div | BinKind::Rem => false,
        _ => true,
    }
}

/// What a comparison says of two numbers.
fn relation(kind: BinKind, x: u64, y: u64) -> (r: bool)
    ensures
        r == crate::bytecode::compare_nums(kind, x, y),
{
    match kind {
        BinKind::Lt => num::num_lt(x, y),
        BinKind::Le => num::num_le(x, y),
        BinKind::Gt => num::num_lt(y, x),
        BinKind::Ge => num::num_le(y, x),
        BinKind::Eq => num::num_eq(x, y),
        BinKind::Ne => !num::num_eq(x, y),
        BinKind::NotLt => !num::num_lt(x, y),
        BinKind::NotLe => !num::num_le(x, y),
        BinKind::NotGt => !num::num_lt(y, x),
        BinKind::NotGe => !num::num_le(y, x),
        _ => false,
    }
}

/// An order of two texts.
fn text_order(kind: BinKind, a: &str, b: &str) -> (r: bool)
    ensures
        r == machine::text_order(kind, a@, b@),
{
    match kind {
        BinKind::Lt => text::comes_before(a, b),
        BinKind::Le => !text::comes_before(b, a),
        BinKind::Gt => text::comes_before(b, a),
        BinKind::NotLt => !text::comes_before(a, b),
        BinKind::NotLe => text::comes_before(b, a),
        BinKind::NotGt => !text::comes_before(b, a),
        BinKind::NotGe => text::comes_before(a, b),
        _ => !text::comes_before(a, b),
    }
}

/// A text that depends on which of two it is.
fn prefixed(prefix: &str, rest: &str) -> (r: String)
    ensures
        r@ == prefix@ + rest@,
{
    text::joined(prefix, rest)
}

impl Vm {
    /// A value as a number.
    pub(super) fn num_of(&self, v: &Value) -> (r: Needs<u64>)
        ensures
            need_num(r) == machine::num_of(self@, v@),
    {
        match v {
            Value::Num(n) => Needs::Is(*n),
            Value::Str(s) => {
                let mut i: usize = 0;
                while i < self.reads.len()
                    invariant
                        v@ == Val::Str(s@),
                        i <= self.reads@.len(),
                        machine::read_at(self@.reads, s@, i as nat) == machine::read_at(
                            self@.reads,
                            s@,
                            0,
                        ),
                    decreases self.reads@.len() - i,
                {
                    if self.reads[i].0.equals(s) {
                        return match self.reads[i].1 {
                            Some(n) => Needs::Is(n),
                            None => {
                                let mut e = text::owned("cannot convert ");
                                e.append(text::quote(s.as_str()).as_str());
                                e.append(" to a number");
                                Needs::Bad(e)
                            },
                        };
                    }
                    i = i + 1;
                }
                Needs::Ask(Request::Read { text: s.clone() })
            },
            _ => Needs::Bad(a_value("attempt to use a ", v, " as a number")),
        }
    }

    /// How a number is written.
    fn num_text(&self, b: u64) -> (r: Needs<String>)
        ensures
            need_text(r) == machine::num_text(self@, b),
    {
        match num::num_whole_text(b) {
            Some(s) => Needs::Is(s),
            None => {
                let mut i: usize = 0;
                while i < self.shows.len()
                    invariant
                        num::whole_text(b) is None,
                        i <= self.shows@.len(),
                        machine::show_at(self@.shows, b, i as nat) == machine::show_at(
                            self@.shows,
                            b,
                            0,
                        ),
                    decreases self.shows@.len() - i,
                {
                    if self.shows[i].0 == b {
                        return Needs::Is(text::owned(self.shows[i].1.as_str()));
                    }
                    i = i + 1;
                }
                Needs::Ask(Request::Show { bits: b })
            },
        }
    }

    /// How a value is written.
    pub(super) fn text_of(&self, v: &Value) -> (r: Needs<String>)
        ensures
            need_text(r) == machine::text_of(self@, v@),
    {
        match v {
            Value::Nil => Needs::Is(text::owned("nil")),
            Value::Bool(b) => Needs::Is(
                text::owned(
                    if *b {
                        "true"
                    } else {
                        "false"
                    },
                ),
            ),
            Value::Num(b) => self.num_text(*b),
            Value::Str(s) => Needs::Is(text::owned(s.as_str())),
            Value::Table(t) => {
                let mut out = text::owned("table: 0x");
                text::push_hex(&mut out, *t as u64);
                Needs::Is(out)
            },
            Value::Func(f) => {
                let out = if *f < self.funcs.len() {
                    prefixed("function: ", self.funcs[*f].proto.name.as_str())
                } else {
                    prefixed("function: ", "")
                };
                proof {
                    reveal_strlit("");
                    assert(""@ =~= Seq::<char>::empty());
                }
                Needs::Is(out)
            },
            Value::Native(n) => {
                let out = if *n < self.natives.len() {
                    prefixed("function: builtin ", self.natives[*n].as_str())
                } else {
                    prefixed("function: builtin ", "")
                };
                proof {
                    reveal_strlit("");
                    assert(""@ =~= Seq::<char>::empty());
                }
                Needs::Is(out)
            },
            Value::Ptr(p) => {
                let mut out = text::owned("cdata: 0x");
                text::push_hex(&mut out, *p);
                Needs::Is(out)
            },
            Value::Iter(i) => {
                let range: bool = *i < self.iters.len() && match &self.iters[*i] {
                    super::Iter::Range { .. } => true,
                    _ => false,
                };
                Needs::Is(
                    text::owned(
                        if range {
                            "function: builtin range"
                        } else {
                            "function: builtin values"
                        },
                    ),
                )
            },
            Value::Cell(_) => Needs::Is(text::owned("cell")),
        }
    }

    /// The texts of a run of values, one after the other.
    pub(super) fn all_text(&self, vals: &Vec<Value>) -> (r: Needs<String>)
        ensures
            need_text(r) == machine::all_text(self@, value::vals(vals@)),
    {
        let mut out = String::new();
        let mut i: usize = 0;
        let ghost all = value::vals(vals@);
        while i < vals.len()
            invariant
                i <= vals@.len(),
                all == value::vals(vals@),
                machine::all_text(self@, all.take(i as int)) == Need::Is(out@),
            decreases vals@.len() - i,
        {
            let t = self.text_of(&vals[i]);
            assert(all.take(i as int + 1).drop_last() =~= all.take(i as int));
            assert(all.take(i as int + 1).last() == vals@[i as int]@);
            match t {
                Needs::Is(s) => {
                    out.append(s.as_str());
                },
                other => {
                    proof {
                        lemma_text_stops(self@, all, i as int + 1);
                    }
                    return other;
                },
            }
            i = i + 1;
        }
        assert(all.take(all.len() as int) =~= all);
        Needs::Is(out)
    }

    /// The general form of a binary operator.
    fn arith(&self, kind: BinKind, l: &Value, r: &Value) -> (out: Needs<Value>)
        ensures
            need_val(out) == machine::arith(self@, kind, l@, r@),
    {
        match kind {
            BinKind::Eq => {
                return Needs::Is(Value::Bool(l.equals(r)));
            },
            BinKind::Ne => {
                return Needs::Is(Value::Bool(!l.equals(r)));
            },
            _ => {},
        }
        let texts: bool = match (l, r) {
            (Value::Str(a), Value::Str(b)) => {
                if is_comparison(kind) {
                    return Needs::Is(Value::Bool(text_order(kind, a.as_str(), b.as_str())));
                }
                true
            },
            (Value::Str(_), _) => true,
            (_, Value::Str(_)) => true,
            _ => false,
        };
        if texts && kind == BinKind::Add {
            let mut both: Vec<Value> = Vec::new();
            both.push(l.clone());
            both.push(r.clone());
            assert(value::vals(both@) =~= seq![l@, r@]);
            return match self.all_text(&both) {
                Needs::Is(s) => Needs::Is(Value::str(s.as_str())),
                Needs::Ask(q) => Needs::Ask(q),
                Needs::Bad(e) => Needs::Bad(e),
            };
        }
        match self.num_of(l) {
            Needs::Is(x) => match self.num_of(r) {
                Needs::Is(y) => {
                    if !is_comparison(kind) {
                        Needs::Ask(Request::Compute { kind, x, y })
                    } else if num::num_is_nan(x) || num::num_is_nan(y) {
                        Needs::Bad(text::owned("comparison with NaN"))
                    } else {
                        Needs::Is(Value::Bool(relation(kind, x, y)))
                    }
                },
                Needs::Ask(q) => Needs::Ask(q),
                Needs::Bad(e) => Needs::Bad(e),
            },
            Needs::Ask(q) => Needs::Ask(q),
            Needs::Bad(e) => Needs::Bad(e),
        }
    }

    /// A binary operator: two numbers, or the general form.
    pub(super) fn binary(&self, kind: BinKind, l: &Value, r: &Value) -> (out: Needs<Value>)
        ensures
            need_val(out) == machine::binary(self@, kind, l@, r@),
    {
        match (l, r) {
            (Value::Num(x), Value::Num(y)) => {
                if is_comparison(kind) {
                    Needs::Is(Value::Bool(relation(kind, *x, *y)))
                } else {
                    Needs::Ask(Request::Compute { kind, x: *x, y: *y })
                }
            },
            _ => self.arith(kind, l, r),
        }
    }

    /// Ask the host.
    pub(super) fn ask(&mut self, q: Request, number: Pending) -> (r: Outcome)
        requires
            machine::running(old(self)@),
            machine::goes_on(machine::cur(old(self)@), old(self)@.pc),
            machine::pending_ok(number, machine::cur(old(self)@), old(self)@.iters.len()),
        ensures
            (final(self)@, super::outcome_view(r)) == machine::ask(
                old(self)@,
                super::request_view(q),
                number,
            ),
            machine::wf(final(self)@),
    {
        let ghost was = self@;
        self.pending = match &q {
            Request::Compute { .. } => number,
            _ => Pending::Note,
        };
        assert(self@ =~= machine::ask(was, super::request_view(q), number).0);
        proof {
            super::calls::lemma_same_places(was, self@);
        }
        Outcome::Ask(q)
    }

    /// Put what comes of an operator in a register.
    pub(super) fn settle(&mut self, v: Needs<Value>, dst: Reg) -> (r: Outcome)
        requires
            machine::running(old(self)@),
            machine::goes_on(machine::cur(old(self)@), old(self)@.pc),
            dst < machine::cur(old(self)@).n_regs,
        ensures
            (final(self)@, super::outcome_view(r)) == machine::settle(old(self)@, need_val(v), dst),
            machine::wf(final(self)@),
    {
        match v {
            Needs::Is(x) => {
                self.put(dst, x);
                self.next();
                Outcome::Run
            },
            Needs::Ask(q) => self.ask(q, Pending::Sum { dst }),
            Needs::Bad(e) => self.bad(e),
        }
    }

    /// Jump unless what comes of a comparison is true.
    pub(super) fn branch(&mut self, v: Needs<Value>, to: u32) -> (r: Outcome)
        requires
            machine::running(old(self)@),
            machine::goes_on(machine::cur(old(self)@), old(self)@.pc),
            to < machine::cur(old(self)@).code.len(),
        ensures
            (final(self)@, super::outcome_view(r)) == machine::branch(old(self)@, need_val(v), to),
            machine::wf(final(self)@),
    {
        match v {
            Needs::Is(x) => {
                if x.truthy() {
                    self.next();
                } else {
                    self.go(to as usize);
                }
                Outcome::Run
            },
            Needs::Ask(q) => self.ask(q, Pending::Note),
            Needs::Bad(e) => self.bad(e),
        }
    }

    /// The member of a method table.
    fn lib_member(&self, lib: Option<usize>, name: &RStr) -> (r: Value)
        ensures
            r@ == machine::lib_member(self@, lib, name@),
    {
        match lib {
            Some(t) => {
                if t < self.tables.len() {
                    self.tables[t].get_field(name)
                } else {
                    Value::Nil
                }
            },
            None => Value::Nil,
        }
    }

    /// `o[k]`: a plain lookup.
    pub fn index(&self, o: &Value, k: &Value) -> (r: Result<Value, String>)
        ensures
            match r {
                Ok(v) => machine::index(self@, o@, k@) == Ok::<Val, Seq<char>>(v@),
                Err(e) => machine::index(self@, o@, k@) == Err::<Val, Seq<char>>(e@),
            },
    {
        match o {
            Value::Table(t) => match Key::from_value(k) {
                Err(e) => Err(e.message),
                Ok(key) => {
                    if *t < self.tables.len() {
                        Ok(self.tables[*t].get(&key))
                    } else {
                        Ok(Value::Nil)
                    }
                },
            },
            Value::Str(_) => match k {
                Value::Str(name) => Ok(self.lib_member(self.strings, name)),
                _ => Ok(Value::Nil),
            },
            Value::Num(_) => match k {
                Value::Str(name) => Ok(self.lib_member(self.maths, name)),
                _ => Ok(Value::Nil),
            },
            _ => Err(a_value("cannot index a ", o, " value")),
        }
    }

    /// A method of a type's own table.
    fn lib_method(&self, o: &Value, lib: Option<usize>, name: &RStr) -> (r: Result<Value, String>)
        ensures
            match r {
                Ok(v) => machine::lib_method(self@, o@, lib, name@) == Ok::<Val, Seq<char>>(v@),
                Err(e) => machine::lib_method(self@, o@, lib, name@) == Err::<Val, Seq<char>>(e@),
            },
    {
        let v = self.lib_member(lib, name);
        if v.is_nil() {
            let mut prefix = text::owned("no method `");
            prefix.append(name.as_str());
            prefix.append("` on a ");
            Err(a_value(prefix.as_str(), o, " value"))
        } else {
            Ok(v)
        }
    }

    /// `o.name(..)`: the receiver's own field first, then its type's table.
    pub fn method(&self, o: &Value, name: &RStr) -> (r: Result<Value, String>)
        ensures
            match r {
                Ok(v) => machine::method(self@, o@, name@) == Ok::<Val, Seq<char>>(v@),
                Err(e) => machine::method(self@, o@, name@) == Err::<Val, Seq<char>>(e@),
            },
    {
        match o {
            Value::Table(t) => {
                let own = self.lib_member(Some(*t), name);
                if own.is_nil() {
                    self.lib_method(o, self.lists, name)
                } else {
                    Ok(own)
                }
            },
            Value::Str(_) => self.lib_method(o, self.strings, name),
            Value::Num(_) => self.lib_method(o, self.maths, name),
            _ => {
                let mut suffix = text::owned(" value has no method `");
                suffix.append(name.as_str());
                suffix.append("`");
                Err(a_value("a ", o, suffix.as_str()))
            },
        }
    }
}

/// A text that cannot be told yet stops a run of texts there.
proof fn lemma_text_stops(m: Mach, all: Seq<Val>, i: int)
    requires
        0 <= i <= all.len(),
        !(machine::all_text(m, all.take(i)) is Is),
    ensures
        machine::all_text(m, all) == machine::all_text(m, all.take(i)),
    decreases all.len() - i,
{
    if i < all.len() {
        assert(all.take(i + 1).drop_last() =~= all.take(i));
        lemma_text_stops(m, all, i + 1);
    } else {
        assert(all.take(i) =~= all);
    }
}

} // verus!
