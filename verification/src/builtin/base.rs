//! The globals every script has.
use super::strings;
use crate::table::Table;
use crate::text;
use crate::value;
use crate::value::{Error, Val, Value};
use crate::vm;
use vstd::prelude::*;

verus! {

pub open spec fn argument(args: Seq<Val>, i: int) -> Val {
    if 0 <= i < args.len() {
        args[i]
    } else {
        Val::Nil
    }
}

/// An argument, or nil where there are not so many.
pub fn arg(args: &Vec<Value>, i: usize) -> (r: Value)
    ensures
        r@ == argument(value::vals(args@), i as int),
{
    if i < args.len() {
        args[i].clone()
    } else {
        Value::Nil
    }
}

/// The table an argument is.
pub fn table_arg(args: &Vec<Value>, i: usize) -> (r: Result<usize, Error>)
    ensures
        match r {
            Ok(t) => argument(value::vals(args@), i as int) == Val::Table(t),
            Err(e) => !(argument(value::vals(args@), i as int) is Table) && value::plain_error(
                e,
                "expected a table, got "@ + value::type_text(argument(value::vals(args@), i as int)),
            ),
        },
{
    let v = arg(args, i);
    match v {
        Value::Table(t) => Ok(t),
        _ => {
            let mut m = text::owned("expected a table, got ");
            m.append(v.type_label());
            value::err(m)
        },
    }
}

/// `assert(what, message)`: everything it was given if the first is true, and
/// what to say if not, where something was given to say.
pub fn assert_args(args: &Vec<Value>) -> (r: Result<Vec<Value>, Option<Value>>)
    ensures
        match r {
            Ok(vs) => value::is_true(argument(value::vals(args@), 0)) && value::vals(vs@)
                == value::vals(args@),
            Err(m) => !value::is_true(argument(value::vals(args@), 0)) && match m {
                Some(v) => args@.len() > 1 && v@ == args@[1]@,
                None => args@.len() <= 1,
            },
        },
{
    if arg(args, 0).truthy() {
        let mut out: Vec<Value> = Vec::new();
        let mut i: usize = 0;
        while i < args.len()
            invariant
                i <= args@.len(),
                out@.len() == i,
                forall|k: int| 0 <= k < i ==> (#[trigger] out@[k])@ == args@[k]@,
            decreases args@.len() - i,
        {
            out.push(args[i].clone());
            i = i + 1;
        }
        assert(value::vals(out@) =~= value::vals(args@));
        Ok(out)
    } else if args.len() > 1 {
        Err(Some(args[1].clone()))
    } else {
        Err(None)
    }
}

/// What `try` gives: true and what the function gave, or false and why not.
pub open spec fn tried(ok: bool, vals: Seq<Val>, why: Seq<char>) -> Seq<Val> {
    if ok {
        seq![Val::Bool(true)] + vals
    } else {
        seq![Val::Bool(false), Val::Str(why)]
    }
}

pub fn try_result(r: Result<Vec<Value>, Error>) -> (out: Vec<Value>)
    ensures
        value::vals(out@) == match r {
            Ok(vs) => tried(true, value::vals(vs@), Seq::empty()),
            Err(e) => tried(false, Seq::empty(), value::error_text(e)),
        },
{
    let mut out: Vec<Value> = Vec::new();
    match r {
        Ok(vs) => {
            out.push(Value::Bool(true));
            let mut i: usize = 0;
            assert(value::vals(out@) =~= seq![Val::Bool(true)] + value::vals(vs@).take(0));
            while i < vs.len()
                invariant
                    i <= vs@.len(),
                    value::vals(out@) == seq![Val::Bool(true)] + value::vals(vs@).take(i as int),
                decreases vs@.len() - i,
            {
                let ghost before = value::vals(out@);
                out.push(vs[i].clone());
                assert(value::vals(out@) =~= before.push(vs@[i as int]@));
                assert(value::vals(out@) =~= seq![Val::Bool(true)] + value::vals(vs@).take(
                    i as int + 1,
                ));
                i = i + 1;
            }
            assert(value::vals(vs@).take(vs@.len() as int) =~= value::vals(vs@));
        },
        Err(e) => {
            out.push(Value::Bool(false));
            let why = e.text();
            out.push(Value::str(why.as_str()));
            assert(value::vals(out@) =~= tried(false, Seq::empty(), value::error_text(e)));
        },
    }
    out
}

/// How long a table or a string is.
pub fn length(v: &Value, heap: &Vec<Table>) -> (r: Result<usize, Error>)
    requires
        v@ matches Val::Table(t) ==> t < heap@.len(),
    ensures
        match v@ {
            Val::Table(t) => r matches Ok(n) && n == vm::table_views(heap@)[t as int].arr.len(),
            Val::Str(s) => r matches Ok(n) && n == vstd::utf8::encode_utf8(s).len(),
            _ => r matches Err(e) && value::plain_error(
                e,
                "len: unexpected "@ + value::type_text(v@),
            ),
        },
{
    match v {
        Value::Table(t) => Ok(heap[*t].len()),
        Value::Str(s) => Ok(strings::byte_len(s.as_str())),
        _ => {
            let mut m = text::owned("len: unexpected ");
            m.append(v.type_label());
            value::err(m)
        },
    }
}

} // verus!
