//! The Rust that is written down, read back: what a reader of the text makes of it is
//! worth what the lowered code is worth.
use super::emit;
use super::ir::{
    Cond, Ir, IrArgs, IrBlock, IrElse, IrIf, IrList, IrSlots, IrStat, IrStats, IrTail, IrValues, MathFn,
};
use super::meaning;
use super::meaning::{Ends, Sums};
use crate::ast::BinOp;
use crate::text;
use vstd::prelude::*;

verus! {

// ---- letters and numbers -------------------------------------------------------------------

/// What follows some text, where that comes first.
pub open spec fn past(lit: Seq<char>, s: Seq<char>) -> Option<Seq<char>> {
    if s.len() >= lit.len() && s.take(lit.len() as int) == lit {
        Some(s.skip(lit.len() as int))
    } else {
        None
    }
}

proof fn lemma_past(lit: Seq<char>, rest: Seq<char>)
    ensures
        past(lit, lit + rest) == Some(rest),
{
    assert((lit + rest).take(lit.len() as int) =~= lit);
    assert((lit + rest).skip(lit.len() as int) =~= rest);
}

pub open spec fn is_digit(c: char) -> bool {
    '0' <= c && c <= '9'
}

/// How many digits come first.
pub open spec fn digits(s: Seq<char>) -> nat
    decreases s.len(),
{
    if s.len() > 0 && is_digit(s[0]) {
        1 + digits(s.drop_first())
    } else {
        0
    }
}

/// The number some digits write.
pub open spec fn number(ds: Seq<char>) -> nat
    decreases ds.len(),
{
    if ds.len() == 0 {
        0
    } else {
        (10 * number(ds.drop_last()) + (ds.last() as int - '0' as int)) as nat
    }
}

/// A number, and what follows it.
pub open spec fn read_number(s: Seq<char>) -> Option<(nat, Seq<char>)> {
    if digits(s) == 0 {
        None
    } else {
        Some((number(s.take(digits(s) as int)), s.skip(digits(s) as int)))
    }
}

proof fn lemma_decimal(n: nat)
    ensures
        number(text::decimal(n)) == n,
        text::decimal(n).len() > 0,
        forall|i: int| 0 <= i < text::decimal(n).len() ==> is_digit(#[trigger] text::decimal(n)[i]),
    decreases n,
{
    if n >= 10 {
        lemma_decimal(n / 10);
        let d = text::decimal(n / 10);
        assert(text::decimal(n).drop_last() =~= d);
    } else {
        assert(text::decimal(n).drop_last() =~= Seq::empty());
        assert(number(Seq::empty()) == 0);
    }
}

proof fn lemma_digits(ds: Seq<char>, rest: Seq<char>)
    requires
        forall|i: int| 0 <= i < ds.len() ==> is_digit(#[trigger] ds[i]),
        rest.len() > 0 ==> !is_digit(rest[0]),
    ensures
        digits(ds + rest) == ds.len(),
    decreases ds.len(),
{
    let s = ds + rest;
    if ds.len() > 0 {
        assert(s[0] == ds[0]);
        assert(s.drop_first() =~= ds.drop_first() + rest);
        lemma_digits(ds.drop_first(), rest);
    }
}

proof fn lemma_read_number(n: nat, rest: Seq<char>)
    requires
        rest.len() > 0,
        !is_digit(rest[0]),
    ensures
        read_number(text::decimal(n) + rest) == Some((n, rest)),
        (text::decimal(n) + rest).len() > 0,
        is_digit((text::decimal(n) + rest)[0]),
{
    lemma_decimal(n);
    let ds = text::decimal(n);
    lemma_digits(ds, rest);
    assert((ds + rest).take(ds.len() as int) =~= ds);
    assert((ds + rest).skip(ds.len() as int) =~= rest);
    assert((ds + rest)[0] == ds[0]);
}

/// The word before the next opening bracket.
pub open spec fn word(s: Seq<char>) -> nat
    decreases s.len(),
{
    if s.len() > 0 && s[0] != '(' {
        1 + word(s.drop_first())
    } else {
        0
    }
}

proof fn lemma_word(w: Seq<char>, rest: Seq<char>)
    requires
        forall|i: int| 0 <= i < w.len() ==> #[trigger] w[i] != '(',
        rest.len() > 0,
        rest[0] == '(',
    ensures
        word(w + rest) == w.len(),
    decreases w.len(),
{
    let s = w + rest;
    if w.len() > 0 {
        assert(s[0] == w[0]);
        assert(s.drop_first() =~= w.drop_first() + rest);
        lemma_word(w.drop_first(), rest);
    }
}

// ---- the words of Rust ---------------------------------------------------------------------

/// An operator between two operands: what Rust computes there.
pub open spec fn infix(s: Seq<char>) -> Option<(BinOp, Seq<char>)> {
    if s.len() < 4 || s[0] != ' ' {
        None
    } else if s[1] == '+' && s[2] == ' ' {
        Some((BinOp::Add, s.skip(3)))
    } else if s[1] == '-' && s[2] == ' ' {
        Some((BinOp::Sub, s.skip(3)))
    } else if s[1] == '*' && s[2] == ' ' {
        Some((BinOp::Mul, s.skip(3)))
    } else if s[1] == '/' && s[2] == ' ' {
        Some((BinOp::Div, s.skip(3)))
    } else if s[1] == '<' && s[2] == ' ' {
        Some((BinOp::Lt, s.skip(3)))
    } else if s[1] == '>' && s[2] == ' ' {
        Some((BinOp::Gt, s.skip(3)))
    } else if s[3] != ' ' {
        None
    } else if s[1] == '<' && s[2] == '=' {
        Some((BinOp::Le, s.skip(4)))
    } else if s[1] == '>' && s[2] == '=' {
        Some((BinOp::Ge, s.skip(4)))
    } else if s[1] == '=' && s[2] == '=' {
        Some((BinOp::Eq, s.skip(4)))
    } else if s[1] == '!' && s[2] == '=' {
        Some((BinOp::Ne, s.skip(4)))
    } else if s[1] == '&' && s[2] == '&' {
        Some((BinOp::And, s.skip(4)))
    } else if s[1] == '|' && s[2] == '|' {
        Some((BinOp::Or, s.skip(4)))
    } else {
        None
    }
}

/// An operator that updates what is on its left.
pub open spec fn update(s: Seq<char>) -> Option<(BinOp, Seq<char>)> {
    if s.len() < 4 || s[0] != ' ' || s[2] != '=' || s[3] != ' ' {
        None
    } else if s[1] == '+' {
        Some((BinOp::Add, s.skip(4)))
    } else if s[1] == '-' {
        Some((BinOp::Sub, s.skip(4)))
    } else if s[1] == '*' {
        Some((BinOp::Mul, s.skip(4)))
    } else if s[1] == '/' {
        Some((BinOp::Div, s.skip(4)))
    } else {
        None
    }
}

/// A method of `f64`: the function of numbers it computes.
pub open spec fn method(name: Seq<char>) -> Option<MathFn> {
    if name == "floor"@ {
        Some(MathFn::Floor)
    } else if name == "ceil"@ {
        Some(MathFn::Ceil)
    } else if name == "abs"@ {
        Some(MathFn::Abs)
    } else if name == "sqrt"@ {
        Some(MathFn::Sqrt)
    } else if name == "sin"@ {
        Some(MathFn::Sin)
    } else if name == "cos"@ {
        Some(MathFn::Cos)
    } else if name == "tan"@ {
        Some(MathFn::Tan)
    } else if name == "exp"@ {
        Some(MathFn::Exp)
    } else if name == "ln"@ {
        Some(MathFn::Ln)
    } else if name == "round"@ {
        Some(MathFn::Round)
    } else if name == "max"@ {
        Some(MathFn::Max)
    } else if name == "min"@ {
        Some(MathFn::Min)
    } else if name == "powf"@ {
        Some(MathFn::Powf)
    } else {
        None
    }
}

pub open spec fn is_arithmetic(op: BinOp) -> bool {
    op == BinOp::Add || op == BinOp::Sub || op == BinOp::Mul || op == BinOp::Div
}

pub open spec fn is_comparison(op: BinOp) -> bool {
    op == BinOp::Eq || op == BinOp::Ne || op == BinOp::Lt || op == BinOp::Le || op == BinOp::Gt || op
        == BinOp::Ge
}

// ---- the reader ----------------------------------------------------------------------------

/// What stands around an expression: what the function itself is called, and what is
/// done where a call fails.
pub ghost struct Words {
    pub symbol: Seq<char>,
    pub trap: Seq<char>,
}

/// What an expression is: a number or a boolean.
pub enum Term {
    Num(Ir),
    Truth(Cond),
}

/// An expression, and what follows it.
pub open spec fn read(w: Words, k: nat, s: Seq<char>) -> Option<(Term, Seq<char>)>
    decreases k, 2int,
{
    if k == 0 || s.len() < 2 {
        None
    } else if s[0] == 'v' {
        match read_number(s.skip(1)) {
            Some((slot, r)) => Some((Term::Num(Ir::Local(slot as u16)), r)),
            None => None,
        }
    } else if s[0] == 't' {
        match past("true"@, s) {
            Some(r) => Some((Term::Truth(Cond::Lit(true)), r)),
            None => None,
        }
    } else if s[0] == 'f' && s[1] == 'a' {
        match past("false"@, s) {
            Some(r) => Some((Term::Truth(Cond::Lit(false)), r)),
            None => None,
        }
    } else if s[0] == 'f' {
        match past("f64::from_bits("@, s) {
            Some(r) => match read_number(r) {
                Some((b, r1)) => match past("u64)"@, r1) {
                    Some(r2) => Some((Term::Num(Ir::Num(b as u64)), r2)),
                    None => None,
                },
                None => None,
            },
            None => None,
        }
    } else if s[0] == 'r' {
        match past("rua_rem("@, s) {
            Some(r) => match read(w, (k - 1) as nat, r) {
                Some((Term::Num(a), r1)) => match past(", "@, r1) {
                    Some(r2) => match read(w, (k - 1) as nat, r2) {
                        Some((Term::Num(b), r3)) => match past(")"@, r3) {
                            Some(r4) => Some(
                                (
                                    Term::Num(Ir::Bin(BinOp::Rem, Box::new(a), Box::new(b))),
                                    r4,
                                ),
                            ),
                            None => None,
                        },
                        _ => None,
                    },
                    None => None,
                },
                _ => None,
            },
            None => None,
        }
    } else if s[0] == '{' {
        match (past("{ let __args = ["@, s), past("{ let __c = "@, s)) {
            (Some(r), _) => read_call(w, (k - 1) as nat, r),
            (None, Some(_)) => read_through(w, (k - 1) as nat, s),
            _ => match read_block(w, k, s) {
                Some((b, r)) => Some((Term::Num(Ir::Block(Box::new(b))), r)),
                None => None,
            },
        }
    } else if s[0] == 'i' {
        match read_if(w, k, s) {
            Some((i, r)) => Some((Term::Num(Ir::If(Box::new(i))), r)),
            None => None,
        }
    } else if s[0] != '(' {
        None
    } else if s[1] == '-' {
        match past("(-("@, s) {
            Some(r) => match read(w, (k - 1) as nat, r) {
                Some((Term::Num(a), r1)) => match past("))"@, r1) {
                    Some(r2) => Some((Term::Num(Ir::Neg(Box::new(a))), r2)),
                    None => None,
                },
                _ => None,
            },
            None => None,
        }
    } else if s[1] == '!' {
        match read(w, (k - 1) as nat, s.skip(2)) {
            Some((Term::Truth(a), r1)) => match past(")"@, r1) {
                Some(r2) => Some((Term::Truth(Cond::Not(Box::new(a))), r2)),
                None => None,
            },
            _ => None,
        }
    } else {
        match read(w, (k - 1) as nat, s.skip(1)) {
            Some((a, r1)) => read_after(w, (k - 1) as nat, a, r1),
            None => None,
        }
    }
}

/// What is in brackets, from behind its first operand: a method call, or an operator.
pub open spec fn read_after(w: Words, k: nat, a: Term, s: Seq<char>) -> Option<(Term, Seq<char>)>
    decreases k, 3int,
{
    match past(")."@, s) {
        Some(r) => {
            let len = word(r);
            match (a, method(r.take(len as int)), past("("@, r.skip(len as int))) {
                (Term::Num(x), Some(f), Some(r1)) => match read_list(w, k, r1) {
                    Some((l, r2)) => Some(
                        (Term::Num(Ir::Math(f, Box::new(x), Box::new(l))), r2),
                    ),
                    None => None,
                },
                _ => None,
            }
        },
        None => match (infix(s), a) {
            (Some((op, r)), Term::Num(x)) => if op == BinOp::Ne && past("0.0)"@, r) is Some {
                match x {
                    Ir::Local(slot) => Some((Term::Truth(Cond::Flag(slot)), past("0.0)"@, r)->Some_0)),
                    _ => None,
                }
            } else {
                match read(w, k, r) {
                    Some((Term::Num(y), r1)) => match past(")"@, r1) {
                        Some(r2) => if is_arithmetic(op) {
                            Some((Term::Num(Ir::Bin(op, Box::new(x), Box::new(y))), r2))
                        } else if is_comparison(op) {
                            Some((Term::Truth(Cond::Compare(op, Box::new(x), Box::new(y))), r2))
                        } else {
                            None
                        },
                        None => None,
                    },
                    _ => None,
                }
            },
            (Some((op, r)), Term::Truth(x)) => match read(w, k, r) {
                Some((Term::Truth(y), r1)) => match past(")"@, r1) {
                    Some(r2) => if op == BinOp::And {
                        Some((Term::Truth(Cond::And(Box::new(x), Box::new(y))), r2))
                    } else if op == BinOp::Or {
                        Some((Term::Truth(Cond::Or(Box::new(x), Box::new(y))), r2))
                    } else {
                        None
                    },
                    None => None,
                },
                _ => None,
            },
            _ => None,
        },
    }
}

/// The arguments of a method, up to the closing bracket.
pub open spec fn read_list(w: Words, k: nat, s: Seq<char>) -> Option<(IrList, Seq<char>)>
    decreases k, 2int,
{
    if k == 0 || s.len() == 0 {
        None
    } else if s[0] == ')' {
        Some((IrList::End, s.skip(1)))
    } else {
        match read(w, (k - 1) as nat, s) {
            Some((Term::Num(a), r)) => match past(", "@, r) {
                Some(r1) => match read_list(w, (k - 1) as nat, r1) {
                    Some((rest, r2)) => Some((IrList::Item(Box::new(a), Box::new(rest)), r2)),
                    None => None,
                },
                None => None,
            },
            _ => None,
        }
    }
}

/// The rest of a call, once it has been made: it leaves where the call failed, and is
/// worth what the call gave where it did not.
pub open spec fn call_tail(w: Words) -> Seq<char> {
    "(__args.as_ptr(), rt, ok, std::ptr::null_mut()) }; if unsafe { *ok } == 0 { "@ + (w.trap + " } __r }"@)
}

/// The rest of a call that goes through the runtime.
pub open spec fn through_tail(w: Words) -> Seq<char> {
    "]; let __r = unsafe { __f(__args.as_ptr(), __c.ctx, ok, std::ptr::null_mut()) }; if unsafe { *ok } == 0 { "@ + (w.trap + " } __r }"@)
}

/// A call of the function itself, or of one compiled beside it.
pub open spec fn read_call(w: Words, k: nat, s: Seq<char>) -> Option<(Term, Seq<char>)>
    decreases k, 3int,
{
    match read_args(w, k, s) {
        Some((args, r)) => match past("]; let __r = unsafe { "@, r) {
            Some(r1) => match past("rua_inl_"@, r1) {
                Some(r2) => match read_number(r2) {
                    Some((id, r3)) => match past(call_tail(w), r3) {
                        Some(r4) => Some(
                            (Term::Num(Ir::CallBeside(id as usize, Box::new(args))), r4),
                        ),
                        None => None,
                    },
                    None => None,
                },
                None => match past(w.symbol, r1) {
                    Some(r2) => match past(call_tail(w), r2) {
                        Some(r3) => Some((Term::Num(Ir::CallSelf(Box::new(args))), r3)),
                        None => None,
                    },
                    None => None,
                },
            },
            None => None,
        },
        None => None,
    }
}

/// A call of what the runtime keeps at a place.
pub open spec fn read_through(w: Words, k: nat, s: Seq<char>) -> Option<(Term, Seq<char>)>
    decreases k, 3int,
{
    match past("{ let __c = unsafe { *(*rt).callees.add("@, s) {
        Some(r) => match read_number(r) {
            Some((at, r1)) => match past(
                "usize) }; let __f: unsafe extern \"C\" fn(*const RtArg, *const RtCtx, *mut i32, *mut *mut c_void) -> f64 = unsafe { std::mem::transmute(__c.entry as *const ()) }; let __args = ["@,
                r1,
            ) {
                Some(r2) => match read_args(w, k, r2) {
                    Some((args, r3)) => match past(through_tail(w), r3) {
                        Some(r4) => Some(
                            (Term::Num(Ir::CallThrough(at as usize, Box::new(args))), r4),
                        ),
                        None => None,
                    },
                    None => None,
                },
                None => None,
            },
            None => None,
        },
        None => None,
    }
}

/// The arguments of a call, up to the bracket that closes them.
pub open spec fn read_args(w: Words, k: nat, s: Seq<char>) -> Option<(IrArgs, Seq<char>)>
    decreases k, 2int,
{
    if k == 0 || s.len() == 0 {
        None
    } else if s[0] == ']' {
        Some((IrArgs::End, s))
    } else {
        match past("RtArg { num: 0.0, table: v"@, s) {
            Some(r) => match read_number(r) {
                Some((slot, r1)) => match past(" }, "@, r1) {
                    Some(r2) => match read_args(w, (k - 1) as nat, r2) {
                        Some((rest, r3)) => Some(
                            (IrArgs::Table(slot as u16, Box::new(rest)), r3),
                        ),
                        None => None,
                    },
                    None => None,
                },
                None => None,
            },
            None => match past("RtArg { num: "@, s) {
                Some(r) => match read(w, (k - 1) as nat, r) {
                    Some((Term::Num(a), r1)) => match past(
                        ", table: std::ptr::null_mut() }, "@,
                        r1,
                    ) {
                        Some(r2) => match read_args(w, (k - 1) as nat, r2) {
                            Some((rest, r3)) => Some(
                                (IrArgs::Num(Box::new(a), Box::new(rest)), r3),
                            ),
                            None => None,
                        },
                        None => None,
                    },
                    _ => None,
                },
                None => None,
            },
        }
    }
}

/// A block.
pub open spec fn read_block(w: Words, k: nat, s: Seq<char>) -> Option<(IrBlock, Seq<char>)>
    decreases k, 1int,
{
    if k == 0 {
        None
    } else {
        match past("{ "@, s) {
            Some(r) => read_body(w, (k - 1) as nat, r),
            None => None,
        }
    }
}

/// A choice.
pub open spec fn read_if(w: Words, k: nat, s: Seq<char>) -> Option<(IrIf, Seq<char>)>
    decreases k, 1int,
{
    if k == 0 {
        None
    } else {
        match past("if "@, s) {
            Some(r) => match read(w, (k - 1) as nat, r) {
                Some((Term::Truth(cond), r1)) => match past(" "@, r1) {
                    Some(r2) => match read_block(w, (k - 1) as nat, r2) {
                        Some((body, r3)) => match past(" else "@, r3) {
                            Some(r4) => if r4.len() > 0 && r4[0] == 'i' {
                                match read_if(w, (k - 1) as nat, r4) {
                                    Some((i, r5)) => Some(
                                        (
                                            IrIf { cond, body, rest: IrElse::If(Box::new(i)) },
                                            r5,
                                        ),
                                    ),
                                    None => None,
                                }
                            } else {
                                match read_block(w, (k - 1) as nat, r4) {
                                    Some((b, r5)) => Some(
                                        (
                                            IrIf { cond, body, rest: IrElse::Block(Box::new(b)) },
                                            r5,
                                        ),
                                    ),
                                    None => None,
                                }
                            },
                            None => Some((IrIf { cond, body, rest: IrElse::Nothing }, r3)),
                        },
                        None => None,
                    },
                    None => None,
                },
                _ => None,
            },
            None => None,
        }
    }
}

/// Does an expression come next, rather than a statement?
pub open spec fn starts_value(s: Seq<char>) -> bool {
    s.len() > 2 && (s[0] == 'f' || s[0] == '(' || s[0] == 'i' || (s[0] == 'r' && s[1] == 'u') || (
    s[0] == '{' && past("{ let __end"@, s) is None) || (s[0] == 'v' && match read_number(
        s.skip(1),
    ) {
        Some((_, r)) => past(" }"@, r) is Some,
        None => false,
    }))
}

/// What an expression for its own sake is as a statement.
pub open spec fn as_stat(x: Ir) -> Option<IrStat> {
    match x {
        Ir::Block(b) => Some(IrStat::Block(*b)),
        Ir::If(i) => Some(IrStat::If(*i)),
        _ => None,
    }
}

/// The statements of a block and its value, up to the closing brace.
pub open spec fn read_body(w: Words, k: nat, s: Seq<char>) -> Option<(IrBlock, Seq<char>)>
    decreases k, 2int,
{
    if k == 0 || s.len() < 2 {
        None
    } else {
        match past(" }"@, s) {
            Some(r) => Some((IrBlock { stats: IrStats::End, tail: IrTail::Nothing }, r)),
            None => if s[0] == ' ' {
                with_first(IrStat::Skip, read_body(w, (k - 1) as nat, s.skip(1)))
            } else if starts_value(s) {
                match read(w, (k - 1) as nat, s) {
                    Some((Term::Num(x), r)) => match past(" }"@, r) {
                        Some(r1) => Some(
                            (
                                IrBlock {
                                    stats: IrStats::End,
                                    tail: IrTail::Value(Box::new(x)),
                                },
                                r1,
                            ),
                        ),
                        None => match (as_stat(x), past(" "@, r)) {
                            (Some(st), Some(r1)) => with_first(st, read_body(w, (k - 1) as nat, r1)),
                            _ => None,
                        },
                    },
                    _ => None,
                }
            } else {
                match read_stat(w, (k - 1) as nat, s) {
                    Some((st, r)) => match past(" }"@, r) {
                        Some(r1) => Some(
                            (
                                IrBlock {
                                    stats: IrStats::End,
                                    tail: IrTail::Unit(Box::new(st)),
                                },
                                r1,
                            ),
                        ),
                        None => match past(" "@, r) {
                            Some(r1) => with_first(st, read_body(w, (k - 1) as nat, r1)),
                            None => None,
                        },
                    },
                    None => None,
                }
            },
        }
    }
}

pub open spec fn with_first(st: IrStat, rest: Option<(IrBlock, Seq<char>)>) -> Option<(IrBlock, Seq<char>)> {
    match rest {
        Some((b, r)) => Some(
            (
                IrBlock { stats: IrStats::Then(Box::new(st), Box::new(b.stats)), tail: b.tail },
                r,
            ),
        ),
        None => None,
    }
}

/// The values that several names are given, each in a local of its own: `i` of them
/// have been read.
pub open spec fn read_values(w: Words, k: nat, head: Seq<char>, i: nat, s: Seq<char>) -> Option<
    (IrValues, nat, Seq<char>),
>
    decreases k, 2int,
{
    if k == 0 {
        None
    } else {
        match past(head + text::decimal(i) + ": f64 = "@, s) {
            None => Some((IrValues::End, i, s)),
            Some(r) => match past("rua_bool("@, r) {
                Some(r1) => match read(w, (k - 1) as nat, r1) {
                    Some((Term::Truth(c), r2)) => match past("); "@, r2) {
                        Some(r3) => match read_values(w, (k - 1) as nat, head, i + 1, r3) {
                            Some((vs, n, r4)) => Some(
                                (IrValues::Flag(Box::new(c), Box::new(vs)), n, r4),
                            ),
                            None => None,
                        },
                        None => None,
                    },
                    _ => None,
                },
                None => match read(w, (k - 1) as nat, r) {
                    Some((Term::Num(x), r2)) => match past("; "@, r2) {
                        Some(r3) => match read_values(w, (k - 1) as nat, head, i + 1, r3) {
                            Some((vs, n, r4)) => Some(
                                (IrValues::Num(Box::new(x), Box::new(vs)), n, r4),
                            ),
                            None => None,
                        },
                        None => None,
                    },
                    _ => None,
                },
            },
        }
    }
}

/// The names that are given those values, in order.
pub open spec fn read_slots(
    before: Seq<char>,
    between: Seq<char>,
    i: nat,
    n: nat,
    s: Seq<char>,
) -> Option<(IrSlots, Seq<char>)>
    decreases n - i,
{
    if i >= n {
        Some((IrSlots::End, s))
    } else {
        match past(before, s) {
            Some(r) => match read_number(r) {
                Some((slot, r1)) => match past(between + text::decimal(i) + "; "@, r1) {
                    Some(r2) => match read_slots(before, between, i + 1, n, r2) {
                        Some((rest, r3)) => Some(
                            (IrSlots::Slot(slot as u16, Box::new(rest)), r3),
                        ),
                        None => None,
                    },
                    None => None,
                },
                None => None,
            },
            None => None,
        }
    }
}

/// A statement that is no expression.
pub open spec fn read_stat(w: Words, k: nat, s: Seq<char>) -> Option<(IrStat, Seq<char>)>
    decreases k, 3int,
{
    if k == 0 || s.len() < 7 {
        None
    } else if s[0] == 'v' {
        match read_number(s.skip(1)) {
            Some((slot, r)) => match past(" = rua_rem(v"@ + text::decimal(slot) + ", "@, r) {
                Some(r1) => match read(w, (k - 1) as nat, r1) {
                    Some((Term::Num(a), r2)) => match past(");"@, r2) {
                        Some(r3) => Some((IrStat::Update(BinOp::Rem, slot as u16, a), r3)),
                        None => None,
                    },
                    _ => None,
                },
                None => match update(r) {
                    Some((op, r1)) => match read(w, (k - 1) as nat, r1) {
                        Some((Term::Num(a), r2)) => match past(";"@, r2) {
                            Some(r3) => Some((IrStat::Update(op, slot as u16, a), r3)),
                            None => None,
                        },
                        _ => None,
                    },
                    None => None,
                },
            },
            None => None,
        }
    } else if s[0] == 'r' {
        match past("return "@, s) {
            Some(r) => match past("0.0;"@, r) {
                Some(r1) => Some((IrStat::Return(None), r1)),
                None => match read(w, (k - 1) as nat, r) {
                    Some((Term::Num(a), r1)) => match past(";"@, r1) {
                        Some(r2) => Some((IrStat::Return(Some(a)), r2)),
                        None => None,
                    },
                    _ => None,
                },
            },
            None => None,
        }
    } else if s[0] == 'c' {
        match past("continue;"@, s) {
            Some(r) => Some((IrStat::Continue, r)),
            None => None,
        }
    } else if s[0] == 'b' && s[5] == ';' {
        match past("break;"@, s) {
            Some(r) => Some((IrStat::Break, r)),
            None => None,
        }
    } else if s[0] == 'b' {
        match past("break 'body"@, s) {
            Some(r) => match read_number(r) {
                Some((l, r1)) => match past(";"@, r1) {
                    Some(r2) => Some((IrStat::Leave(l as u32), r2)),
                    None => None,
                },
                None => None,
            },
            None => None,
        }
    } else if s[0] == 'w' {
        match past("while "@, s) {
            Some(r) => match read(w, (k - 1) as nat, r) {
                Some((Term::Truth(c), r1)) => match past(" "@, r1) {
                    Some(r2) => match read_block(w, (k - 1) as nat, r2) {
                        Some((b, r3)) => Some((IrStat::While(c, b), r3)),
                        None => None,
                    },
                    None => None,
                },
                _ => None,
            },
            None => None,
        }
    } else if s[0] == 'l' && s[1] == 'o' {
        match past("loop "@, s) {
            Some(r) => match read_block(w, (k - 1) as nat, r) {
                Some((b, r1)) => Some((IrStat::Loop(b), r1)),
                None => None,
            },
            None => None,
        }
    } else if s[0] == 'l' && s[5] == ' ' {
        match past("let _ = "@, s) {
            Some(r) => match read(w, (k - 1) as nat, r) {
                Some((Term::Num(a), r1)) => match past(";"@, r1) {
                    Some(r2) => Some((IrStat::Discard(a), r2)),
                    None => None,
                },
                _ => None,
            },
            None => None,
        }
    } else if s[0] == 'l' && s[6] == 't' {
        match read_values(w, (k - 1) as nat, "let __t"@, 0, s) {
            Some((values, n, r)) => match read_slots("let mut v"@, ": f64 = __t"@, 0, n, r) {
                Some((slots, r1)) => Some((IrStat::Let { values, slots }, r1)),
                None => None,
            },
            None => None,
        }
    } else if s[0] == 'l' && s[6] == 'a' {
        match read_values(w, (k - 1) as nat, "let __a"@, 0, s) {
            Some((values, n, r)) => match read_slots("v"@, " = __a"@, 0, n, r) {
                Some((slots, r1)) => Some((IrStat::Assign { values, slots }, r1)),
                None => None,
            },
            None => None,
        }
    } else if s[0] == '{' {
        read_for(w, (k - 1) as nat, s)
    } else {
        None
    }
}

/// A counted loop: its end is worked out first, then its counter starts, and after
/// each turn it is one more.
pub open spec fn read_for(w: Words, k: nat, s: Seq<char>) -> Option<(IrStat, Seq<char>)>
    decreases k, 3int,
{
    match past("{ let __end: f64 = "@, s) {
        Some(r) => match read(w, k, r) {
            Some((Term::Num(end), r1)) => match past("; let mut v"@, r1) {
                Some(r2) => match read_number(r2) {
                    Some((slot, r3)) => match past(": f64 = "@, r3) {
                        Some(r4) => match read(w, k, r4) {
                            Some((Term::Num(start), r5)) => match past(
                                "; while v"@ + text::decimal(slot),
                                r5,
                            ) {
                                Some(r6) => match infix(r6) {
                                    Some((op, r7)) => read_turns(w, k, slot, start, end, op, r7),
                                    None => None,
                                },
                                None => None,
                            },
                            _ => None,
                        },
                        None => None,
                    },
                    None => None,
                },
                None => None,
            },
            _ => None,
        },
        None => None,
    }
}

pub open spec fn read_turns(w: Words, k: nat, slot: nat, start: Ir, end: Ir, op: BinOp, s: Seq<char>) -> Option<
    (IrStat, Seq<char>),
>
    decreases k, 2int,
{
    if op != BinOp::Lt && op != BinOp::Le {
        None
    } else {
        match past("__end { 'body"@, s) {
            Some(r) => match read_number(r) {
                Some((label, r1)) => match past(": "@, r1) {
                    Some(r2) => match read_block(w, k, r2) {
                        Some((body, r3)) => match past(
                            " v"@ + text::decimal(slot) + " += 1.0; } }"@,
                            r3,
                        ) {
                            Some(r4) => Some(
                                (
                                    IrStat::For {
                                        slot: slot as u16,
                                        start,
                                        end,
                                        inclusive: op == BinOp::Le,
                                        label: label as u32,
                                        body,
                                    },
                                    r4,
                                ),
                            ),
                            None => None,
                        },
                        None => None,
                    },
                    None => None,
                },
                None => None,
            },
            None => None,
        }
    }
}

// ---- code that is read back ----------------------------------------------------------------

/// Code on numbers that names no table but to hand it on.
pub open spec fn plain_num(x: Ir) -> bool
    decreases x,
{
    match x {
        Ir::Num(_) => true,
        Ir::Local(_) => true,
        Ir::Neg(a) => plain_num(*a),
        Ir::Bin(op, a, b) => (is_arithmetic(op) || op == BinOp::Rem) && plain_num(*a) && plain_num(
            *b,
        ),
        Ir::Math(_, a, rest) => plain_num(*a) && plain_list(*rest),
        Ir::Block(b) => plain_block(*b),
        Ir::If(i) => plain_if(*i),
        Ir::CallSelf(args) => plain_args(*args),
        Ir::CallBeside(_, args) => plain_args(*args),
        Ir::CallThrough(_, args) => plain_args(*args),
        _ => false,
    }
}

pub open spec fn plain_args(x: IrArgs) -> bool
    decreases x,
{
    match x {
        IrArgs::End => true,
        IrArgs::Num(a, rest) => plain_num(*a) && plain_args(*rest),
        IrArgs::Table(_, rest) => plain_args(*rest),
    }
}

/// Is the function called otherwise than those compiled beside it?
pub open spec fn named(w: Words) -> bool {
    exists|i: int| 0 <= i < 8 && i < w.symbol.len() && #[trigger] w.symbol[i] != "rua_inl_"@[i]
}

pub open spec fn plain_cond(x: Cond) -> bool
    decreases x,
{
    match x {
        Cond::Lit(_) => true,
        Cond::Flag(_) => true,
        Cond::Compare(op, a, b) => is_comparison(op) && plain_num(*a) && plain_num(*b),
        Cond::And(a, b) => plain_cond(*a) && plain_cond(*b),
        Cond::Or(a, b) => plain_cond(*a) && plain_cond(*b),
        Cond::Not(a) => plain_cond(*a),
        Cond::Subject(_) => false,
    }
}

pub open spec fn plain_list(x: IrList) -> bool
    decreases x,
{
    match x {
        IrList::End => true,
        IrList::Item(a, rest) => plain_num(*a) && plain_list(*rest),
    }
}

pub open spec fn plain_values(x: IrValues) -> bool
    decreases x,
{
    match x {
        IrValues::End => true,
        IrValues::Num(a, rest) => plain_num(*a) && plain_values(*rest),
        IrValues::Flag(c, rest) => plain_cond(*c) && plain_values(*rest),
    }
}

pub open spec fn count_values(x: IrValues) -> nat
    decreases x,
{
    match x {
        IrValues::End => 0,
        IrValues::Num(_, rest) => 1 + count_values(*rest),
        IrValues::Flag(_, rest) => 1 + count_values(*rest),
    }
}

pub open spec fn plain_stats(x: IrStats) -> bool
    decreases x,
{
    match x {
        IrStats::End => true,
        IrStats::Then(a, rest) => plain_stat(*a) && plain_stats(*rest),
    }
}

pub open spec fn plain_tail(x: IrTail) -> bool
    decreases x,
{
    match x {
        IrTail::Nothing => true,
        IrTail::Value(a) => plain_num(*a),
        IrTail::Unit(a) => plain_stat(*a),
        IrTail::Table(_) => false,
    }
}

pub open spec fn plain_block(x: IrBlock) -> bool
    decreases x,
{
    plain_stats(x.stats) && plain_tail(x.tail)
}

pub open spec fn plain_if(x: IrIf) -> bool
    decreases x,
{
    plain_cond(x.cond) && plain_block(x.body) && plain_else(x.rest)
}

pub open spec fn plain_else(x: IrElse) -> bool
    decreases x,
{
    match x {
        IrElse::Nothing => true,
        IrElse::Block(b) => plain_block(*b),
        IrElse::If(i) => plain_if(*i),
    }
}

pub open spec fn plain_stat(x: IrStat) -> bool
    decreases x,
{
    match x {
        IrStat::Skip => true,
        IrStat::Let { values, slots } => plain_values(values) && count_values(values)
            == emit::slots_of(slots).len(),
        IrStat::Assign { values, slots } => plain_values(values) && count_values(values)
            == emit::slots_of(slots).len(),
        IrStat::Update(op, _, a) => (is_arithmetic(op) || op == BinOp::Rem) && plain_num(a),
        IrStat::Return(None) => true,
        IrStat::Return(Some(a)) => plain_num(a),
        IrStat::Break => true,
        IrStat::Continue => true,
        IrStat::Leave(_) => true,
        IrStat::While(c, b) => plain_cond(c) && plain_block(b),
        IrStat::Loop(b) => plain_block(b),
        IrStat::For { slot: _, start, end, inclusive: _, label: _, body } => plain_num(start)
            && plain_num(end) && plain_block(body),
        IrStat::Discard(a) => plain_num(a),
        IrStat::Block(b) => plain_block(b),
        IrStat::If(i) => plain_if(i),
        _ => false,
    }
}

/// May this follow an expression? It adds no digit to it and no `else`.
pub open spec fn ends(rest: Seq<char>) -> bool {
    &&& rest.len() > 0
    &&& !is_digit(rest[0])
    &&& rest.len() > 1 ==> !(rest[0] == ' ' && rest[1] == 'e')
}

// ---- the same worth ------------------------------------------------------------------------

pub open spec fn same_num(c: Ir, x: Ir) -> bool {
    forall|q: Sums, n: nat, r: Map<u16, u64>| #[trigger]
        meaning::i_num(q, n, r, c) == meaning::i_num(q, n, r, x)
}

pub open spec fn same_cond(c: Cond, x: Cond) -> bool {
    forall|q: Sums, n: nat, r: Map<u16, u64>| #[trigger]
        meaning::i_cond(q, n, r, c) == meaning::i_cond(q, n, r, x)
}

pub open spec fn same_list(c: IrList, x: IrList) -> bool {
    forall|q: Sums, n: nat, r: Map<u16, u64>| #[trigger]
        meaning::i_list(q, n, r, c) == meaning::i_list(q, n, r, x)
}

pub open spec fn same_args(c: IrArgs, x: IrArgs) -> bool {
    forall|q: Sums, n: nat, r: Map<u16, u64>| #[trigger]
        meaning::i_args(q, n, r, c) == meaning::i_args(q, n, r, x)
}

pub open spec fn same_values(c: IrValues, x: IrValues) -> bool {
    forall|q: Sums, n: nat, r: Map<u16, u64>| #[trigger]
        meaning::i_values(q, n, r, c) == meaning::i_values(q, n, r, x)
}

pub open spec fn same_block(c: IrBlock, x: IrBlock) -> bool {
    forall|q: Sums, n: nat, r: Map<u16, u64>| #[trigger]
        meaning::i_block(q, n, r, c) == meaning::i_block(q, n, r, x)
}

pub open spec fn same_if(c: IrIf, x: IrIf) -> bool {
    forall|q: Sums, n: nat, r: Map<u16, u64>| #[trigger]
        meaning::i_if(q, n, r, c) == meaning::i_if(q, n, r, x)
}

pub open spec fn same_stat(c: IrStat, x: IrStat) -> bool {
    forall|q: Sums, n: nat, r: Map<u16, u64>| #[trigger]
        meaning::i_stat(q, n, r, c) == meaning::i_stat(q, n, r, x)
}

/// A number was read that is worth this, up to `rest`.
pub open spec fn got_num(o: Option<(Term, Seq<char>)>, x: Ir, rest: Seq<char>) -> bool {
    match o {
        Some((Term::Num(c), r)) => r == rest && same_num(c, x),
        _ => false,
    }
}

pub open spec fn got_cond(o: Option<(Term, Seq<char>)>, x: Cond, rest: Seq<char>) -> bool {
    match o {
        Some((Term::Truth(c), r)) => r == rest && same_cond(c, x),
        _ => false,
    }
}

pub open spec fn got_list(o: Option<(IrList, Seq<char>)>, x: IrList, rest: Seq<char>) -> bool {
    match o {
        Some((c, r)) => r == rest && same_list(c, x),
        None => false,
    }
}

pub open spec fn got_args(o: Option<(IrArgs, Seq<char>)>, x: IrArgs, rest: Seq<char>) -> bool {
    match o {
        Some((c, r)) => r == rest && same_args(c, x),
        None => false,
    }
}

pub open spec fn got_block(o: Option<(IrBlock, Seq<char>)>, x: IrBlock, rest: Seq<char>) -> bool {
    match o {
        Some((c, r)) => r == rest && same_block(c, x),
        None => false,
    }
}

pub open spec fn got_if(o: Option<(IrIf, Seq<char>)>, x: IrIf, rest: Seq<char>) -> bool {
    match o {
        Some((c, r)) => r == rest && same_if(c, x),
        None => false,
    }
}

pub open spec fn got_stat(o: Option<(IrStat, Seq<char>)>, x: IrStat, rest: Seq<char>) -> bool {
    match o {
        Some((c, r)) => r == rest && same_stat(c, x),
        None => false,
    }
}

pub open spec fn got_values(
    o: Option<(IrValues, nat, Seq<char>)>,
    x: IrValues,
    n: nat,
    rest: Seq<char>,
) -> bool {
    match o {
        Some((c, m, r)) => m == n && r == rest && same_values(c, x),
        None => false,
    }
}

// ---- how texts begin -----------------------------------------------------------------------

proof fn lemma_not_past(lit: Seq<char>, s: Seq<char>, i: int)
    requires
        0 <= i < lit.len(),
        i < s.len(),
        s[i] != lit[i],
    ensures
        past(lit, s) is None,
{
    if s.len() >= lit.len() {
        assert(s.take(lit.len() as int)[i] == s[i]);
    }
}

/// How an expression begins.
pub open spec fn opens(s: Seq<char>) -> bool {
    &&& s.len() > 1
    &&& s[0] == 'f' || s[0] == 'v' || s[0] == '(' || s[0] == 'r' || s[0] == '{' || s[0] == 'i'
    &&& s[0] == 'r' ==> s.len() > 4 && s[1] == 'u' && s[4] == 'r'
}

proof fn lemma_opens(x: Ir, w: Words)
    requires
        plain_num(x),
    ensures
        opens(emit::ir_text(x, w.symbol, w.trap)),
        emit::ir_text(x, w.symbol, w.trap)[0] == 'v' ==> x is Local,
        emit::ir_text(x, w.symbol, w.trap)[0] == '{' ==> x is Block || x is CallSelf || x is CallBeside
            || x is CallThrough,
        x is CallSelf || x is CallBeside ==> past(
            "{ let __args = ["@,
            emit::ir_text(x, w.symbol, w.trap),
        ) is Some,
        x is CallThrough ==> past("{ let __c = "@, emit::ir_text(x, w.symbol, w.trap)) is Some,
{
    reveal_strlit("f64::from_bits(");
    reveal_strlit("v");
    reveal_strlit("(-(");
    reveal_strlit("rua_rem(");
    reveal_strlit("(");
    reveal_strlit(")");
    reveal_strlit("{ ");
    reveal_strlit("if ");
    let t = emit::ir_text(x, w.symbol, w.trap);
    match x {
        Ir::Local(slot) => {
            lemma_decimal(slot as nat);
            assert(t[0] == 'v');
        },
        Ir::Num(b) => {
            assert(t[0] == 'f');
        },
        Ir::Neg(a) => {
            assert(t[0] == '(');
        },
        Ir::Bin(op, a, b) => {
            if op == BinOp::Rem {
                assert(t[0] == 'r' && t[1] == 'u' && t[4] == 'r');
            } else {
                assert(t[0] == '(');
            }
        },
        Ir::Math(f, a, rest) => {
            assert(t[0] == '(');
        },
        Ir::Block(b) => {
            assert(t == emit::block_text(*b, w.symbol, w.trap));
            assert(t[0] == '{');
        },
        Ir::If(i) => {
            assert(t == emit::if_text(*i, w.symbol, w.trap));
            assert(t[0] == 'i');
        },
        Ir::CallSelf(a) => {
            lemma_self_text(*a, w, Seq::empty());
            assert(t + Seq::<char>::empty() =~= t);
            lemma_args_head(t);
        },
        Ir::CallBeside(id, a) => {
            lemma_beside_text(id, *a, w, Seq::empty());
            assert(t + Seq::<char>::empty() =~= t);
            lemma_args_head(t);
        },
        Ir::CallThrough(at, a) => {
            lemma_through_text(at, *a, w, Seq::empty());
            assert(t + Seq::<char>::empty() =~= t);
            lemma_through_head(t);
        },
        _ => {},
    }
}

proof fn lemma_args_head(t: Seq<char>)
    requires
        t.len() >= 16,
        t.take(16) == "{ let __args = ["@,
    ensures
        past("{ let __args = ["@, t) is Some,
        t[0] == '{',
        past("{ let __end"@, t) is None,
{
    reveal_strlit("{ let __args = [");
    reveal_strlit("{ let __end");
    assert(t.take(16)[0] == t[0]);
    assert(t.take(16)[8] == t[8]);
    lemma_not_past("{ let __end"@, t, 8);
}

proof fn lemma_through_head(t: Seq<char>)
    requires
        t.len() >= 40,
        t.take(40) == "{ let __c = unsafe { *(*rt).callees.add("@,
    ensures
        past("{ let __c = "@, t) is Some,
        past("{ let __args = ["@, t) is None,
        t[0] == '{',
        past("{ let __end"@, t) is None,
{
    reveal_strlit("{ let __c = unsafe { *(*rt).callees.add(");
    reveal_strlit("{ let __c = ");
    reveal_strlit("{ let __args = [");
    reveal_strlit("{ let __end");
    assert(t.take(40)[0] == t[0]);
    assert(t.take(40)[8] == t[8]);
    assert(t.take(12) =~= t.take(40).take(12));
    assert("{ let __c = unsafe { *(*rt).callees.add("@.take(12) =~= "{ let __c = "@);
    lemma_not_past("{ let __end"@, t, 8);
    lemma_not_past("{ let __args = ["@, t, 8);
}

// ---- the texts of calls ---------------------------------------------------------------------

/// The text of a call of the function itself, from the front.
proof fn lemma_self_text(a: IrArgs, w: Words, rest: Seq<char>)
    ensures
        ({
            let t = emit::ir_text(Ir::CallSelf(Box::new(a)), w.symbol, w.trap);
            let ta = emit::args_text(a, w.symbol, w.trap);
            &&& t + rest == "{ let __args = ["@ + (ta + ("]; let __r = unsafe { "@ + (w.symbol + (
            call_tail(w) + rest))))
            &&& t.len() >= 17 + ta.len()
            &&& t.take(16) == "{ let __args = ["@
        }),
{
    let t = emit::ir_text(Ir::CallSelf(Box::new(a)), w.symbol, w.trap);
    let ta = emit::args_text(a, w.symbol, w.trap);
    let x1 = "{ let __args = ["@ + ta;
    let x2 = x1 + "]; let __r = unsafe { "@;
    let x3 = x2 + w.symbol;
    let c = "(__args.as_ptr(), rt, ok, std::ptr::null_mut()) }; if unsafe { *ok } == 0 { "@;
    let d = " } __r }"@;
    assert(t == x3 + c + w.trap + d);
    lemma_assoc(x3 + c, w.trap, d);
    lemma_assoc(x3, c, w.trap + d);
    assert(t == x3 + call_tail(w));
    lemma_assoc(x3, call_tail(w), rest);
    lemma_assoc(x2, w.symbol, call_tail(w) + rest);
    lemma_assoc(x1, "]; let __r = unsafe { "@, w.symbol + (call_tail(w) + rest));
    lemma_assoc(
        "{ let __args = ["@,
        ta,
        "]; let __r = unsafe { "@ + (w.symbol + (call_tail(w) + rest)),
    );
    reveal_strlit("{ let __args = [");
    reveal_strlit("]; let __r = unsafe { ");
    assert(t.take(16) =~= "{ let __args = ["@);
}

/// The text of a call of a function compiled beside, from the front.
proof fn lemma_beside_text(id: usize, a: IrArgs, w: Words, rest: Seq<char>)
    ensures
        ({
            let t = emit::ir_text(Ir::CallBeside(id, Box::new(a)), w.symbol, w.trap);
            let ta = emit::args_text(a, w.symbol, w.trap);
            &&& t + rest == "{ let __args = ["@ + (ta + ("]; let __r = unsafe { "@ + ("rua_inl_"@ + (
            text::decimal(id as nat) + (call_tail(w) + rest)))))
            &&& t.len() >= 17 + ta.len()
            &&& t.take(16) == "{ let __args = ["@
        }),
{
    let t = emit::ir_text(Ir::CallBeside(id, Box::new(a)), w.symbol, w.trap);
    let ta = emit::args_text(a, w.symbol, w.trap);
    let b = "]; let __r = unsafe { rua_inl_"@;
    let dd = text::decimal(id as nat);
    reveal_strlit("]; let __r = unsafe { rua_inl_");
    reveal_strlit("]; let __r = unsafe { ");
    reveal_strlit("rua_inl_");
    assert(b =~= "]; let __r = unsafe { "@ + "rua_inl_"@);
    let x1 = "{ let __args = ["@ + ta;
    let x2 = x1 + b;
    let x3 = x2 + dd;
    let c = "(__args.as_ptr(), rt, ok, std::ptr::null_mut()) }; if unsafe { *ok } == 0 { "@;
    let d = " } __r }"@;
    assert(t == x3 + c + w.trap + d);
    lemma_assoc(x3 + c, w.trap, d);
    lemma_assoc(x3, c, w.trap + d);
    lemma_assoc(x3, call_tail(w), rest);
    lemma_assoc(x2, dd, call_tail(w) + rest);
    lemma_assoc(x1, b, dd + (call_tail(w) + rest));
    lemma_assoc("]; let __r = unsafe { "@, "rua_inl_"@, dd + (call_tail(w) + rest));
    lemma_assoc(
        "{ let __args = ["@,
        ta,
        "]; let __r = unsafe { "@ + ("rua_inl_"@ + (dd + (call_tail(w) + rest))),
    );
    reveal_strlit("{ let __args = [");
    assert(t.take(16) =~= "{ let __args = ["@);
}

/// The text of a call through the runtime, from the front.
proof fn lemma_through_text(at: usize, a: IrArgs, w: Words, rest: Seq<char>)
    ensures
        ({
            let t = emit::ir_text(Ir::CallThrough(at, Box::new(a)), w.symbol, w.trap);
            let ta = emit::args_text(a, w.symbol, w.trap);
            &&& t + rest == "{ let __c = unsafe { *(*rt).callees.add("@ + (text::decimal(at as nat) + (
            "usize) }; let __f: unsafe extern \"C\" fn(*const RtArg, *const RtCtx, *mut i32, *mut *mut c_void) -> f64 = unsafe { std::mem::transmute(__c.entry as *const ()) }; let __args = ["@
                + (ta + (through_tail(w) + rest))))
            &&& t.len() >= 41 + ta.len()
            &&& t.take(40) == "{ let __c = unsafe { *(*rt).callees.add("@
        }),
{
    let t = emit::ir_text(Ir::CallThrough(at, Box::new(a)), w.symbol, w.trap);
    let ta = emit::args_text(a, w.symbol, w.trap);
    let h = "{ let __c = unsafe { *(*rt).callees.add("@;
    let dd = text::decimal(at as nat);
    let b = "usize) }; let __f: unsafe extern \"C\" fn(*const RtArg, *const RtCtx, *mut i32, *mut *mut c_void) -> f64 = unsafe { std::mem::transmute(__c.entry as *const ()) }; let __args = ["@;
    let c = "]; let __r = unsafe { __f(__args.as_ptr(), __c.ctx, ok, std::ptr::null_mut()) }; if unsafe { *ok } == 0 { "@;
    let d = " } __r }"@;
    let x1 = h + dd;
    let x2 = x1 + b;
    let x3 = x2 + ta;
    assert(t == x3 + c + w.trap + d);
    lemma_assoc(x3 + c, w.trap, d);
    lemma_assoc(x3, c, w.trap + d);
    lemma_assoc(x3, through_tail(w), rest);
    lemma_assoc(x2, ta, through_tail(w) + rest);
    lemma_assoc(x1, b, ta + (through_tail(w) + rest));
    lemma_assoc(h, dd, b + (ta + (through_tail(w) + rest)));
    lemma_decimal(at as nat);
    reveal_strlit("{ let __c = unsafe { *(*rt).callees.add(");
    assert(t.take(40) =~= h);
}

/// How a condition begins.
proof fn lemma_opens_cond(x: Cond, w: Words)
    requires
        plain_cond(x),
    ensures
        emit::cond_text(x, w.symbol, w.trap).len() > 2,
        emit::cond_text(x, w.symbol, w.trap)[0] == 't' || emit::cond_text(x, w.symbol, w.trap)[0] == '('
            || emit::cond_text(x, w.symbol, w.trap)[0] == 'f',
{
    reveal_strlit("true");
    reveal_strlit("false");
    reveal_strlit("(");
    reveal_strlit(")");
    reveal_strlit("(v");
    reveal_strlit(" && ");
    reveal_strlit(" || ");
    reveal_strlit(" != 0.0)");
    reveal_strlit("(!");
    match x {
        Cond::Compare(_, a, _) => {
            lemma_opens(*a, w);
        },
        _ => {},
    }
}

/// Each operator is written as Rust's own.
proof fn lemma_infix(op: BinOp, rest: Seq<char>)
    requires
        is_arithmetic(op) || is_comparison(op),
        rest.len() > 0,
    ensures
        infix(emit::op_text(op) + rest) == Some((op, rest)),
        ends(emit::op_text(op) + rest),
        (emit::op_text(op) + rest)[0] == ' ',
        emit::op_text(op).len() > 0,
{
    reveal_strlit(" + ");
    reveal_strlit(" - ");
    reveal_strlit(" * ");
    reveal_strlit(" / ");
    reveal_strlit(" == ");
    reveal_strlit(" != ");
    reveal_strlit(" < ");
    reveal_strlit(" <= ");
    reveal_strlit(" > ");
    reveal_strlit(" >= ");
    let s = emit::op_text(op) + rest;
    assert(s.skip(emit::op_text(op).len() as int) =~= rest);
}

proof fn lemma_junction(and: bool, rest: Seq<char>)
    requires
        rest.len() > 0,
    ensures
        and ==> infix(" && "@ + rest) == Some((BinOp::And, rest)),
        !and ==> infix(" || "@ + rest) == Some((BinOp::Or, rest)),
        ends(" && "@ + rest),
        ends(" || "@ + rest),
        (" && "@ + rest)[0] == ' ',
        (" || "@ + rest)[0] == ' ',
{
    reveal_strlit(" && ");
    reveal_strlit(" || ");
    assert((" && "@ + rest).skip(4) =~= rest);
    assert((" || "@ + rest).skip(4) =~= rest);
}

/// Each function of numbers is written as the method of that name.
proof fn lemma_method(f: MathFn, rest: Seq<char>)
    requires
        rest.len() > 0,
        rest[0] == '(',
    ensures
        method(emit::math_text(f)) == Some(f),
        word(emit::math_text(f) + rest) == emit::math_text(f).len(),
{
    reveal_strlit("floor");
    reveal_strlit("ceil");
    reveal_strlit("abs");
    reveal_strlit("sqrt");
    reveal_strlit("sin");
    reveal_strlit("cos");
    reveal_strlit("tan");
    reveal_strlit("exp");
    reveal_strlit("ln");
    reveal_strlit("round");
    reveal_strlit("max");
    reveal_strlit("min");
    reveal_strlit("powf");
    let w = emit::math_text(f);
    assert("abs"@[0] == 'a' && "cos"@[0] == 'c' && "tan"@[0] == 't' && "exp"@[0] == 'e'
        && "sin"@[0] == 's' && "max"@[1] == 'a' && "min"@[1] == 'i' && "max"@[0] == 'm' && "min"@[0]
        == 'm' && "ceil"@[0] == 'c' && "sqrt"@[0] == 's' && "powf"@[0] == 'p' && "floor"@[0] == 'f'
        && "round"@[0] == 'r');
    lemma_word(w, rest);
}

// ---- what is read is worth what was written ------------------------------------------------

proof fn lemma_same_sum(op: BinOp, c: Ir, d: Ir, a: Ir, b: Ir)
    requires
        same_num(c, a),
        same_num(d, b),
    ensures
        same_num(Ir::Bin(op, Box::new(c), Box::new(d)), Ir::Bin(op, Box::new(a), Box::new(b))),
        same_cond(
            Cond::Compare(op, Box::new(c), Box::new(d)),
            Cond::Compare(op, Box::new(a), Box::new(b)),
        ),
{
    let x = Ir::Bin(op, Box::new(c), Box::new(d));
    let y = Ir::Bin(op, Box::new(a), Box::new(b));
    let p = Cond::Compare(op, Box::new(c), Box::new(d));
    let w = Cond::Compare(op, Box::new(a), Box::new(b));
    assert forall|q: Sums, n: nat, r: Map<u16, u64>| #[trigger]
        meaning::i_num(q, n, r, x) == meaning::i_num(q, n, r, y) by {
        assert(meaning::i_num(q, n, r, c) == meaning::i_num(q, n, r, a));
        match meaning::i_num(q, n, r, a) {
            Ends::Num(_, r1) => {
                assert(meaning::i_num(q, n, r1, d) == meaning::i_num(q, n, r1, b));
            },
            _ => {},
        }
    }
    assert forall|q: Sums, n: nat, r: Map<u16, u64>| #[trigger]
        meaning::i_cond(q, n, r, p) == meaning::i_cond(q, n, r, w) by {
        assert(meaning::i_num(q, n, r, c) == meaning::i_num(q, n, r, a));
        match meaning::i_num(q, n, r, a) {
            Ends::Num(_, r1) => {
                assert(meaning::i_num(q, n, r1, d) == meaning::i_num(q, n, r1, b));
            },
            _ => {},
        }
    }
}

proof fn lemma_same_neg(c: Ir, a: Ir)
    requires
        same_num(c, a),
    ensures
        same_num(Ir::Neg(Box::new(c)), Ir::Neg(Box::new(a))),
{
    let x = Ir::Neg(Box::new(c));
    let y = Ir::Neg(Box::new(a));
    assert forall|q: Sums, n: nat, r: Map<u16, u64>| #[trigger]
        meaning::i_num(q, n, r, x) == meaning::i_num(q, n, r, y) by {
        assert(meaning::i_num(q, n, r, c) == meaning::i_num(q, n, r, a));
    }
}

proof fn lemma_same_math(f: MathFn, c: Ir, d: IrList, a: Ir, b: IrList)
    requires
        same_num(c, a),
        same_list(d, b),
    ensures
        same_num(Ir::Math(f, Box::new(c), Box::new(d)), Ir::Math(f, Box::new(a), Box::new(b))),
{
    let x = Ir::Math(f, Box::new(c), Box::new(d));
    let y = Ir::Math(f, Box::new(a), Box::new(b));
    assert forall|q: Sums, n: nat, r: Map<u16, u64>| #[trigger]
        meaning::i_num(q, n, r, x) == meaning::i_num(q, n, r, y) by {
        assert(meaning::i_num(q, n, r, c) == meaning::i_num(q, n, r, a));
        match meaning::i_num(q, n, r, a) {
            Ends::Num(_, r1) => {
                assert(meaning::i_list(q, n, r1, d) == meaning::i_list(q, n, r1, b));
            },
            _ => {},
        }
    }
}

proof fn lemma_same_junction(c: Cond, d: Cond, a: Cond, b: Cond)
    requires
        same_cond(c, a),
        same_cond(d, b),
    ensures
        same_cond(Cond::And(Box::new(c), Box::new(d)), Cond::And(Box::new(a), Box::new(b))),
        same_cond(Cond::Or(Box::new(c), Box::new(d)), Cond::Or(Box::new(a), Box::new(b))),
        same_cond(Cond::Not(Box::new(c)), Cond::Not(Box::new(a))),
{
    let x = Cond::And(Box::new(c), Box::new(d));
    let y = Cond::And(Box::new(a), Box::new(b));
    assert forall|q: Sums, n: nat, r: Map<u16, u64>| #[trigger]
        meaning::i_cond(q, n, r, x) == meaning::i_cond(q, n, r, y) by {
        assert(meaning::i_cond(q, n, r, c) == meaning::i_cond(q, n, r, a));
        match meaning::i_cond(q, n, r, a) {
            Ends::Truth(_, r1) => {
                assert(meaning::i_cond(q, n, r1, d) == meaning::i_cond(q, n, r1, b));
            },
            _ => {},
        }
    }
    let p = Cond::Or(Box::new(c), Box::new(d));
    let w = Cond::Or(Box::new(a), Box::new(b));
    assert forall|q: Sums, n: nat, r: Map<u16, u64>| #[trigger]
        meaning::i_cond(q, n, r, p) == meaning::i_cond(q, n, r, w) by {
        assert(meaning::i_cond(q, n, r, c) == meaning::i_cond(q, n, r, a));
        match meaning::i_cond(q, n, r, a) {
            Ends::Truth(_, r1) => {
                assert(meaning::i_cond(q, n, r1, d) == meaning::i_cond(q, n, r1, b));
            },
            _ => {},
        }
    }
    let g = Cond::Not(Box::new(c));
    let h = Cond::Not(Box::new(a));
    assert forall|q: Sums, n: nat, r: Map<u16, u64>| #[trigger]
        meaning::i_cond(q, n, r, g) == meaning::i_cond(q, n, r, h) by {
        assert(meaning::i_cond(q, n, r, c) == meaning::i_cond(q, n, r, a));
    }
}

proof fn lemma_same_item(c: Ir, d: IrList, a: Ir, b: IrList)
    requires
        same_num(c, a),
        same_list(d, b),
    ensures
        same_list(IrList::Item(Box::new(c), Box::new(d)), IrList::Item(Box::new(a), Box::new(b))),
{
    let x = IrList::Item(Box::new(c), Box::new(d));
    let y = IrList::Item(Box::new(a), Box::new(b));
    assert forall|q: Sums, n: nat, r: Map<u16, u64>| #[trigger]
        meaning::i_list(q, n, r, x) == meaning::i_list(q, n, r, y) by {
        assert(meaning::i_num(q, n, r, c) == meaning::i_num(q, n, r, a));
        match meaning::i_num(q, n, r, a) {
            Ends::Num(_, r1) => {
                assert(meaning::i_list(q, n, r1, d) == meaning::i_list(q, n, r1, b));
            },
            _ => {},
        }
    }
}

proof fn lemma_same_whole(c: IrBlock, x: IrBlock)
    requires
        same_block(c, x),
    ensures
        same_num(Ir::Block(Box::new(c)), Ir::Block(Box::new(x))),
        same_stat(IrStat::Block(c), IrStat::Block(x)),
{
    let p = Ir::Block(Box::new(c));
    let w = Ir::Block(Box::new(x));
    assert forall|q: Sums, n: nat, r: Map<u16, u64>| #[trigger]
        meaning::i_num(q, n, r, p) == meaning::i_num(q, n, r, w) by {
        assert(meaning::i_block(q, n, r, c) == meaning::i_block(q, n, r, x));
    }
    let g = IrStat::Block(c);
    let h = IrStat::Block(x);
    assert forall|q: Sums, n: nat, r: Map<u16, u64>| #[trigger]
        meaning::i_stat(q, n, r, g) == meaning::i_stat(q, n, r, h) by {
        assert(meaning::i_block(q, n, r, c) == meaning::i_block(q, n, r, x));
    }
}

proof fn lemma_same_choice(c: IrIf, x: IrIf)
    requires
        same_if(c, x),
    ensures
        same_num(Ir::If(Box::new(c)), Ir::If(Box::new(x))),
        same_stat(IrStat::If(c), IrStat::If(x)),
{
    let p = Ir::If(Box::new(c));
    let w = Ir::If(Box::new(x));
    assert forall|q: Sums, n: nat, r: Map<u16, u64>| #[trigger]
        meaning::i_num(q, n, r, p) == meaning::i_num(q, n, r, w) by {
        assert(meaning::i_if(q, n, r, c) == meaning::i_if(q, n, r, x));
    }
    let g = IrStat::If(c);
    let h = IrStat::If(x);
    assert forall|q: Sums, n: nat, r: Map<u16, u64>| #[trigger]
        meaning::i_stat(q, n, r, g) == meaning::i_stat(q, n, r, h) by {
        assert(meaning::i_if(q, n, r, c) == meaning::i_if(q, n, r, x));
    }
}

/// A number between brackets, behind which something follows.
proof fn lemma_ends(lit: Seq<char>, rest: Seq<char>)
    requires
        lit.len() > 0,
        !is_digit(lit[0]),
        lit[0] != ' ',
    ensures
        ends(lit + rest),
{
    assert((lit + rest)[0] == lit[0]);
}

proof fn lemma_local(w: Words, k: nat, slot: u16, rest: Seq<char>)
    requires
        k > 0,
        ends(rest),
    ensures
        read(w, k, "v"@ + text::decimal(slot as nat) + rest) == Some(
            (Term::Num(Ir::Local(slot)), rest),
        ),
        read_number(("v"@ + text::decimal(slot as nat) + rest).skip(1)) == Some(
            (slot as nat, rest),
        ),
        ("v"@ + text::decimal(slot as nat) + rest)[0] == 'v',
{
    reveal_strlit("v");
    let s = "v"@ + text::decimal(slot as nat) + rest;
    lemma_decimal(slot as nat);
    lemma_read_number(slot as nat, rest);
    assert(s.skip(1) =~= text::decimal(slot as nat) + rest);
}

/// What is in brackets starts with its first operand.
proof fn lemma_bracketed(w: Words, k: nat, first: Seq<char>, r: Seq<char>, a: Term)
    requires
        k > 0,
        first.len() > 0,
        first[0] != '-',
        first[0] != '!',
        read(w, (k - 1) as nat, first + r) == Some((a, r)),
    ensures
        read(w, k, "("@ + (first + r)) == read_after(w, (k - 1) as nat, a, r),
{
    reveal_strlit("(");
    let s = "("@ + (first + r);
    assert(s.skip(1) =~= first + r);
    assert(s[0] == '(' && s[1] == first[0]);
}

#[verifier::spinoff_prover]
#[verifier::rlimit(60)]
proof fn lemma_num(k: nat, x: Ir, w: Words, rest: Seq<char>)
    requires
        named(w),
        plain_num(x),
        ends(rest),
        k > emit::ir_text(x, w.symbol, w.trap).len(),
    ensures
        got_num(read(w, k, emit::ir_text(x, w.symbol, w.trap) + rest), x, rest),
    decreases k, 2int,
{
    let t = emit::ir_text(x, w.symbol, w.trap);
    let s = t + rest;
    lemma_opens(x, w);
    assert(s[0] == t[0] && s[1] == t[1]);
    match x {
        Ir::Num(b) => {
            reveal_strlit("f64::from_bits(");
            reveal_strlit("u64)");
            let r1 = "u64)"@ + rest;
            assert(s =~= "f64::from_bits("@ + (text::decimal(b as nat) + r1));
            lemma_past("f64::from_bits("@, text::decimal(b as nat) + r1);
            lemma_read_number(b as nat, r1);
            lemma_past("u64)"@, rest);
            assert(s[1] == '6');
        },
        Ir::Local(slot) => {
            lemma_local(w, k, slot, rest);
        },
        Ir::Neg(a) => {
            reveal_strlit("(-(");
            reveal_strlit("))");
            let ta = emit::ir_text(*a, w.symbol, w.trap);
            let r1 = "))"@ + rest;
            assert(s =~= "(-("@ + (ta + r1));
            lemma_past("(-("@, ta + r1);
            lemma_past("))"@, rest);
            lemma_ends("))"@, rest);
            lemma_num((k - 1) as nat, *a, w, r1);
            let c = read(w, (k - 1) as nat, ta + r1)->Some_0.0->Num_0;
            lemma_same_neg(c, *a);
        },
        Ir::Bin(op, a, b) => {
            let ta = emit::ir_text(*a, w.symbol, w.trap);
            let tb = emit::ir_text(*b, w.symbol, w.trap);
            reveal_strlit(")");
            let r3 = ")"@ + rest;
            lemma_past(")"@, rest);
            lemma_ends(")"@, rest);
            lemma_opens(*a, w);
            lemma_opens(*b, w);
            if op == BinOp::Rem {
                reveal_strlit("rua_rem(");
                reveal_strlit(", ");
                let r1 = ", "@ + (tb + r3);
                assert(s =~= "rua_rem("@ + (ta + r1));
                lemma_past("rua_rem("@, ta + r1);
                lemma_past(", "@, tb + r3);
                lemma_ends(", "@, tb + r3);
                lemma_num((k - 1) as nat, *a, w, r1);
                lemma_num((k - 1) as nat, *b, w, r3);
                let c = read(w, (k - 1) as nat, ta + r1)->Some_0.0->Num_0;
                let d = read(w, (k - 1) as nat, tb + r3)->Some_0.0->Num_0;
                lemma_same_sum(op, c, d, *a, *b);
            } else {
                reveal_strlit("(");
                let r1 = emit::op_text(op) + (tb + r3);
                assert(s =~= "("@ + (ta + r1));
                lemma_infix(op, tb + r3);
                reveal_strlit(").");
                lemma_not_past(")."@, r1, 0);
                lemma_num((k - 1) as nat, *a, w, r1);
                lemma_num((k - 1) as nat, *b, w, r3);
                let c = read(w, (k - 1) as nat, ta + r1)->Some_0.0->Num_0;
                let d = read(w, (k - 1) as nat, tb + r3)->Some_0.0->Num_0;
                lemma_bracketed(w, k, ta, r1, Term::Num(c));
                lemma_same_sum(op, c, d, *a, *b);
            }
        },
        Ir::Math(f, a, list) => {
            let ta = emit::ir_text(*a, w.symbol, w.trap);
            let tl = emit::list_text(*list, w.symbol, w.trap);
            reveal_strlit("(");
            reveal_strlit(").");
            reveal_strlit(")");
            lemma_opens(*a, w);
            let r3 = "("@ + (tl + (")"@ + rest));
            let r2 = emit::math_text(f) + r3;
            let r1 = ")."@ + r2;
            assert(s =~= "("@ + (ta + r1));
            lemma_past(")."@, r2);
            lemma_ends(")."@, r2);
            lemma_method(f, r3);
            assert(r2.take(emit::math_text(f).len() as int) =~= emit::math_text(f));
            assert(r2.skip(emit::math_text(f).len() as int) =~= r3);
            lemma_past("("@, tl + (")"@ + rest));
            lemma_num((k - 1) as nat, *a, w, r1);
            lemma_list((k - 1) as nat, *list, w, rest);
            let c = read(w, (k - 1) as nat, ta + r1)->Some_0.0->Num_0;
            let d = read_list(w, (k - 1) as nat, tl + (")"@ + rest))->Some_0.0;
            lemma_bracketed(w, k, ta, r1, Term::Num(c));
            lemma_same_math(f, c, d, *a, *list);
        },
        Ir::Block(b) => {
            reveal_strlit("{ ");
            assert(t == emit::block_text(*b, w.symbol, w.trap));
            assert(t[0] == '{');
            lemma_no_count(*b, w, rest);
            lemma_block(k, *b, w, rest);
            let c = read_block(w, k, s)->Some_0.0;
            lemma_same_whole(c, *b);
        },
        Ir::If(i) => {
            reveal_strlit("if ");
            assert(t == emit::if_text(*i, w.symbol, w.trap));
            assert(t[0] == 'i');
            lemma_if(k, *i, w, rest);
            let c = read_if(w, k, s)->Some_0.0;
            lemma_same_choice(c, *i);
        },
        Ir::CallSelf(a) => {
            lemma_call_self(k, *a, w, rest);
        },
        Ir::CallBeside(id, a) => {
            lemma_call_beside(k, id, *a, w, rest);
        },
        Ir::CallThrough(at, a) => {
            lemma_call_through(k, at, *a, w, rest);
        },
        _ => {},
    }
}

proof fn lemma_same_call(c: IrArgs, a: IrArgs, i: usize)
    requires
        same_args(c, a),
    ensures
        same_num(Ir::CallSelf(Box::new(c)), Ir::CallSelf(Box::new(a))),
        same_num(Ir::CallBeside(i, Box::new(c)), Ir::CallBeside(i, Box::new(a))),
        same_num(Ir::CallThrough(i, Box::new(c)), Ir::CallThrough(i, Box::new(a))),
{
    let x = Ir::CallSelf(Box::new(c));
    let y = Ir::CallSelf(Box::new(a));
    assert forall|q: Sums, n: nat, r: Map<u16, u64>| #[trigger]
        meaning::i_num(q, n, r, x) == meaning::i_num(q, n, r, y) by {
        assert(meaning::i_args(q, n, r, c) == meaning::i_args(q, n, r, a));
    }
    let x = Ir::CallBeside(i, Box::new(c));
    let y = Ir::CallBeside(i, Box::new(a));
    assert forall|q: Sums, n: nat, r: Map<u16, u64>| #[trigger]
        meaning::i_num(q, n, r, x) == meaning::i_num(q, n, r, y) by {
        assert(meaning::i_args(q, n, r, c) == meaning::i_args(q, n, r, a));
    }
    let x = Ir::CallThrough(i, Box::new(c));
    let y = Ir::CallThrough(i, Box::new(a));
    assert forall|q: Sums, n: nat, r: Map<u16, u64>| #[trigger]
        meaning::i_num(q, n, r, x) == meaning::i_num(q, n, r, y) by {
        assert(meaning::i_args(q, n, r, c) == meaning::i_args(q, n, r, a));
    }
}

proof fn lemma_same_arg(c: Ir, d: IrArgs, a: Ir, b: IrArgs, slot: u16)
    requires
        same_num(c, a),
        same_args(d, b),
    ensures
        same_args(
            IrArgs::Num(Box::new(c), Box::new(d)),
            IrArgs::Num(Box::new(a), Box::new(b)),
        ),
        same_args(IrArgs::Table(slot, Box::new(d)), IrArgs::Table(slot, Box::new(b))),
{
    let x = IrArgs::Num(Box::new(c), Box::new(d));
    let y = IrArgs::Num(Box::new(a), Box::new(b));
    assert forall|q: Sums, n: nat, r: Map<u16, u64>| #[trigger]
        meaning::i_args(q, n, r, x) == meaning::i_args(q, n, r, y) by {
        assert(meaning::i_num(q, n, r, c) == meaning::i_num(q, n, r, a));
        match meaning::i_num(q, n, r, a) {
            Ends::Num(_, r1) => {
                assert(meaning::i_args(q, n, r1, d) == meaning::i_args(q, n, r1, b));
            },
            _ => {},
        }
    }
    let g = IrArgs::Table(slot, Box::new(d));
    let h = IrArgs::Table(slot, Box::new(b));
    assert forall|q: Sums, n: nat, r: Map<u16, u64>| #[trigger]
        meaning::i_args(q, n, r, g) == meaning::i_args(q, n, r, h) by {
        match meaning::i_local(r, slot) {
            Ends::Num(_, r1) => {
                assert(meaning::i_args(q, n, r1, d) == meaning::i_args(q, n, r1, b));
            },
            _ => {},
        }
    }
}

/// Arguments are read in order.
#[verifier::spinoff_prover]
proof fn lemma_args(k: nat, x: IrArgs, w: Words, rest: Seq<char>)
    requires
        named(w),
        plain_args(x),
        rest.len() > 0,
        rest[0] == ']',
        k > emit::args_text(x, w.symbol, w.trap).len(),
    ensures
        got_args(read_args(w, k, emit::args_text(x, w.symbol, w.trap) + rest), x, rest),
    decreases k, 2int,
{
    let t = emit::args_text(x, w.symbol, w.trap);
    let s = t + rest;
    match x {
        IrArgs::End => {
            reveal_strlit("");
            assert(s =~= rest);
        },
        IrArgs::Num(a, more) => {
            let ta = emit::ir_text(*a, w.symbol, w.trap);
            let tm = emit::args_text(*more, w.symbol, w.trap);
            let h = "RtArg { num: "@;
            let z = ", table: std::ptr::null_mut() }, "@;
            let r1 = z + (tm + rest);
            lemma_opens(*a, w);
            assert(t == h + ta + z + tm);
            lemma_assoc(h + ta + z, tm, rest);
            lemma_assoc(h + ta, z, tm + rest);
            lemma_assoc(h, ta, r1);
            assert(s == h + (ta + r1));
            reveal_strlit("RtArg { num: ");
            reveal_strlit(", table: std::ptr::null_mut() }, ");
            assert(s[0] == 'R');
            assert(past("RtArg { num: 0.0, table: v"@, s) is None) by {
                reveal_strlit("RtArg { num: 0.0, table: v");
                assert(s[13] == ta[0]);
                lemma_not_past("RtArg { num: 0.0, table: v"@, s, 13);
            }
            lemma_past(h, ta + r1);
            lemma_ends(z, tm + rest);
            lemma_past(z, tm + rest);
            lemma_num((k - 1) as nat, *a, w, r1);
            lemma_args((k - 1) as nat, *more, w, rest);
            let c = read(w, (k - 1) as nat, ta + r1)->Some_0.0->Num_0;
            let d = read_args(w, (k - 1) as nat, tm + rest)->Some_0.0;
            lemma_same_arg(c, d, *a, *more, 0);
        },
        IrArgs::Table(slot, more) => {
            let dd = text::decimal(slot as nat);
            let tm = emit::args_text(*more, w.symbol, w.trap);
            let h = "RtArg { num: 0.0, table: v"@;
            let z = " }, "@;
            let r1 = z + (tm + rest);
            assert(t == h + dd + z + tm);
            lemma_assoc(h + dd + z, tm, rest);
            lemma_assoc(h + dd, z, tm + rest);
            lemma_assoc(h, dd, r1);
            assert(s == h + (dd + r1));
            reveal_strlit("RtArg { num: 0.0, table: v");
            reveal_strlit(" }, ");
            assert(s[0] == 'R');
            lemma_past(h, dd + r1);
            lemma_past(z, tm + rest);
            assert(r1[0] == ' ');
            lemma_read_number(slot as nat, r1);
            lemma_args((k - 1) as nat, *more, w, rest);
            let d = read_args(w, (k - 1) as nat, tm + rest)->Some_0.0;
            lemma_same_arg(Ir::Num(0), d, Ir::Num(0), *more, slot);
        },
    }
}

#[verifier::spinoff_prover]
proof fn lemma_call_self(k: nat, a: IrArgs, w: Words, rest: Seq<char>)
    requires
        named(w),
        plain_args(a),
        k > emit::ir_text(Ir::CallSelf(Box::new(a)), w.symbol, w.trap).len(),
    ensures
        got_num(
            read(w, k, emit::ir_text(Ir::CallSelf(Box::new(a)), w.symbol, w.trap) + rest),
            Ir::CallSelf(Box::new(a)),
            rest,
        ),
    decreases k, 1int,
{
    let t = emit::ir_text(Ir::CallSelf(Box::new(a)), w.symbol, w.trap);
    let ta = emit::args_text(a, w.symbol, w.trap);
    let s = t + rest;
    lemma_self_text(a, w, rest);
    let r2 = call_tail(w) + rest;
    let r1 = w.symbol + r2;
    let r0 = "]; let __r = unsafe { "@ + r1;
    lemma_past("{ let __args = ["@, ta + r0);
    lemma_past("]; let __r = unsafe { "@, r1);
    lemma_past(w.symbol, r2);
    lemma_past(call_tail(w), rest);
    assert(r0.len() > 0 && r0[0] == ']') by {
        reveal_strlit("]; let __r = unsafe { ");
    }
    assert(past("rua_inl_"@, r1) is None) by {
        reveal_strlit("rua_inl_");
        let i = choose|i: int|
            0 <= i < 8 && i < w.symbol.len() && #[trigger] w.symbol[i] != "rua_inl_"@[i];
        assert(r1[i] == w.symbol[i]);
        lemma_not_past("rua_inl_"@, r1, i);
    }
    assert(s.len() >= 2 && s[0] == '{') by {
        reveal_strlit("{ let __args = [");
        assert(t.take(16)[0] == t[0]);
    }
    lemma_args((k - 1) as nat, a, w, r0);
    let c = read_args(w, (k - 1) as nat, ta + r0)->Some_0.0;
    lemma_same_call(c, a, 0);
    assert(read_call(w, (k - 1) as nat, ta + r0) == Some(
        (Term::Num(Ir::CallSelf(Box::new(c))), rest),
    ));
    assert(read(w, k, s) == read_call(w, (k - 1) as nat, ta + r0));
}

#[verifier::spinoff_prover]
proof fn lemma_call_beside(k: nat, id: usize, a: IrArgs, w: Words, rest: Seq<char>)
    requires
        named(w),
        plain_args(a),
        k > emit::ir_text(Ir::CallBeside(id, Box::new(a)), w.symbol, w.trap).len(),
    ensures
        got_num(
            read(w, k, emit::ir_text(Ir::CallBeside(id, Box::new(a)), w.symbol, w.trap) + rest),
            Ir::CallBeside(id, Box::new(a)),
            rest,
        ),
    decreases k, 1int,
{
    let t = emit::ir_text(Ir::CallBeside(id, Box::new(a)), w.symbol, w.trap);
    let ta = emit::args_text(a, w.symbol, w.trap);
    let dd = text::decimal(id as nat);
    let s = t + rest;
    lemma_beside_text(id, a, w, rest);
    let r2 = call_tail(w) + rest;
    let r1 = "rua_inl_"@ + (dd + r2);
    let r0 = "]; let __r = unsafe { "@ + r1;
    lemma_past("{ let __args = ["@, ta + r0);
    lemma_past("]; let __r = unsafe { "@, r1);
    lemma_past("rua_inl_"@, dd + r2);
    lemma_past(call_tail(w), rest);
    assert(r2.len() > 0 && !is_digit(r2[0])) by {
        reveal_strlit("(__args.as_ptr(), rt, ok, std::ptr::null_mut()) }; if unsafe { *ok } == 0 { ");
        assert(call_tail(w)[0] == '(');
        assert(r2[0] == call_tail(w)[0]);
    }
    lemma_read_number(id as nat, r2);
    assert(r0.len() > 0 && r0[0] == ']') by {
        reveal_strlit("]; let __r = unsafe { ");
    }
    assert(s.len() >= 2 && s[0] == '{') by {
        reveal_strlit("{ let __args = [");
        assert(t.take(16)[0] == t[0]);
    }
    lemma_args((k - 1) as nat, a, w, r0);
    let c = read_args(w, (k - 1) as nat, ta + r0)->Some_0.0;
    lemma_same_call(c, a, id);
    assert(read_call(w, (k - 1) as nat, ta + r0) == Some(
        (Term::Num(Ir::CallBeside(id, Box::new(c))), rest),
    ));
    assert(read(w, k, s) == read_call(w, (k - 1) as nat, ta + r0));
}

#[verifier::spinoff_prover]
proof fn lemma_call_through(k: nat, at: usize, a: IrArgs, w: Words, rest: Seq<char>)
    requires
        named(w),
        plain_args(a),
        k > emit::ir_text(Ir::CallThrough(at, Box::new(a)), w.symbol, w.trap).len(),
    ensures
        got_num(
            read(w, k, emit::ir_text(Ir::CallThrough(at, Box::new(a)), w.symbol, w.trap) + rest),
            Ir::CallThrough(at, Box::new(a)),
            rest,
        ),
    decreases k, 1int,
{
    let t = emit::ir_text(Ir::CallThrough(at, Box::new(a)), w.symbol, w.trap);
    let ta = emit::args_text(a, w.symbol, w.trap);
    let dd = text::decimal(at as nat);
    let b = "usize) }; let __f: unsafe extern \"C\" fn(*const RtArg, *const RtCtx, *mut i32, *mut *mut c_void) -> f64 = unsafe { std::mem::transmute(__c.entry as *const ()) }; let __args = ["@;
    let s = t + rest;
    lemma_through_text(at, a, w, rest);
    assert(s.take(40) =~= t.take(40));
    lemma_through_head(s);
    let r3 = through_tail(w) + rest;
    let r2 = b + (ta + r3);
    lemma_past("{ let __c = unsafe { *(*rt).callees.add("@, dd + r2);
    lemma_past(b, ta + r3);
    lemma_past(through_tail(w), rest);
    assert(r2.len() > 0 && !is_digit(r2[0])) by {
        reveal_strlit("usize) }; let __f: unsafe extern \"C\" fn(*const RtArg, *const RtCtx, *mut i32, *mut *mut c_void) -> f64 = unsafe { std::mem::transmute(__c.entry as *const ()) }; let __args = [");
        assert(b[0] == 'u');
        assert(r2[0] == b[0]);
    }
    lemma_read_number(at as nat, r2);
    assert(r3.len() > 0 && r3[0] == ']') by {
        reveal_strlit("]; let __r = unsafe { __f(__args.as_ptr(), __c.ctx, ok, std::ptr::null_mut()) }; if unsafe { *ok } == 0 { ");
        assert(through_tail(w)[0] == ']');
        assert(r3[0] == through_tail(w)[0]);
    }
    lemma_args((k - 1) as nat, a, w, r3);
    let c = read_args(w, (k - 1) as nat, ta + r3)->Some_0.0;
    lemma_same_call(c, a, at);
    assert(read_through(w, (k - 1) as nat, s) == Some(
        (Term::Num(Ir::CallThrough(at, Box::new(c))), rest),
    ));
    assert(read(w, k, s) == read_through(w, (k - 1) as nat, s));
}

#[verifier::spinoff_prover]
proof fn lemma_compare(
    k: nat,
    op: BinOp,
    a: Ir,
    b: Ir,
    w: Words,
    rest: Seq<char>,
)
    requires
        named(w),
        is_comparison(op),
        plain_num(a),
        plain_num(b),
        k > emit::ir_text(a, w.symbol, w.trap).len() + 1,
        k > emit::ir_text(b, w.symbol, w.trap).len() + 1,
    ensures
        got_cond(
            read(
                w,
                k,
                "("@ + emit::ir_text(a, w.symbol, w.trap) + emit::op_text(op) + emit::ir_text(
                    b,
                    w.symbol,
                    w.trap,
                ) + ")"@ + rest,
            ),
            Cond::Compare(op, Box::new(a), Box::new(b)),
            rest,
        ),
    decreases k, 1int,
{
    let ta = emit::ir_text(a, w.symbol, w.trap);
    let tb = emit::ir_text(b, w.symbol, w.trap);
    let s = "("@ + ta + emit::op_text(op) + tb + ")"@ + rest;
    reveal_strlit(")");
    reveal_strlit(").");
    let r3 = ")"@ + rest;
    lemma_past(")"@, rest);
    lemma_ends(")"@, rest);
    lemma_opens(a, w);
    lemma_opens(b, w);
    let r1 = emit::op_text(op) + (tb + r3);
    assert(s =~= "("@ + (ta + r1));
    lemma_infix(op, tb + r3);
    lemma_not_past(")."@, r1, 0);
    reveal_strlit("0.0)");
    assert((tb + r3)[0] == tb[0]);
    lemma_not_past("0.0)"@, tb + r3, 0);
    lemma_num((k - 1) as nat, a, w, r1);
    lemma_num((k - 1) as nat, b, w, r3);
    let c = read(w, (k - 1) as nat, ta + r1)->Some_0.0->Num_0;
    let d = read(w, (k - 1) as nat, tb + r3)->Some_0.0->Num_0;
    lemma_bracketed(w, k, ta, r1, Term::Num(c));
    lemma_same_sum(op, c, d, a, b);
}

#[verifier::spinoff_prover]
proof fn lemma_joined(
    k: nat,
    and: bool,
    a: Cond,
    b: Cond,
    w: Words,
    rest: Seq<char>,
)
    requires
        named(w),
        plain_cond(a),
        plain_cond(b),
        k > emit::cond_text(a, w.symbol, w.trap).len() + 1,
        k > emit::cond_text(b, w.symbol, w.trap).len() + 1,
    ensures
        and ==> got_cond(
            read(
                w,
                k,
                "("@ + emit::cond_text(a, w.symbol, w.trap) + " && "@ + emit::cond_text(b, w.symbol, w.trap)
                    + ")"@ + rest,
            ),
            Cond::And(Box::new(a), Box::new(b)),
            rest,
        ),
        !and ==> got_cond(
            read(
                w,
                k,
                "("@ + emit::cond_text(a, w.symbol, w.trap) + " || "@ + emit::cond_text(b, w.symbol, w.trap)
                    + ")"@ + rest,
            ),
            Cond::Or(Box::new(a), Box::new(b)),
            rest,
        ),
    decreases k, 1int,
{
    let ta = emit::cond_text(a, w.symbol, w.trap);
    let tb = emit::cond_text(b, w.symbol, w.trap);
    let op = if and {
        " && "@
    } else {
        " || "@
    };
    let s = "("@ + ta + op + tb + ")"@ + rest;
    reveal_strlit(")");
    reveal_strlit(").");
    reveal_strlit(" && ");
    reveal_strlit(" || ");
    let r3 = ")"@ + rest;
    lemma_past(")"@, rest);
    lemma_opens_cond(a, w);
    lemma_opens_cond(b, w);
    let r1 = op + (tb + r3);
    assert(s =~= "("@ + (ta + r1));
    lemma_junction(and, tb + r3);
    lemma_not_past(")."@, r1, 0);
    lemma_cond((k - 1) as nat, a, w, r1);
    lemma_cond((k - 1) as nat, b, w, r3);
    let c = read(w, (k - 1) as nat, ta + r1)->Some_0.0->Truth_0;
    let d = read(w, (k - 1) as nat, tb + r3)->Some_0.0->Truth_0;
    lemma_bracketed(w, k, ta, r1, Term::Truth(c));
    lemma_same_junction(c, d, a, b);
}

#[verifier::spinoff_prover]
proof fn lemma_flag(w: Words, k: nat, slot: u16, rest: Seq<char>)
    requires
        k > 1,
    ensures
        read(w, k, "(v"@ + text::decimal(slot as nat) + " != 0.0)"@ + rest) == Some(
            (Term::Truth(Cond::Flag(slot)), rest),
        ),
{
    let s = "(v"@ + text::decimal(slot as nat) + " != 0.0)"@ + rest;
    reveal_strlit("(v");
    reveal_strlit("(");
    reveal_strlit("v");
    reveal_strlit(" != 0.0)");
    reveal_strlit("0.0)");
    reveal_strlit(").");
    let first = "v"@ + text::decimal(slot as nat);
    let r1 = " != 0.0)"@ + rest;
    assert(s =~= "("@ + (first + r1));
    lemma_local(w, (k - 1) as nat, slot, r1);
    lemma_bracketed(w, k, first, r1, Term::Num(Ir::Local(slot)));
    lemma_not_past(")."@, r1, 0);
    assert(r1.skip(4) =~= "0.0)"@ + rest);
    lemma_past("0.0)"@, rest);
}

#[verifier::spinoff_prover]
proof fn lemma_cond(k: nat, x: Cond, w: Words, rest: Seq<char>)
    requires
        named(w),
        plain_cond(x),
        rest.len() > 0,
        k > emit::cond_text(x, w.symbol, w.trap).len(),
    ensures
        got_cond(read(w, k, emit::cond_text(x, w.symbol, w.trap) + rest), x, rest),
    decreases k, 2int,
{
    let t = emit::cond_text(x, w.symbol, w.trap);
    let s = t + rest;
    reveal_strlit("(");
    reveal_strlit(")");
    match x {
        Cond::Lit(b) => {
            reveal_strlit("true");
            reveal_strlit("false");
            lemma_past(t, rest);
            if b {
                assert(s[0] == 't');
            } else {
                assert(s[0] == 'f' && s[1] == 'a');
            }
        },
        Cond::Compare(op, a, b) => {
            lemma_infix(op, rest);
            lemma_compare(k, op, *a, *b, w, rest);
        },
        Cond::And(a, b) => {
            reveal_strlit(" && ");
            lemma_joined(k, true, *a, *b, w, rest);
        },
        Cond::Or(a, b) => {
            reveal_strlit(" || ");
            lemma_joined(k, false, *a, *b, w, rest);
        },
        Cond::Not(a) => {
            let ta = emit::cond_text(*a, w.symbol, w.trap);
            reveal_strlit("(!");
            let r3 = ")"@ + rest;
            lemma_past(")"@, rest);
            assert(s.skip(2) =~= ta + r3);
            assert(s[0] == '(' && s[1] == '!');
            lemma_cond((k - 1) as nat, *a, w, r3);
            let c = read(w, (k - 1) as nat, ta + r3)->Some_0.0->Truth_0;
            lemma_same_junction(c, c, *a, *a);
        },
        Cond::Flag(slot) => {
            reveal_strlit("(v");
            lemma_flag(w, k, slot, rest);
        },
        _ => {},
    }
}

#[verifier::spinoff_prover]
proof fn lemma_list(k: nat, x: IrList, w: Words, rest: Seq<char>)
    requires
        named(w),
        plain_list(x),
        k > emit::list_text(x, w.symbol, w.trap).len(),
    ensures
        got_list(read_list(w, k, emit::list_text(x, w.symbol, w.trap) + (")"@ + rest)), x, rest),
    decreases k, 2int,
{
    let s = emit::list_text(x, w.symbol, w.trap) + (")"@ + rest);
    reveal_strlit(")");
    match x {
        IrList::End => {
            reveal_strlit("");
            assert(s =~= ")"@ + rest);
            assert(s.skip(1) =~= rest);
        },
        IrList::Item(a, more) => {
            let ta = emit::ir_text(*a, w.symbol, w.trap);
            let tl = emit::list_text(*more, w.symbol, w.trap);
            reveal_strlit(", ");
            lemma_opens(*a, w);
            let r2 = tl + (")"@ + rest);
            let r1 = ", "@ + r2;
            assert(s =~= ta + r1);
            assert(s[0] == ta[0]);
            lemma_past(", "@, r2);
            lemma_ends(", "@, r2);
            lemma_num((k - 1) as nat, *a, w, r1);
            lemma_list((k - 1) as nat, *more, w, rest);
            let c = read(w, (k - 1) as nat, ta + r1)->Some_0.0->Num_0;
            let d = read_list(w, (k - 1) as nat, r2)->Some_0.0;
            lemma_same_item(c, d, *a, *more);
        },
    }
}

proof fn lemma_same_if(c: IrIf, x: IrIf)
    requires
        same_cond(c.cond, x.cond),
        same_block(c.body, x.body),
        forall|q: Sums, n: nat, r: Map<u16, u64>| #[trigger]
            meaning::i_else(q, n, r, c.rest) == meaning::i_else(q, n, r, x.rest),
    ensures
        same_if(c, x),
{
    assert forall|q: Sums, n: nat, r: Map<u16, u64>| #[trigger]
        meaning::i_if(q, n, r, c) == meaning::i_if(q, n, r, x) by {
        assert(meaning::i_cond(q, n, r, c.cond) == meaning::i_cond(q, n, r, x.cond));
        match meaning::i_cond(q, n, r, x.cond) {
            Ends::Truth(_, r1) => {
                assert(meaning::i_block(q, n, r1, c.body) == meaning::i_block(q, n, r1, x.body));
                assert(meaning::i_else(q, n, r1, c.rest) == meaning::i_else(q, n, r1, x.rest));
            },
            _ => {},
        }
    }
}

#[verifier::spinoff_prover]
#[verifier::rlimit(60)]
proof fn lemma_if(k: nat, x: IrIf, w: Words, rest: Seq<char>)
    requires
        named(w),
        plain_if(x),
        ends(rest),
        k > emit::if_text(x, w.symbol, w.trap).len(),
    ensures
        got_if(read_if(w, k, emit::if_text(x, w.symbol, w.trap) + rest), x, rest),
    decreases k, 1int,
{
    let t = emit::if_text(x, w.symbol, w.trap);
    let s = t + rest;
    let tc = emit::cond_text(x.cond, w.symbol, w.trap);
    let tb = emit::block_text(x.body, w.symbol, w.trap);
    let te = emit::else_text(x.rest, w.symbol, w.trap);
    reveal_strlit("if ");
    reveal_strlit(" ");
    reveal_strlit("");
    reveal_strlit(" else ");
    let r3 = te + rest;
    let r1 = " "@ + (tb + r3);
    assert(s =~= "if "@ + (tc + r1));
    lemma_past("if "@, tc + r1);
    lemma_past(" "@, tb + r3);
    lemma_cond((k - 1) as nat, x.cond, w, r1);
    lemma_block((k - 1) as nat, x.body, w, r3);
    let cc = read(w, (k - 1) as nat, tc + r1)->Some_0.0->Truth_0;
    let cb = read_block(w, (k - 1) as nat, tb + r3)->Some_0.0;
    match x.rest {
        IrElse::Nothing => {
            assert(r3 =~= rest);
            if rest.len() >= 2 {
                if rest[0] == ' ' {
                    lemma_not_past(" else "@, rest, 1);
                } else {
                    lemma_not_past(" else "@, rest, 0);
                }
            }
            lemma_same_if(IrIf { cond: cc, body: cb, rest: IrElse::Nothing }, x);
        },
        IrElse::Block(b) => {
            let t2 = emit::block_text(*b, w.symbol, w.trap);
            reveal_strlit("{ ");
            assert(r3 =~= " else "@ + (t2 + rest));
            lemma_past(" else "@, t2 + rest);
            assert((t2 + rest)[0] == '{');
            lemma_block((k - 1) as nat, *b, w, rest);
            let ce = read_block(w, (k - 1) as nat, t2 + rest)->Some_0.0;
            let e = IrElse::Block(Box::new(ce));
            assert forall|q: Sums, n: nat, r: Map<u16, u64>| #[trigger]
                meaning::i_else(q, n, r, e) == meaning::i_else(q, n, r, x.rest) by {
                assert(meaning::i_block(q, n, r, ce) == meaning::i_block(q, n, r, *b));
            }
            lemma_same_if(IrIf { cond: cc, body: cb, rest: e }, x);
        },
        IrElse::If(i) => {
            let t2 = emit::if_text(*i, w.symbol, w.trap);
            assert(r3 =~= " else "@ + (t2 + rest));
            lemma_past(" else "@, t2 + rest);
            assert((t2 + rest)[0] == 'i');
            lemma_if((k - 1) as nat, *i, w, rest);
            let ce = read_if(w, (k - 1) as nat, t2 + rest)->Some_0.0;
            let e = IrElse::If(Box::new(ce));
            assert forall|q: Sums, n: nat, r: Map<u16, u64>| #[trigger]
                meaning::i_else(q, n, r, e) == meaning::i_else(q, n, r, x.rest) by {
                assert(meaning::i_if(q, n, r, ce) == meaning::i_if(q, n, r, *i));
            }
            lemma_same_if(IrIf { cond: cc, body: cb, rest: e }, x);
        },
    }
}

// ---- statements ----------------------------------------------------------------------------

/// The values of several names as they stand from the front.
spec fn temps_front(head: Seq<char>, i: nat, values: Seq<Seq<char>>) -> Seq<char>
    decreases values.len(),
{
    if values.len() == 0 {
        Seq::empty()
    } else {
        (head + text::decimal(i) + ": f64 = "@) + (values[0] + ("; "@ + temps_front(
            head,
            i + 1,
            values.drop_first(),
        )))
    }
}

proof fn lemma_temps_last(head: Seq<char>, i: nat, values: Seq<Seq<char>>)
    requires
        values.len() > 0,
    ensures
        temps_front(head, i, values) == temps_front(head, i, values.drop_last()) + (head
            + text::decimal((i + values.len() - 1) as nat) + ": f64 = "@ + values.last() + "; "@),
    decreases values.len(),
{
    if values.len() == 1 {
        assert(values.drop_first() =~= Seq::empty());
        assert(values.drop_last() =~= Seq::empty());
        assert(temps_front(head, i + 1, values.drop_first()) =~= Seq::empty());
        assert(temps_front(head, i, values.drop_last()) =~= Seq::empty());
    } else {
        lemma_temps_last(head, i + 1, values.drop_first());
        assert(values.drop_first().drop_last() =~= values.drop_last().drop_first());
    }
    assert(temps_front(head, i, values) =~= temps_front(head, i, values.drop_last()) + (head
        + text::decimal((i + values.len() - 1) as nat) + ": f64 = "@ + values.last() + "; "@));
}

proof fn lemma_temps(head: Seq<char>, values: Seq<Seq<char>>)
    ensures
        emit::temps_text(head, values) == temps_front(head, 0, values),
    decreases values.len(),
{
    reveal_strlit("");
    if values.len() > 0 {
        lemma_temps(head, values.drop_last());
        lemma_temps_last(head, 0, values);
    }
    assert(emit::temps_text(head, values) =~= temps_front(head, 0, values));
}

spec fn slots_front(before: Seq<char>, between: Seq<char>, i: nat, slots: Seq<u16>) -> Seq<char>
    decreases slots.len(),
{
    if slots.len() == 0 {
        Seq::empty()
    } else {
        before + (text::decimal(slots[0] as nat) + ((between + text::decimal(i) + "; "@)
            + slots_front(before, between, i + 1, slots.drop_first())))
    }
}

proof fn lemma_slots_last(before: Seq<char>, between: Seq<char>, i: nat, slots: Seq<u16>)
    requires
        slots.len() > 0,
    ensures
        slots_front(before, between, i, slots) == slots_front(
            before,
            between,
            i,
            slots.drop_last(),
        ) + (before + text::decimal(slots.last() as nat) + between + text::decimal(
            (i + slots.len() - 1) as nat,
        ) + "; "@),
    decreases slots.len(),
{
    if slots.len() == 1 {
        assert(slots.drop_first() =~= Seq::empty());
        assert(slots.drop_last() =~= Seq::empty());
        assert(slots_front(before, between, i + 1, slots.drop_first()) =~= Seq::empty());
        assert(slots_front(before, between, i, slots.drop_last()) =~= Seq::empty());
    } else {
        lemma_slots_last(before, between, i + 1, slots.drop_first());
        assert(slots.drop_first().drop_last() =~= slots.drop_last().drop_first());
    }
    assert(slots_front(before, between, i, slots) =~= slots_front(
        before,
        between,
        i,
        slots.drop_last(),
    ) + (before + text::decimal(slots.last() as nat) + between + text::decimal(
        (i + slots.len() - 1) as nat,
    ) + "; "@));
}

proof fn lemma_bound(slots: Seq<u16>)
    ensures
        emit::lets_text(slots) == slots_front("let mut v"@, ": f64 = __t"@, 0, slots),
        emit::sets_text(slots) == slots_front("v"@, " = __a"@, 0, slots),
    decreases slots.len(),
{
    reveal_strlit("");
    if slots.len() > 0 {
        lemma_bound(slots.drop_last());
        lemma_slots_last("let mut v"@, ": f64 = __t"@, 0, slots);
        lemma_slots_last("v"@, " = __a"@, 0, slots);
    }
    assert(emit::lets_text(slots) =~= slots_front("let mut v"@, ": f64 = __t"@, 0, slots));
    assert(emit::sets_text(slots) =~= slots_front("v"@, " = __a"@, 0, slots));
}

/// The names are read in order, each with the value in its place.
proof fn lemma_slots(
    before: Seq<char>,
    between: Seq<char>,
    i: nat,
    slots: IrSlots,
    rest: Seq<char>,
)
    requires
        between.len() > 0,
        !is_digit(between[0]),
    ensures
        read_slots(
            before,
            between,
            i,
            i + emit::slots_of(slots).len(),
            slots_front(before, between, i, emit::slots_of(slots)) + rest,
        ) == Some((slots, rest)),
    decreases slots,
{
    let all = emit::slots_of(slots);
    let s = slots_front(before, between, i, all) + rest;
    match slots {
        IrSlots::End => {
            assert(s =~= rest);
        },
        IrSlots::Slot(slot, more) => {
            assert(all.drop_first() =~= emit::slots_of(*more));
            let r2 = slots_front(before, between, i + 1, emit::slots_of(*more)) + rest;
            let r1 = (between + text::decimal(i) + "; "@) + r2;
            assert(s =~= before + (text::decimal(slot as nat) + r1));
            lemma_past(before, text::decimal(slot as nat) + r1);
            assert(r1[0] == between[0]);
            lemma_read_number(slot as nat, r1);
            lemma_past(between + text::decimal(i) + "; "@, r2);
            lemma_slots(before, between, i + 1, *more, rest);
        },
    }
}

proof fn lemma_count(x: IrValues, w: Words)
    ensures
        emit::value_texts(x, w.symbol, w.trap).len() == count_values(x),
    decreases x,
{
    match x {
        IrValues::End => {},
        IrValues::Num(_, rest) => {
            lemma_count(*rest, w);
        },
        IrValues::Flag(_, rest) => {
            lemma_count(*rest, w);
        },
    }
}

proof fn lemma_same_value(c: Ir, d: IrValues, a: Ir, b: IrValues)
    requires
        same_num(c, a),
        same_values(d, b),
    ensures
        same_values(
            IrValues::Num(Box::new(c), Box::new(d)),
            IrValues::Num(Box::new(a), Box::new(b)),
        ),
{
    let x = IrValues::Num(Box::new(c), Box::new(d));
    let y = IrValues::Num(Box::new(a), Box::new(b));
    assert forall|q: Sums, n: nat, r: Map<u16, u64>| #[trigger]
        meaning::i_values(q, n, r, x) == meaning::i_values(q, n, r, y) by {
        assert(meaning::i_num(q, n, r, c) == meaning::i_num(q, n, r, a));
        match meaning::i_num(q, n, r, a) {
            Ends::Num(_, r1) => {
                assert(meaning::i_values(q, n, r1, d) == meaning::i_values(q, n, r1, b));
            },
            _ => {},
        }
    }
}

proof fn lemma_same_truth(c: Cond, d: IrValues, a: Cond, b: IrValues)
    requires
        same_cond(c, a),
        same_values(d, b),
    ensures
        same_values(
            IrValues::Flag(Box::new(c), Box::new(d)),
            IrValues::Flag(Box::new(a), Box::new(b)),
        ),
{
    let x = IrValues::Flag(Box::new(c), Box::new(d));
    let y = IrValues::Flag(Box::new(a), Box::new(b));
    assert forall|q: Sums, n: nat, r: Map<u16, u64>| #[trigger]
        meaning::i_values(q, n, r, x) == meaning::i_values(q, n, r, y) by {
        assert(meaning::i_cond(q, n, r, c) == meaning::i_cond(q, n, r, a));
        match meaning::i_cond(q, n, r, a) {
            Ends::Truth(_, r1) => {
                assert(meaning::i_values(q, n, r1, d) == meaning::i_values(q, n, r1, b));
            },
            _ => {},
        }
    }
}

#[verifier::spinoff_prover]
proof fn lemma_values(
    k: nat,
    head: Seq<char>,
    i: nat,
    x: IrValues,
    w: Words,
    rest: Seq<char>,
)
    requires
        named(w),
        plain_values(x),
        k > temps_front(head, i, emit::value_texts(x, w.symbol, w.trap)).len(),
        past(head + text::decimal(i + count_values(x)) + ": f64 = "@, rest) is None,
    ensures
        got_values(
            read_values(
                w,
                k,
                head,
                i,
                temps_front(head, i, emit::value_texts(x, w.symbol, w.trap)) + rest,
            ),
            x,
            i + count_values(x),
            rest,
        ),
    decreases k, 2int,
{
    let all = emit::value_texts(x, w.symbol, w.trap);
    let s = temps_front(head, i, all) + rest;
    let start = head + text::decimal(i) + ": f64 = "@;
    reveal_strlit("; ");
    reveal_strlit(": f64 = ");
    reveal_strlit("rua_bool(");
    match x {
        IrValues::End => {
            assert(s =~= rest);
        },
        IrValues::Num(a, more) => {
            let ta = emit::ir_text(*a, w.symbol, w.trap);
            assert(all[0] == ta);
            assert(all.drop_first() =~= emit::value_texts(*more, w.symbol, w.trap));
            let r2 = temps_front(head, i + 1, emit::value_texts(*more, w.symbol, w.trap)) + rest;
            let r1 = "; "@ + r2;
            assert(s =~= start + (ta + r1));
            lemma_past(start, ta + r1);
            lemma_opens(*a, w);
            if ta[0] == 'r' {
                assert((ta + r1)[4] == 'r');
                lemma_not_past("rua_bool("@, ta + r1, 4);
            } else {
                assert((ta + r1)[0] == ta[0]);
                lemma_not_past("rua_bool("@, ta + r1, 0);
            }
            lemma_ends("; "@, r2);
            lemma_past("; "@, r2);
            lemma_num((k - 1) as nat, *a, w, r1);
            lemma_values((k - 1) as nat, head, i + 1, *more, w, rest);
            let c = read(w, (k - 1) as nat, ta + r1)->Some_0.0->Num_0;
            let d = read_values(w, (k - 1) as nat, head, i + 1, r2)->Some_0.0;
            lemma_same_value(c, d, *a, *more);
        },
        IrValues::Flag(a, more) => {
            let ta = emit::cond_text(*a, w.symbol, w.trap);
            assert(all[0] == "rua_bool("@ + ta + ")"@);
            assert(all.drop_first() =~= emit::value_texts(*more, w.symbol, w.trap));
            let r2 = temps_front(head, i + 1, emit::value_texts(*more, w.symbol, w.trap)) + rest;
            let r1 = "); "@ + r2;
            reveal_strlit(")");
            reveal_strlit("); ");
            assert(")"@ + "; "@ =~= "); "@);
            assert(s =~= start + ("rua_bool("@ + (ta + r1)));
            lemma_past(start, "rua_bool("@ + (ta + r1));
            lemma_past("rua_bool("@, ta + r1);
            lemma_past("); "@, r2);
            lemma_cond((k - 1) as nat, *a, w, r1);
            lemma_values((k - 1) as nat, head, i + 1, *more, w, rest);
            let c = read(w, (k - 1) as nat, ta + r1)->Some_0.0->Truth_0;
            let d = read_values(w, (k - 1) as nat, head, i + 1, r2)->Some_0.0;
            lemma_same_truth(c, d, *a, *more);
        },
    }
}

// ---- statements worth the same -------------------------------------------------------------

proof fn lemma_same_number_stat(op: BinOp, slot: u16, c: Ir, a: Ir)
    requires
        same_num(c, a),
    ensures
        same_stat(IrStat::Update(op, slot, c), IrStat::Update(op, slot, a)),
        same_stat(IrStat::Return(Some(c)), IrStat::Return(Some(a))),
        same_stat(IrStat::Discard(c), IrStat::Discard(a)),
{
    assert forall|q: Sums, n: nat, r: Map<u16, u64>| #[trigger]
        meaning::i_stat(q, n, r, IrStat::Update(op, slot, c)) == meaning::i_stat(
            q,
            n,
            r,
            IrStat::Update(op, slot, a),
        ) by {
        assert(meaning::i_num(q, n, r, c) == meaning::i_num(q, n, r, a));
    }
    assert forall|q: Sums, n: nat, r: Map<u16, u64>| #[trigger]
        meaning::i_stat(q, n, r, IrStat::Return(Some(c))) == meaning::i_stat(
            q,
            n,
            r,
            IrStat::Return(Some(a)),
        ) by {
        assert(meaning::i_num(q, n, r, c) == meaning::i_num(q, n, r, a));
    }
    assert forall|q: Sums, n: nat, r: Map<u16, u64>| #[trigger]
        meaning::i_stat(q, n, r, IrStat::Discard(c)) == meaning::i_stat(
            q,
            n,
            r,
            IrStat::Discard(a),
        ) by {
        assert(meaning::i_num(q, n, r, c) == meaning::i_num(q, n, r, a));
    }
}

proof fn lemma_same_binding(c: IrValues, a: IrValues, slots: IrSlots)
    requires
        same_values(c, a),
    ensures
        same_stat(IrStat::Let { values: c, slots }, IrStat::Let { values: a, slots }),
        same_stat(IrStat::Assign { values: c, slots }, IrStat::Assign { values: a, slots }),
{
    assert forall|q: Sums, n: nat, r: Map<u16, u64>| #[trigger]
        meaning::i_stat(q, n, r, IrStat::Let { values: c, slots }) == meaning::i_stat(
            q,
            n,
            r,
            IrStat::Let { values: a, slots },
        ) by {
        assert(meaning::i_values(q, n, r, c) == meaning::i_values(q, n, r, a));
    }
    assert forall|q: Sums, n: nat, r: Map<u16, u64>| #[trigger]
        meaning::i_stat(q, n, r, IrStat::Assign { values: c, slots }) == meaning::i_stat(
            q,
            n,
            r,
            IrStat::Assign { values: a, slots },
        ) by {
        assert(meaning::i_values(q, n, r, c) == meaning::i_values(q, n, r, a));
    }
}

proof fn lemma_same_rounds(
    q: Sums,
    n: nat,
    r: Map<u16, u64>,
    c: Option<Cond>,
    cb: IrBlock,
    a: Option<Cond>,
    b: IrBlock,
)
    requires
        same_block(cb, b),
        c is Some <==> a is Some,
        c is Some ==> same_cond(c->Some_0, a->Some_0),
    ensures
        meaning::i_while(q, n, r, c, cb) == meaning::i_while(q, n, r, a, b),
    decreases n,
{
    if n > 0 {
        let m = (n - 1) as nat;
        let test = match a {
            Some(x) => meaning::i_cond(q, m, r, x),
            None => Ends::Truth(true, r),
        };
        match c {
            Some(x) => {
                assert(meaning::i_cond(q, m, r, x) == meaning::i_cond(q, m, r, a->Some_0));
            },
            None => {},
        }
        match test {
            Ends::Truth(v, r1) => {
                assert(meaning::i_block(q, m, r1, cb) == meaning::i_block(q, m, r1, b));
                match meaning::i_block(q, m, r1, b) {
                    Ends::Done(r2) => {
                        lemma_same_rounds(q, m, r2, c, cb, a, b);
                    },
                    Ends::Out(x, r2) => {
                        lemma_same_rounds(q, m, r2, c, cb, a, b);
                    },
                    _ => {},
                }
            },
            _ => {},
        }
    }
}

proof fn lemma_same_loop(c: Cond, cb: IrBlock, a: Cond, b: IrBlock)
    requires
        same_block(cb, b),
        same_cond(c, a),
    ensures
        same_stat(IrStat::While(c, cb), IrStat::While(a, b)),
        same_stat(IrStat::Loop(cb), IrStat::Loop(b)),
{
    assert forall|q: Sums, n: nat, r: Map<u16, u64>| #[trigger]
        meaning::i_stat(q, n, r, IrStat::While(c, cb)) == meaning::i_stat(
            q,
            n,
            r,
            IrStat::While(a, b),
        ) by {
        lemma_same_rounds(q, n, r, Some(c), cb, Some(a), b);
    }
    assert forall|q: Sums, n: nat, r: Map<u16, u64>| #[trigger]
        meaning::i_stat(q, n, r, IrStat::Loop(cb)) == meaning::i_stat(
            q,
            n,
            r,
            IrStat::Loop(b),
        ) by {
        lemma_same_rounds(q, n, r, None, cb, None, b);
    }
}

proof fn lemma_same_count(
    q: Sums,
    n: nat,
    r: Map<u16, u64>,
    slot: u16,
    end: u64,
    inclusive: bool,
    label: u32,
    c: IrBlock,
    b: IrBlock,
)
    requires
        same_block(c, b),
    ensures
        meaning::i_count(q, n, r, slot, end, inclusive, label, c) == meaning::i_count(
            q,
            n,
            r,
            slot,
            end,
            inclusive,
            label,
            b,
        ),
        meaning::i_stepped(q, n, r, slot, end, inclusive, label, c) == meaning::i_stepped(
            q,
            n,
            r,
            slot,
            end,
            inclusive,
            label,
            b,
        ),
    decreases n,
{
    if n > 0 {
        let m = (n - 1) as nat;
        assert forall|r1: Map<u16, u64>|
            #[trigger] meaning::i_count(q, m, r1, slot, end, inclusive, label, c)
                == meaning::i_count(q, m, r1, slot, end, inclusive, label, b) by {
            lemma_same_count(q, m, r1, slot, end, inclusive, label, c, b);
        }
        assert forall|r1: Map<u16, u64>|
            #[trigger] meaning::i_stepped(q, n, r1, slot, end, inclusive, label, c)
                == meaning::i_stepped(q, n, r1, slot, end, inclusive, label, b) by {
            match meaning::i_local(r1, slot) {
                Ends::Num(v, _) => {
                    let r2 = r1.insert(slot, (q.bin)(BinOp::Add, v, crate::machine::ONE));
                    assert(meaning::i_count(q, m, r2, slot, end, inclusive, label, c)
                        == meaning::i_count(q, m, r2, slot, end, inclusive, label, b));
                },
                _ => {},
            }
        }
        assert(meaning::i_block(q, m, r, c) == meaning::i_block(q, m, r, b));
        match meaning::i_block(q, m, r, b) {
            Ends::Done(r1) => {
                assert(meaning::i_stepped(q, n, r1, slot, end, inclusive, label, c)
                    == meaning::i_stepped(q, n, r1, slot, end, inclusive, label, b));
            },
            Ends::Out(x, r1) => {
                assert(meaning::i_stepped(q, n, r1, slot, end, inclusive, label, c)
                    == meaning::i_stepped(q, n, r1, slot, end, inclusive, label, b));
            },
            _ => {},
        }
    }
}

proof fn lemma_same_for(
    slot: u16,
    inclusive: bool,
    label: u32,
    cs: Ir,
    ce: Ir,
    cb: IrBlock,
    start: Ir,
    end: Ir,
    body: IrBlock,
)
    requires
        same_num(cs, start),
        same_num(ce, end),
        same_block(cb, body),
    ensures
        same_stat(
            (IrStat::For { slot, start: cs, end: ce, inclusive, label, body: cb }),
            (IrStat::For { slot, start, end, inclusive, label, body }),
        ),
{
    let x = IrStat::For { slot, start: cs, end: ce, inclusive, label, body: cb };
    let y = IrStat::For { slot, start, end, inclusive, label, body };
    assert forall|q: Sums, n: nat, r: Map<u16, u64>| #[trigger]
        meaning::i_stat(q, n, r, x) == meaning::i_stat(q, n, r, y) by {
        assert(meaning::i_num(q, n, r, ce) == meaning::i_num(q, n, r, end));
        match meaning::i_num(q, n, r, end) {
            Ends::Num(w, r1) => {
                assert(meaning::i_num(q, n, r1, cs) == meaning::i_num(q, n, r1, start));
                match meaning::i_num(q, n, r1, start) {
                    Ends::Num(v, r2) => {
                        lemma_same_count(
                            q,
                            n,
                            r2.insert(slot, v),
                            slot,
                            w,
                            inclusive,
                            label,
                            cb,
                            body,
                        );
                    },
                    _ => {},
                }
            },
            _ => {},
        }
    }
}

proof fn lemma_same_next(c: IrStat, cb: IrBlock, a: IrStat, more: IrStats, tail: IrTail)
    requires
        same_stat(c, a),
        same_block(cb, (IrBlock { stats: more, tail })),
    ensures
        same_block(
            (IrBlock {
                stats: IrStats::Then(Box::new(c), Box::new(cb.stats)),
                tail: cb.tail,
            }),
            (IrBlock { stats: IrStats::Then(Box::new(a), Box::new(more)), tail }),
        ),
{
    let b = IrBlock { stats: more, tail };
    let x = IrBlock { stats: IrStats::Then(Box::new(c), Box::new(cb.stats)), tail: cb.tail };
    let y = IrBlock { stats: IrStats::Then(Box::new(a), Box::new(more)), tail };
    assert forall|q: Sums, n: nat, r: Map<u16, u64>| #[trigger]
        meaning::i_block(q, n, r, x) == meaning::i_block(q, n, r, y) by {
        assert(meaning::i_stat(q, n, r, c) == meaning::i_stat(q, n, r, a));
        assert(meaning::i_stats(q, n, r, x.stats) == match meaning::i_stat(q, n, r, c) {
            Ends::Done(r1) => meaning::i_stats(q, n, r1, cb.stats),
            other => meaning::passed(other),
        });
        assert(meaning::i_stats(q, n, r, y.stats) == match meaning::i_stat(q, n, r, a) {
            Ends::Done(r1) => meaning::i_stats(q, n, r1, more),
            other => meaning::passed(other),
        });
        match meaning::i_stat(q, n, r, a) {
            Ends::Done(r1) => {
                assert(meaning::i_block(q, n, r1, cb) == meaning::i_block(q, n, r1, b));
            },
            _ => {},
        }
    }
}

proof fn lemma_same_tail(c: IrTail, x: IrTail)
    requires
        forall|q: Sums, n: nat, r: Map<u16, u64>| #[trigger]
            meaning::i_tail(q, n, r, c) == meaning::i_tail(q, n, r, x),
    ensures
        same_block(
            (IrBlock { stats: IrStats::End, tail: c }),
            (IrBlock { stats: IrStats::End, tail: x }),
        ),
{
    let p = IrBlock { stats: IrStats::End, tail: c };
    let w = IrBlock { stats: IrStats::End, tail: x };
    assert forall|q: Sums, n: nat, r: Map<u16, u64>| #[trigger]
        meaning::i_block(q, n, r, p) == meaning::i_block(q, n, r, w) by {
        assert(meaning::i_tail(q, n, r, c) == meaning::i_tail(q, n, r, x));
        assert(meaning::i_stats(q, n, r, IrStats::End) == Ends::Done(r));
    }
}

// ---- statements read back ------------------------------------------------------------------

/// How a statement begins, where it has any text.
pub open spec fn opens_stat(s: Seq<char>) -> bool {
    &&& s.len() > 3
    &&& s[0] == 'l' || s[0] == 'v' || s[0] == 'r' || s[0] == 'b' || s[0] == 'c' || s[0] == 'w'
        || s[0] == '{' || s[0] == 'i'
    &&& s[0] == 'l' ==> s.len() > 6 && (s[1] == 'o' || s[5] == ' ' || s[6] == 't' || (s[6] == 'a'
        && s.len() > 7 && is_digit(s[7])))
}

/// A statement that is written as nothing does nothing.
proof fn lemma_same_nothing(x: IrStat, w: Words)
    requires
        plain_stat(x),
        x is Skip || x is Let || x is Assign,
        emit::stat_text(x, w.symbol, w.trap).len() == 0,
    ensures
        same_stat(IrStat::Skip, x),
{
    reveal_strlit("; ");
    let (values, slots) = match x {
        IrStat::Let { values, slots } => (values, slots),
        IrStat::Assign { values, slots } => (values, slots),
        _ => (IrValues::End, IrSlots::End),
    };
    lemma_count(values, w);
    if !(x is Skip) {
        let all = emit::value_texts(values, w.symbol, w.trap);
        lemma_temps("let __t"@, all);
        lemma_temps("let __a"@, all);
        assert(all.len() == 0);
        assert(values is End);
        assert(slots is End) by {
            match slots {
                IrSlots::End => {},
                IrSlots::Slot(slot, more) => {
                    assert(emit::slots_of(slots).len() > 0);
                },
            }
        }
        assert forall|q: Sums, n: nat, r: Map<u16, u64>| #[trigger]
            meaning::i_stat(q, n, r, IrStat::Skip) == meaning::i_stat(q, n, r, x) by {
            assert(meaning::i_values(q, n, r, values) == Ends::Many(Seq::empty(), r));
            assert(meaning::put_all(r, slots, Seq::empty()) == r);
        }
    }
}

#[verifier::spinoff_prover]
proof fn lemma_opens_stat(x: IrStat, w: Words)
    requires
        plain_stat(x),
    ensures
        emit::stat_text(x, w.symbol, w.trap).len() == 0 ==> x is Skip || x is Let || x is Assign,
        emit::stat_text(x, w.symbol, w.trap).len() > 0 ==> opens_stat(
            emit::stat_text(x, w.symbol, w.trap),
        ),
{
    reveal_strlit("");
    let t = emit::stat_text(x, w.symbol, w.trap);
    match x {
        IrStat::Let { values, slots } => {
            lemma_opens_binding(values, slots, w);
        },
        IrStat::Assign { values, slots } => {
            lemma_opens_binding(values, slots, w);
        },
        IrStat::Update(op, slot, a) => {
            reveal_strlit("v");
            reveal_strlit(" = rua_rem(v");
            reveal_strlit(";");
            reveal_strlit(" += ");
            reveal_strlit(" -= ");
            reveal_strlit(" *= ");
            reveal_strlit(" /= ");
            lemma_decimal(slot as nat);
            assert(t[0] == 'v');
        },
        IrStat::Return(None) => {
            reveal_strlit("return 0.0;");
        },
        IrStat::Return(Some(a)) => {
            reveal_strlit("return ");
            assert(t[0] == 'r');
        },
        IrStat::Break => {
            reveal_strlit("break;");
        },
        IrStat::Continue => {
            reveal_strlit("continue;");
        },
        IrStat::Leave(label) => {
            reveal_strlit("break 'body");
            assert(t[0] == 'b');
        },
        IrStat::While(c, b) => {
            reveal_strlit("while ");
            assert(t[0] == 'w');
        },
        IrStat::Loop(b) => {
            reveal_strlit("loop ");
            reveal_strlit("{ ");
            reveal_strlit(" }");
            assert(t[0] == 'l' && t[1] == 'o');
        },
        IrStat::For { slot, start, end, inclusive, label, body } => {
            reveal_strlit("{ let __end: f64 = ");
            assert(t[0] == '{');
        },
        IrStat::Discard(a) => {
            reveal_strlit("let _ = ");
            assert(t[0] == 'l' && t[5] == ' ');
        },
        IrStat::Block(b) => {
            reveal_strlit("{ ");
            reveal_strlit(" }");
            assert(t == emit::block_text(b, w.symbol, w.trap));
            assert(t[0] == '{');
        },
        IrStat::If(i) => {
            lemma_opens_cond(i.cond, w);
            reveal_strlit("if ");
            assert(t == emit::if_text(i, w.symbol, w.trap));
            assert(t[0] == 'i');
        },
        _ => {},
    }
}

proof fn lemma_opens_binding(
    values: IrValues,
    slots: IrSlots,
    w: Words,
)
    requires
        count_values(values) == emit::slots_of(slots).len(),
    ensures
        ({
            let t = emit::temps_text("let __t"@, emit::value_texts(values, w.symbol, w.trap))
                + emit::lets_text(emit::slots_of(slots));
            t.len() > 0 ==> opens_stat(t) && t[0] == 'l' && t[1] == 'e' && t[5] == '_' && t[6]
                == 't'
        }),
        ({
            let t = emit::temps_text("let __a"@, emit::value_texts(values, w.symbol, w.trap))
                + emit::sets_text(emit::slots_of(slots));
            t.len() > 0 ==> opens_stat(t) && t[0] == 'l' && t[1] == 'e' && t[5] == '_' && t[6]
                == 'a'
        }),
{
    reveal_strlit("");
    reveal_strlit("let __t");
    reveal_strlit("let __a");
    let all = emit::value_texts(values, w.symbol, w.trap);
    let names = emit::slots_of(slots);
    lemma_count(values, w);
    lemma_temps("let __t"@, all);
    lemma_temps("let __a"@, all);
    let t = emit::temps_text("let __t"@, all) + emit::lets_text(names);
    let u = emit::temps_text("let __a"@, all) + emit::sets_text(names);
    if all.len() > 0 {
        let front = temps_front("let __t"@, 0, all);
        assert(front[0] == 'l' && front[1] == 'e' && front[5] == '_' && front[6] == 't');
        assert(t[0] == front[0] && t[1] == front[1] && t[5] == front[5] && t[6] == front[6]);
        let back = temps_front("let __a"@, 0, all);
        assert(back[0] == 'l' && back[1] == 'e' && back[5] == '_' && back[6] == 'a');
        lemma_decimal(0);
        assert(back[7] == text::decimal(0)[0]);
        assert(u[0] == back[0] && u[1] == back[1] && u[5] == back[5] && u[6] == back[6] && u[7]
            == back[7]);
    } else {
        assert(t.len() == 0);
        assert(u.len() == 0);
    }
}

/// The operators that update are written as Rust's own.
proof fn lemma_update(op: BinOp, rest: Seq<char>)
    requires
        is_arithmetic(op),
    ensures
        update(emit::update_text(op) + rest) == Some((op, rest)),
        ends(emit::update_text(op) + rest),
        emit::update_text(op).len() == 4,
        (emit::update_text(op) + rest)[0] == ' ',
        (emit::update_text(op) + rest)[1] != '=',
        (emit::update_text(op) + rest)[1] != '}',
{
    reveal_strlit(" += ");
    reveal_strlit(" -= ");
    reveal_strlit(" *= ");
    reveal_strlit(" /= ");
    assert((emit::update_text(op) + rest).skip(4) =~= rest);
}

proof fn lemma_assoc(x: Seq<char>, y: Seq<char>, z: Seq<char>)
    ensures
        (x + y) + z == x + (y + z),
{
    assert((x + y) + z =~= x + (y + z));
}

#[verifier::spinoff_prover]
proof fn lemma_read_rem(w: Words, k: nat, slot: u16, ta: Seq<char>, rest: Seq<char>, c: Ir)
    requires
        k > 1,
        read(w, (k - 1) as nat, ta + (");"@ + rest)) == Some((Term::Num(c), ");"@ + rest)),
    ensures
        ({
            let s = ("v"@ + text::decimal(slot as nat)) + ((" = rua_rem(v"@ + text::decimal(
                slot as nat,
            ) + ", "@) + (ta + (");"@ + rest)));
            &&& read_stat(w, k, s) == Some((IrStat::Update(BinOp::Rem, slot, c), rest))
            &&& !starts_value(s)
        }),
{
    let again = " = rua_rem(v"@ + text::decimal(slot as nat) + ", "@;
    let r0 = again + (ta + (");"@ + rest));
    let s = ("v"@ + text::decimal(slot as nat)) + r0;
    assert(again.len() > 11 && again[0] == ' ' && again[1] == '=') by {
        reveal_strlit(" = rua_rem(v");
    }
    assert(r0[0] == again[0] && r0[1] == again[1]);
    assert(s.len() >= 7);
    lemma_local(w, k, slot, r0);
    lemma_past(again, ta + (");"@ + rest));
    lemma_past(");"@, rest);
    assert(past(" }"@, r0) is None) by {
        reveal_strlit(" }");
        lemma_not_past(" }"@, r0, 1);
    }
}

#[verifier::spinoff_prover]
proof fn lemma_read_update(w: Words, k: nat, op: BinOp, slot: u16, ta: Seq<char>, rest: Seq<char>, c: Ir)
    requires
        k > 1,
        is_arithmetic(op),
        ta.len() > 1,
        read(w, (k - 1) as nat, ta + (";"@ + rest)) == Some((Term::Num(c), ";"@ + rest)),
    ensures
        ({
            let s = ("v"@ + text::decimal(slot as nat)) + (emit::update_text(op) + (ta + (";"@
                + rest)));
            &&& read_stat(w, k, s) == Some((IrStat::Update(op, slot, c), rest))
            &&& !starts_value(s)
        }),
{
    let r0 = emit::update_text(op) + (ta + (";"@ + rest));
    let s = ("v"@ + text::decimal(slot as nat)) + r0;
    lemma_update(op, ta + (";"@ + rest));
    lemma_decimal(slot as nat);
    reveal_strlit("v");
    assert(s.len() >= 7);
    lemma_local(w, k, slot, r0);
    let again = " = rua_rem(v"@ + text::decimal(slot as nat) + ", "@;
    assert(past(again, r0) is None) by {
        reveal_strlit(" = rua_rem(v");
        assert(again[1] == '=');
        lemma_not_past(again, r0, 1);
    }
    lemma_past(";"@, rest);
    assert(past(" }"@, r0) is None) by {
        reveal_strlit(" }");
        lemma_not_past(" }"@, r0, 1);
    }
}

#[verifier::spinoff_prover]
proof fn lemma_update_stat(
    k: nat,
    op: BinOp,
    slot: u16,
    a: Ir,
    w: Words,
    rest: Seq<char>,
)
    requires
        named(w),
        plain_stat(IrStat::Update(op, slot, a)),
        k > emit::stat_text(IrStat::Update(op, slot, a), w.symbol, w.trap).len(),
        rest.len() > 0,
    ensures
        got_stat(
            read_stat(w, k, emit::stat_text(IrStat::Update(op, slot, a), w.symbol, w.trap) + rest),
            IrStat::Update(op, slot, a),
            rest,
        ),
        !starts_value(emit::stat_text(IrStat::Update(op, slot, a), w.symbol, w.trap) + rest),
    decreases k, 1int,
{
    let t = emit::stat_text(IrStat::Update(op, slot, a), w.symbol, w.trap);
    let ta = emit::ir_text(a, w.symbol, w.trap);
    let d = text::decimal(slot as nat);
    let name = "v"@ + d;
    lemma_decimal(slot as nat);
    lemma_opens(a, w);
    if op == BinOp::Rem {
        reveal_strlit(");");
        let again = " = rua_rem(v"@ + d + ", "@;
        let r1 = ");"@ + rest;
        assert(t == name + " = rua_rem(v"@ + d + ", "@ + ta + ");"@);
        lemma_assoc(name + " = rua_rem(v"@ + d + ", "@ + ta, ");"@, rest);
        lemma_assoc(name + " = rua_rem(v"@ + d + ", "@, ta, r1);
        lemma_assoc(name + " = rua_rem(v"@, d, ", "@);
        lemma_assoc(name, " = rua_rem(v"@, d + ", "@);
        lemma_assoc(" = rua_rem(v"@, d, ", "@);
        lemma_assoc(name, again, ta + r1);
        assert(t + rest == name + (again + (ta + r1)));
        lemma_ends(");"@, rest);
        lemma_num((k - 1) as nat, a, w, r1);
        let c = read(w, (k - 1) as nat, ta + r1)->Some_0.0->Num_0;
        lemma_read_rem(w, k, slot, ta, rest, c);
        lemma_same_number_stat(op, slot, c, a);
    } else {
        reveal_strlit(";");
        let r1 = ";"@ + rest;
        assert(t == name + emit::update_text(op) + ta + ";"@);
        lemma_assoc(name + emit::update_text(op) + ta, ";"@, rest);
        lemma_assoc(name + emit::update_text(op), ta, r1);
        lemma_assoc(name, emit::update_text(op), ta + r1);
        assert(t + rest == name + (emit::update_text(op) + (ta + r1)));
        lemma_ends(";"@, rest);
        lemma_num((k - 1) as nat, a, w, r1);
        let c = read(w, (k - 1) as nat, ta + r1)->Some_0.0->Num_0;
        lemma_read_update(w, k, op, slot, ta, rest, c);
        lemma_same_number_stat(op, slot, c, a);
    }
}

#[verifier::spinoff_prover]
proof fn lemma_leaving(k: nat, x: IrStat, w: Words, rest: Seq<char>)
    requires
        named(w),
        plain_stat(x),
        x is Return || x is Discard || x is Break || x is Continue || x is Leave,
        k > emit::stat_text(x, w.symbol, w.trap).len(),
        rest.len() > 0,
    ensures
        got_stat(read_stat(w, k, emit::stat_text(x, w.symbol, w.trap) + rest), x, rest),
        !starts_value(emit::stat_text(x, w.symbol, w.trap) + rest),
    decreases k, 1int,
{
    let t = emit::stat_text(x, w.symbol, w.trap);
    let s = t + rest;
    reveal_strlit(";");
    lemma_past(";"@, rest);
    lemma_ends(";"@, rest);
    let r1 = ";"@ + rest;
    match x {
        IrStat::Return(None) => {
            reveal_strlit("return 0.0;");
            reveal_strlit("return ");
            reveal_strlit("0.0;");
            assert(s =~= "return "@ + ("0.0;"@ + rest));
            lemma_past("return "@, "0.0;"@ + rest);
            lemma_past("0.0;"@, rest);
            assert(s[0] == 'r' && s[1] == 'e');
        },
        IrStat::Return(Some(a)) => {
            let ta = emit::ir_text(a, w.symbol, w.trap);
            reveal_strlit("return ");
            reveal_strlit("0.0;");
            lemma_opens(a, w);
            assert(s =~= "return "@ + (ta + r1));
            assert(s[0] == 'r' && s[1] == 'e');
            lemma_past("return "@, ta + r1);
            assert((ta + r1)[0] == ta[0]);
            lemma_not_past("0.0;"@, ta + r1, 0);
            lemma_num((k - 1) as nat, a, w, r1);
            let c = read(w, (k - 1) as nat, ta + r1)->Some_0.0->Num_0;
            lemma_same_number_stat(BinOp::Add, 0, c, a);
        },
        IrStat::Discard(a) => {
            let ta = emit::ir_text(a, w.symbol, w.trap);
            reveal_strlit("let _ = ");
            lemma_opens(a, w);
            assert(s =~= "let _ = "@ + (ta + r1));
            assert(s[0] == 'l' && s[1] == 'e' && s[5] == ' ');
            lemma_past("let _ = "@, ta + r1);
            lemma_num((k - 1) as nat, a, w, r1);
            let c = read(w, (k - 1) as nat, ta + r1)->Some_0.0->Num_0;
            lemma_same_number_stat(BinOp::Add, 0, c, a);
        },
        IrStat::Break => {
            reveal_strlit("break;");
            assert(s[0] == 'b' && s[5] == ';');
            lemma_past("break;"@, rest);
        },
        IrStat::Continue => {
            reveal_strlit("continue;");
            assert(s[0] == 'c');
            lemma_past("continue;"@, rest);
        },
        IrStat::Leave(label) => {
            reveal_strlit("break 'body");
            lemma_decimal(label as nat);
            assert(s =~= "break 'body"@ + (text::decimal(label as nat) + r1));
            assert(s[0] == 'b' && s[5] == ' ');
            lemma_past("break 'body"@, text::decimal(label as nat) + r1);
            lemma_read_number(label as nat, r1);
        },
        _ => {},
    }
}

#[verifier::spinoff_prover]
proof fn lemma_looping(k: nat, x: IrStat, w: Words, rest: Seq<char>)
    requires
        named(w),
        plain_stat(x),
        x is While || x is Loop,
        k > emit::stat_text(x, w.symbol, w.trap).len(),
        rest.len() > 0,
    ensures
        got_stat(read_stat(w, k, emit::stat_text(x, w.symbol, w.trap) + rest), x, rest),
        !starts_value(emit::stat_text(x, w.symbol, w.trap) + rest),
    decreases k, 1int,
{
    let t = emit::stat_text(x, w.symbol, w.trap);
    let s = t + rest;
    match x {
        IrStat::While(c, b) => {
            let tc = emit::cond_text(c, w.symbol, w.trap);
            let tb = emit::block_text(b, w.symbol, w.trap);
            reveal_strlit("while ");
            reveal_strlit(" ");
            lemma_opens_cond(c, w);
            let r1 = " "@ + (tb + rest);
            assert(s =~= "while "@ + (tc + r1));
            assert(s[0] == 'w');
            lemma_past("while "@, tc + r1);
            lemma_past(" "@, tb + rest);
            lemma_cond((k - 1) as nat, c, w, r1);
            lemma_block((k - 1) as nat, b, w, rest);
            let cc = read(w, (k - 1) as nat, tc + r1)->Some_0.0->Truth_0;
            let cb = read_block(w, (k - 1) as nat, tb + rest)->Some_0.0;
            lemma_same_loop(cc, cb, c, b);
        },
        IrStat::Loop(b) => {
            let tb = emit::block_text(b, w.symbol, w.trap);
            reveal_strlit("loop ");
            reveal_strlit("{ ");
            reveal_strlit(" }");
            assert(s =~= "loop "@ + (tb + rest));
            assert(s[0] == 'l' && s[1] == 'o');
            lemma_past("loop "@, tb + rest);
            lemma_block((k - 1) as nat, b, w, rest);
            let cb = read_block(w, (k - 1) as nat, tb + rest)->Some_0.0;
            lemma_same_loop(Cond::Lit(true), cb, Cond::Lit(true), b);
        },
        _ => {},
    }
}

/// What is bound comes after what it is bound to.
proof fn lemma_names_follow(values: IrValues, slots: IrSlots, rest: Seq<char>)
    requires
        count_values(values) == emit::slots_of(slots).len(),
        count_values(values) > 0,
    ensures
        past(
            "let __t"@ + text::decimal(count_values(values)) + ": f64 = "@,
            slots_front("let mut v"@, ": f64 = __t"@, 0, emit::slots_of(slots)) + rest,
        ) is None,
        past(
            "let __a"@ + text::decimal(count_values(values)) + ": f64 = "@,
            slots_front("v"@, " = __a"@, 0, emit::slots_of(slots)) + rest,
        ) is None,
        slots_front("let mut v"@, ": f64 = __t"@, 0, emit::slots_of(slots)).len() > 0,
        slots_front("v"@, " = __a"@, 0, emit::slots_of(slots)).len() > 0,
{
    reveal_strlit("let __t");
    reveal_strlit("let __a");
    reveal_strlit("let mut v");
    reveal_strlit("v");
    let names = emit::slots_of(slots);
    let p = slots_front("let mut v"@, ": f64 = __t"@, 0, names);
    let w = slots_front("v"@, " = __a"@, 0, names);
    assert(p[4] == 'm');
    assert(w[0] == 'v');
    assert((p + rest)[4] == 'm');
    assert((w + rest)[0] == 'v');
    let a = "let __t"@ + text::decimal(count_values(values)) + ": f64 = "@;
    let b = "let __a"@ + text::decimal(count_values(values)) + ": f64 = "@;
    assert(a[4] == '_' && b[0] == 'l');
    lemma_not_past(a, p + rest, 4);
    lemma_not_past(b, w + rest, 0);
}

#[verifier::spinoff_prover]
proof fn lemma_let(
    k: nat,
    values: IrValues,
    slots: IrSlots,
    w: Words,
    rest: Seq<char>,
)
    requires
        named(w),
        plain_values(values),
        count_values(values) == emit::slots_of(slots).len(),
        count_values(values) > 0,
        k > (emit::temps_text("let __t"@, emit::value_texts(values, w.symbol, w.trap))
            + emit::lets_text(emit::slots_of(slots))).len(),
    ensures
        got_stat(
            read_stat(
                w,
                k,
                emit::temps_text("let __t"@, emit::value_texts(values, w.symbol, w.trap))
                    + emit::lets_text(emit::slots_of(slots)) + rest,
            ),
            (IrStat::Let { values, slots }),
            rest,
        ),
        !starts_value(
            emit::temps_text("let __t"@, emit::value_texts(values, w.symbol, w.trap))
                + emit::lets_text(emit::slots_of(slots)) + rest,
        ),
    decreases k, 0int,
{
    let all = emit::value_texts(values, w.symbol, w.trap);
    let names = emit::slots_of(slots);
    let temps = emit::temps_text("let __t"@, all);
    let lets = emit::lets_text(names);
    let t = temps + lets;
    let s = t + rest;
    lemma_temps("let __t"@, all);
    lemma_bound(names);
    lemma_names_follow(values, slots, rest);
    lemma_assoc(temps, lets, rest);
    let rest1 = lets + rest;
    assert(s == temps + rest1);
    lemma_opens_binding(values, slots, w);
    assert(t.len() > 6 && s[0] == t[0] && s[1] == t[1] && s[5] == t[5] && s[6] == t[6]);
    assert(!is_digit(": f64 = __t"@[0]) && ": f64 = __t"@.len() > 0) by {
        reveal_strlit(": f64 = __t");
    }
    lemma_values((k - 1) as nat, "let __t"@, 0, values, w, rest1);
    lemma_slots("let mut v"@, ": f64 = __t"@, 0, slots, rest);
    let c = read_values(w, (k - 1) as nat, "let __t"@, 0, s)->Some_0.0;
    lemma_same_binding(c, values, slots);
}

#[verifier::spinoff_prover]
proof fn lemma_assign(
    k: nat,
    values: IrValues,
    slots: IrSlots,
    w: Words,
    rest: Seq<char>,
)
    requires
        named(w),
        plain_values(values),
        count_values(values) == emit::slots_of(slots).len(),
        count_values(values) > 0,
        k > (emit::temps_text("let __a"@, emit::value_texts(values, w.symbol, w.trap))
            + emit::sets_text(emit::slots_of(slots))).len(),
    ensures
        got_stat(
            read_stat(
                w,
                k,
                emit::temps_text("let __a"@, emit::value_texts(values, w.symbol, w.trap))
                    + emit::sets_text(emit::slots_of(slots)) + rest,
            ),
            (IrStat::Assign { values, slots }),
            rest,
        ),
        !starts_value(
            emit::temps_text("let __a"@, emit::value_texts(values, w.symbol, w.trap))
                + emit::sets_text(emit::slots_of(slots)) + rest,
        ),
    decreases k, 0int,
{
    let all = emit::value_texts(values, w.symbol, w.trap);
    let names = emit::slots_of(slots);
    let temps = emit::temps_text("let __a"@, all);
    let sets = emit::sets_text(names);
    let t = temps + sets;
    let s = t + rest;
    lemma_temps("let __a"@, all);
    lemma_bound(names);
    lemma_names_follow(values, slots, rest);
    lemma_assoc(temps, sets, rest);
    let rest1 = sets + rest;
    assert(s == temps + rest1);
    lemma_opens_binding(values, slots, w);
    assert(t.len() > 6 && s[0] == t[0] && s[1] == t[1] && s[5] == t[5] && s[6] == t[6]);
    assert(!is_digit(" = __a"@[0]) && " = __a"@.len() > 0) by {
        reveal_strlit(" = __a");
    }
    lemma_values((k - 1) as nat, "let __a"@, 0, values, w, rest1);
    lemma_slots("v"@, " = __a"@, 0, slots, rest);
    let c = read_values(w, (k - 1) as nat, "let __a"@, 0, s)->Some_0.0;
    lemma_same_binding(c, values, slots);
}

proof fn lemma_binding(k: nat, x: IrStat, w: Words, rest: Seq<char>)
    requires
        named(w),
        plain_stat(x),
        x is Let || x is Assign,
        emit::stat_text(x, w.symbol, w.trap).len() > 0,
        k > emit::stat_text(x, w.symbol, w.trap).len(),
        rest.len() > 0,
    ensures
        got_stat(read_stat(w, k, emit::stat_text(x, w.symbol, w.trap) + rest), x, rest),
        !starts_value(emit::stat_text(x, w.symbol, w.trap) + rest),
    decreases k, 1int,
{
    reveal_strlit("");
    match x {
        IrStat::Let { values, slots } => {
            lemma_count(values, w);
            assert(count_values(values) > 0);
            lemma_let(k, values, slots, w, rest);
        },
        IrStat::Assign { values, slots } => {
            lemma_count(values, w);
            assert(count_values(values) > 0);
            lemma_assign(k, values, slots, w, rest);
        },
        _ => {},
    }
}

proof fn lemma_until(inclusive: bool, rest: Seq<char>)
    requires
        rest.len() > 0,
    ensures
        infix(emit::until_text(inclusive) + rest) == Some(
            (
                if inclusive {
                    BinOp::Le
                } else {
                    BinOp::Lt
                },
                rest,
            ),
        ),
        (emit::until_text(inclusive) + rest)[0] == ' ',
{
    reveal_strlit(" <= ");
    reveal_strlit(" < ");
    assert((emit::until_text(inclusive) + rest).skip(
        emit::until_text(inclusive).len() as int,
    ) =~= rest);
}

/// A counted loop, from behind its end and its start.
#[verifier::spinoff_prover]
proof fn lemma_read_turns(
    w: Words,
    k: nat,
    slot: u16,
    start: Ir,
    end: Ir,
    inclusive: bool,
    label: u32,
    tb: Seq<char>,
    body: IrBlock,
    rest: Seq<char>,
)
    requires
        read_block(
            w,
            k,
            tb + ((" v"@ + text::decimal(slot as nat) + " += 1.0; } }"@) + rest),
        ) == Some((body, (" v"@ + text::decimal(slot as nat) + " += 1.0; } }"@) + rest)),
    ensures
        read_turns(
            w,
            k,
            slot as nat,
            start,
            end,
            if inclusive {
                BinOp::Le
            } else {
                BinOp::Lt
            },
            "__end { 'body"@ + (text::decimal(label as nat) + (": "@ + (tb + ((" v"@
                + text::decimal(slot as nat) + " += 1.0; } }"@) + rest)))),
        ) == Some((IrStat::For { slot, start, end, inclusive, label, body }, rest)),
{
    let last = " v"@ + text::decimal(slot as nat) + " += 1.0; } }"@;
    let r8 = ": "@ + (tb + (last + rest));
    assert(r8.len() > 0 && !is_digit(r8[0])) by {
        reveal_strlit(": ");
    }
    lemma_past("__end { 'body"@, text::decimal(label as nat) + r8);
    lemma_read_number(label as nat, r8);
    lemma_past(": "@, tb + (last + rest));
    lemma_past(last, rest);
}

/// A counted loop, from its beginning to its turns.
#[verifier::spinoff_prover]
proof fn lemma_read_for(
    w: Words,
    k: nat,
    slot: u16,
    te: Seq<char>,
    ts: Seq<char>,
    start: Ir,
    end: Ir,
    inclusive: bool,
    r7: Seq<char>,
)
    requires
        r7.len() > 0,
        ({
            let r5 = ("; while v"@ + text::decimal(slot as nat)) + (emit::until_text(inclusive)
                + r7);
            let r1 = "; let mut v"@ + (text::decimal(slot as nat) + (": f64 = "@ + (ts + r5)));
            &&& read(w, k, te + r1) == Some((Term::Num(end), r1))
            &&& read(w, k, ts + r5) == Some((Term::Num(start), r5))
        }),
    ensures
        read_for(
            w,
            k,
            "{ let __end: f64 = "@ + (te + ("; let mut v"@ + (text::decimal(slot as nat) + (
            ": f64 = "@ + (ts + (("; while v"@ + text::decimal(slot as nat)) + (emit::until_text(
                inclusive,
            ) + r7))))))),
        ) == read_turns(
            w,
            k,
            slot as nat,
            start,
            end,
            if inclusive {
                BinOp::Le
            } else {
                BinOp::Lt
            },
            r7,
        ),
{
    let d = text::decimal(slot as nat);
    let r6 = emit::until_text(inclusive) + r7;
    let turn = "; while v"@ + d;
    let r5 = turn + r6;
    let r3 = ": f64 = "@ + (ts + r5);
    let r1 = "; let mut v"@ + (d + r3);
    assert(r3.len() > 0 && !is_digit(r3[0])) by {
        reveal_strlit(": f64 = ");
    }
    lemma_past("{ let __end: f64 = "@, te + r1);
    lemma_past("; let mut v"@, d + r3);
    lemma_read_number(slot as nat, r3);
    lemma_past(": f64 = "@, ts + r5);
    lemma_past(turn, r6);
    lemma_until(inclusive, r7);
}

/// The text of a counted loop, from the front.
#[verifier::spinoff_prover]
proof fn lemma_for_text(
    d: Seq<char>,
    te: Seq<char>,
    ts: Seq<char>,
    until: Seq<char>,
    dl: Seq<char>,
    tb: Seq<char>,
    rest: Seq<char>,
)
    ensures
        "{ let __end: f64 = "@ + te + "; let mut v"@ + d + ": f64 = "@ + ts + "; while v"@ + d + until
            + "__end { 'body"@ + dl + ": "@ + tb + " v"@ + d + " += 1.0; } }"@ + rest
            == "{ let __end: f64 = "@ + (te + ("; let mut v"@ + (d + (": f64 = "@ + (ts + ((
        "; while v"@ + d) + (until + ("__end { 'body"@ + (dl + (": "@ + (tb + ((" v"@ + d
            + " += 1.0; } }"@) + rest)))))))))))),
{
    let x1 = "{ let __end: f64 = "@ + te;
    let x2 = x1 + "; let mut v"@;
    let x3 = x2 + d;
    let x4 = x3 + ": f64 = "@;
    let x5 = x4 + ts;
    let x6 = x5 + "; while v"@;
    let x7 = x6 + d;
    let x8 = x7 + until;
    let x9 = x8 + "__end { 'body"@;
    let x10 = x9 + dl;
    let x11 = x10 + ": "@;
    let x12 = x11 + tb;
    let x13 = x12 + " v"@;
    let x14 = x13 + d;
    let last = " v"@ + d + " += 1.0; } }"@;
    lemma_assoc(x13, d, " += 1.0; } }"@);
    lemma_assoc(x12, " v"@, d + " += 1.0; } }"@);
    lemma_assoc(" v"@, d, " += 1.0; } }"@);
    assert(x14 + " += 1.0; } }"@ == x12 + last);
    let r9 = last + rest;
    lemma_assoc(x12, last, rest);
    lemma_assoc(x11, tb, r9);
    let r8 = ": "@ + (tb + r9);
    lemma_assoc(x10, ": "@, tb + r9);
    lemma_assoc(x9, dl, r8);
    let r7 = "__end { 'body"@ + (dl + r8);
    lemma_assoc(x8, "__end { 'body"@, dl + r8);
    let r6 = until + r7;
    lemma_assoc(x7, until, r7);
    lemma_assoc(x5, "; while v"@, d);
    lemma_assoc(x5, "; while v"@ + d, r6);
    let r5 = ("; while v"@ + d) + r6;
    lemma_assoc(x4, ts, r5);
    lemma_assoc(x3, ": f64 = "@, ts + r5);
    let r3 = ": f64 = "@ + (ts + r5);
    lemma_assoc(x2, d, r3);
    lemma_assoc(x1, "; let mut v"@, d + r3);
    lemma_assoc("{ let __end: f64 = "@, te, "; let mut v"@ + (d + r3));
}

proof fn lemma_for_length(
    d: Seq<char>,
    te: Seq<char>,
    ts: Seq<char>,
    until: Seq<char>,
    dl: Seq<char>,
    tb: Seq<char>,
)
    ensures
        ("{ let __end: f64 = "@ + te + "; let mut v"@ + d + ": f64 = "@ + ts + "; while v"@ + d + until
            + "__end { 'body"@ + dl + ": "@ + tb + " v"@ + d + " += 1.0; } }"@).len() >= 7
            + te.len() + ts.len() + tb.len(),
{
    reveal_strlit("{ let __end: f64 = ");
}

/// How a counted loop is told from other statements.
#[verifier::spinoff_prover]
proof fn lemma_is_for(w: Words, k: nat, more: Seq<char>)
    requires
        k > 0,
    ensures
        read_stat(w, k, "{ let __end: f64 = "@ + more) == read_for(
            w,
            (k - 1) as nat,
            "{ let __end: f64 = "@ + more,
        ),
        !starts_value("{ let __end: f64 = "@ + more),
{
    reveal_strlit("{ let __end: f64 = ");
    reveal_strlit("{ let __end");
    let s = "{ let __end: f64 = "@ + more;
    let tail = "{ let __end: f64 = "@.skip("{ let __end"@.len() as int);
    assert("{ let __end: f64 = "@ =~= "{ let __end"@ + tail);
    lemma_assoc("{ let __end"@, tail, more);
    lemma_past("{ let __end"@, tail + more);
    assert(s[0] == '{');
}

#[verifier::spinoff_prover]
#[verifier::rlimit(60)]
proof fn lemma_counting(k: nat, x: IrStat, w: Words, rest: Seq<char>)
    requires
        named(w),
        plain_stat(x),
        x is For,
        k > emit::stat_text(x, w.symbol, w.trap).len(),
        rest.len() > 0,
    ensures
        got_stat(read_stat(w, k, emit::stat_text(x, w.symbol, w.trap) + rest), x, rest),
        !starts_value(emit::stat_text(x, w.symbol, w.trap) + rest),
    decreases k, 1int,
{
    let t = emit::stat_text(x, w.symbol, w.trap);
    let s = t + rest;
    match x {
        IrStat::For { slot, start, end, inclusive, label, body } => {
            let te = emit::ir_text(end, w.symbol, w.trap);
            let ts = emit::ir_text(start, w.symbol, w.trap);
            let tb = emit::block_text(body, w.symbol, w.trap);
            let d = text::decimal(slot as nat);
            let dl = text::decimal(label as nat);
            let last = " v"@ + d + " += 1.0; } }"@;
            let r9 = last + rest;
            let r7 = "__end { 'body"@ + (dl + (": "@ + (tb + r9)));
            let r6 = emit::until_text(inclusive) + r7;
            let turn = "; while v"@ + d;
            let r5 = turn + r6;
            let r1 = "; let mut v"@ + (d + (": f64 = "@ + (ts + r5)));
            lemma_for_text(d, te, ts, emit::until_text(inclusive), dl, tb, rest);
            assert(s == "{ let __end: f64 = "@ + (te + r1));
            lemma_opens(end, w);
            lemma_opens(start, w);
            lemma_for_length(d, te, ts, emit::until_text(inclusive), dl, tb);
            assert(ends(r1)) by {
                reveal_strlit("; let mut v");
            }
            assert(ends(r5)) by {
                reveal_strlit("; while v");
                assert(turn[0] == ';');
                assert(r5[0] == ';');
            }
            lemma_num((k - 1) as nat, end, w, r1);
            lemma_num((k - 1) as nat, start, w, r5);
            lemma_block((k - 1) as nat, body, w, r9);
            let ce = read(w, (k - 1) as nat, te + r1)->Some_0.0->Num_0;
            let cs = read(w, (k - 1) as nat, ts + r5)->Some_0.0->Num_0;
            let cb = read_block(w, (k - 1) as nat, tb + r9)->Some_0.0;
            lemma_same_for(slot, inclusive, label, cs, ce, cb, start, end, body);
            assert(r7.len() > 0) by {
                reveal_strlit("__end { 'body");
            }
            lemma_read_for(w, (k - 1) as nat, slot, te, ts, cs, ce, inclusive, r7);
            lemma_read_turns(w, (k - 1) as nat, slot, cs, ce, inclusive, label, tb, cb, rest);
            lemma_is_for(w, k, te + r1);
        },
        _ => {},
    }
}

/// A statement that is written down and is no expression.
proof fn lemma_stat(k: nat, x: IrStat, w: Words, rest: Seq<char>)
    requires
        named(w),
        plain_stat(x),
        !(x is Block),
        !(x is If),
        emit::stat_text(x, w.symbol, w.trap).len() > 0,
        k > emit::stat_text(x, w.symbol, w.trap).len(),
        rest.len() > 0,
    ensures
        got_stat(read_stat(w, k, emit::stat_text(x, w.symbol, w.trap) + rest), x, rest),
        !starts_value(emit::stat_text(x, w.symbol, w.trap) + rest),
    decreases k, 2int,
{
    reveal_strlit("");
    match x {
        IrStat::Let { .. } => {
            lemma_binding(k, x, w, rest);
        },
        IrStat::Assign { .. } => {
            lemma_binding(k, x, w, rest);
        },
        IrStat::Update(op, slot, a) => {
            lemma_update_stat(k, op, slot, a, w, rest);
        },
        IrStat::While(..) => {
            lemma_looping(k, x, w, rest);
        },
        IrStat::Loop(..) => {
            lemma_looping(k, x, w, rest);
        },
        IrStat::For { .. } => {
            lemma_counting(k, x, w, rest);
        },
        IrStat::Skip => {},
        _ => {
            lemma_leaving(k, x, w, rest);
        },
    }
}

// ---- blocks --------------------------------------------------------------------------------

spec fn body_text(stats: IrStats, tail: IrTail, w: Words) -> Seq<char> {
    emit::stats_text(stats, w.symbol, w.trap) + emit::tail_text(tail, w.symbol, w.trap) + " }"@
}

/// How what is in a block begins.
spec fn opens_body(s: Seq<char>) -> bool {
    &&& s.len() > 1
    &&& s[0] != 'e' && s[0] != '}' && !is_digit(s[0])
    &&& s[0] == 'l' ==> s.len() > 6 && (s[1] == 'o' || s[5] == ' ' || s[6] == 't' || (s[6] == 'a'
        && s.len() > 7 && is_digit(s[7])))
}

proof fn lemma_opens_body(stats: IrStats, tail: IrTail, w: Words)
    requires
        plain_stats(stats),
        plain_tail(tail),
    ensures
        opens_body(body_text(stats, tail, w)),
{
    reveal_strlit("");
    reveal_strlit(" ");
    reveal_strlit(" }");
    let s = body_text(stats, tail, w);
    match stats {
        IrStats::Then(a, more) => {
            let t = emit::stat_text(*a, w.symbol, w.trap);
            lemma_opens_stat(*a, w);
            assert(s =~= t + (" "@ + body_text(*more, tail, w)));
            if t.len() > 0 {
                assert(s[0] == t[0] && s[1] == t[1]);
                if t[0] == 'l' {
                    assert(s[5] == t[5] && s[6] == t[6]);
                    if t.len() > 7 {
                        assert(s[7] == t[7]);
                    }
                }
            } else {
                assert(s[0] == ' ');
            }
        },
        IrStats::End => {
            let t = emit::tail_text(tail, w.symbol, w.trap);
            assert(s =~= t + " }"@);
            match tail {
                IrTail::Nothing => {},
                IrTail::Value(a) => {
                    lemma_opens(*a, w);
                    assert(s[0] == t[0]);
                },
                IrTail::Unit(a) => {
                    lemma_opens_stat(*a, w);
                    if t.len() > 0 {
                        assert(s[0] == t[0] && s[1] == t[1]);
                        if t[0] == 'l' {
                            assert(s[5] == t[5] && s[6] == t[6]);
                            if t.len() > 7 {
                                assert(s[7] == t[7]);
                            }
                        }
                    }
                },
                _ => {},
            }
        },
    }
}

/// A block is no counted loop.
proof fn lemma_no_count(x: IrBlock, w: Words, rest: Seq<char>)
    requires
        plain_block(x),
    ensures
        starts_value(emit::block_text(x, w.symbol, w.trap) + rest),
        past("{ let __args = ["@, emit::block_text(x, w.symbol, w.trap) + rest) is None,
        past("{ let __c = "@, emit::block_text(x, w.symbol, w.trap) + rest) is None,
        (emit::block_text(x, w.symbol, w.trap) + rest)[0] == '{',
        emit::block_text(x, w.symbol, w.trap) == "{ "@ + body_text(x.stats, x.tail, w),
        emit::block_text(x, w.symbol, w.trap).len() == body_text(x.stats, x.tail, w).len() + 2,
{
    reveal_strlit("{ ");
    reveal_strlit("{ let __end");
    let b = body_text(x.stats, x.tail, w);
    let s = emit::block_text(x, w.symbol, w.trap) + rest;
    lemma_opens_body(x.stats, x.tail, w);
    assert(emit::block_text(x, w.symbol, w.trap) =~= "{ "@ + b);
    assert(s =~= "{ "@ + (b + rest));
    assert(s[0] == '{');
    assert(s[2] == b[0] && s[3] == b[1]);
    reveal_strlit("{ let __args = [");
    reveal_strlit("{ let __c = ");
    if b[0] == 'l' {
        assert(s[7] == b[5] && s[8] == b[6]);
        if b[1] == 'o' {
            lemma_not_past("{ let __end"@, s, 3);
            lemma_not_past("{ let __args = ["@, s, 3);
            lemma_not_past("{ let __c = "@, s, 3);
        } else if b[5] == ' ' {
            lemma_not_past("{ let __end"@, s, 7);
            lemma_not_past("{ let __args = ["@, s, 7);
            lemma_not_past("{ let __c = "@, s, 7);
        } else {
            lemma_not_past("{ let __end"@, s, 8);
            lemma_not_past("{ let __c = "@, s, 8);
            if b[6] == 't' {
                lemma_not_past("{ let __args = ["@, s, 8);
            } else {
                assert(s[9] == b[7]);
                lemma_not_past("{ let __args = ["@, s, 9);
            }
        }
    } else {
        lemma_not_past("{ let __end"@, s, 2);
        lemma_not_past("{ let __args = ["@, s, 2);
        lemma_not_past("{ let __c = "@, s, 2);
    }
}

#[verifier::spinoff_prover]
proof fn lemma_block(k: nat, x: IrBlock, w: Words, rest: Seq<char>)
    requires
        named(w),
        plain_block(x),
        k > emit::block_text(x, w.symbol, w.trap).len(),
    ensures
        got_block(read_block(w, k, emit::block_text(x, w.symbol, w.trap) + rest), x, rest),
    decreases k, 1int,
{
    let b = body_text(x.stats, x.tail, w);
    lemma_no_count(x, w, rest);
    assert(emit::block_text(x, w.symbol, w.trap) + rest =~= "{ "@ + (b + rest));
    lemma_past("{ "@, b + rest);
    lemma_body((k - 1) as nat, x.stats, x.tail, w, rest);
}

/// An expression for its own sake.
#[verifier::spinoff_prover]
proof fn lemma_own_sake(k: nat, x: IrStat, w: Words, rest: Seq<char>)
    requires
        named(w),
        plain_stat(x),
        x is Block || x is If,
        k > emit::stat_text(x, w.symbol, w.trap).len(),
        ends(rest),
    ensures
        starts_value(emit::stat_text(x, w.symbol, w.trap) + rest),
        match read(w, k, emit::stat_text(x, w.symbol, w.trap) + rest) {
            Some((Term::Num(c), r)) => r == rest && as_stat(c) is Some && same_stat(
                as_stat(c)->Some_0,
                x,
            ) && forall|q: Sums, n: nat, r: Map<u16, u64>| #[trigger]
                meaning::i_num(q, n, r, c) == meaning::i_stat(q, n, r, x),
            _ => false,
        },
    decreases k, 3int,
{
    let t = emit::stat_text(x, w.symbol, w.trap);
    let s = t + rest;
    match x {
        IrStat::Block(b) => {
            assert(t == emit::block_text(b, w.symbol, w.trap));
            lemma_no_count(b, w, rest);
            lemma_block(k, b, w, rest);
            let cb = read_block(w, k, s)->Some_0.0;
            lemma_same_whole(cb, b);
            let c = Ir::Block(Box::new(cb));
            assert(read(w, k, s) == Some((Term::Num(c), rest)));
            assert forall|q: Sums, n: nat, r: Map<u16, u64>| #[trigger]
                meaning::i_num(q, n, r, c) == meaning::i_stat(q, n, r, x) by {
                assert(meaning::i_block(q, n, r, cb) == meaning::i_block(q, n, r, b));
            }
        },
        IrStat::If(i) => {
            assert(t == emit::if_text(i, w.symbol, w.trap));
            reveal_strlit("if ");
            assert(s[0] == 'i');
            lemma_if(k, i, w, rest);
            let ci = read_if(w, k, s)->Some_0.0;
            lemma_same_choice(ci, i);
            let c = Ir::If(Box::new(ci));
            assert(read(w, k, s) == Some((Term::Num(c), rest)));
            assert forall|q: Sums, n: nat, r: Map<u16, u64>| #[trigger]
                meaning::i_num(q, n, r, c) == meaning::i_stat(q, n, r, x) by {
                assert(meaning::i_if(q, n, r, ci) == meaning::i_if(q, n, r, i));
            }
        },
        _ => {},
    }
}

/// A statement, and then the rest of a block.
#[verifier::spinoff_prover]
proof fn lemma_next(
    k: nat,
    a: IrStat,
    more: IrStats,
    tail: IrTail,
    w: Words,
    rest: Seq<char>,
)
    requires
        named(w),
        plain_stat(a),
        plain_stats(more),
        plain_tail(tail),
        k > emit::stat_text(a, w.symbol, w.trap).len() + 1 + body_text(more, tail, w).len(),
    ensures
        got_block(
            read_body(
                w,
                k,
                emit::stat_text(a, w.symbol, w.trap) + (" "@ + (body_text(more, tail, w)
                    + rest)),
            ),
            (IrBlock { stats: IrStats::Then(Box::new(a), Box::new(more)), tail }),
            rest,
        ),
    decreases k, 1int,
{
    let t = emit::stat_text(a, w.symbol, w.trap);
    let b = body_text(more, tail, w);
    let r1 = " "@ + (b + rest);
    let s = t + r1;
    reveal_strlit(" ");
    reveal_strlit(" }");
    lemma_opens_stat(a, w);
    lemma_opens_body(more, tail, w);
    assert(r1[0] == ' ' && r1[1] == b[0]);
    lemma_not_past(" }"@, r1, 1);
    lemma_past(" "@, b + rest);
    lemma_body((k - 1) as nat, more, tail, w, rest);
    let cb = read_body(w, (k - 1) as nat, b + rest)->Some_0.0;
    if t.len() == 0 {
        assert(s =~= r1);
        assert(s.skip(1) =~= b + rest);
        lemma_same_nothing(a, w);
        lemma_same_next(IrStat::Skip, cb, a, more, tail);
    } else {
        assert(s[0] == t[0]);
        lemma_not_past(" }"@, s, 0);
        if a is Block || a is If {
            lemma_own_sake((k - 1) as nat, a, w, r1);
            let c = read(w, (k - 1) as nat, s)->Some_0.0->Num_0;
            lemma_same_next(as_stat(c)->Some_0, cb, a, more, tail);
        } else {
            lemma_stat((k - 1) as nat, a, w, r1);
            let c = read_stat(w, (k - 1) as nat, s)->Some_0.0;
            lemma_same_next(c, cb, a, more, tail);
        }
    }
}

/// The end of a block.
#[verifier::spinoff_prover]
proof fn lemma_tail(k: nat, tail: IrTail, w: Words, rest: Seq<char>)
    requires
        named(w),
        plain_tail(tail),
        k > emit::tail_text(tail, w.symbol, w.trap).len() + 2,
    ensures
        got_block(
            read_body(w, k, emit::tail_text(tail, w.symbol, w.trap) + (" }"@ + rest)),
            (IrBlock { stats: IrStats::End, tail }),
            rest,
        ),
    decreases k, 1int,
{
    let t = emit::tail_text(tail, w.symbol, w.trap);
    let r1 = " }"@ + rest;
    let s = t + r1;
    reveal_strlit("");
    reveal_strlit(" }");
    lemma_past(" }"@, rest);
    match tail {
        IrTail::Nothing => {
            assert(s =~= r1);
        },
        IrTail::Value(a) => {
            lemma_opens(*a, w);
            assert(s[0] == t[0] && s[1] == t[1]);
            lemma_not_past(" }"@, s, 0);
            lemma_num((k - 1) as nat, *a, w, r1);
            match *a {
                Ir::Local(slot) => {
                    lemma_local(w, k, slot, r1);
                },
                Ir::Block(b) => {
                    assert(t == emit::block_text(*b, w.symbol, w.trap));
                    lemma_no_count(*b, w, r1);
                },
                Ir::CallSelf(x) => {
                    lemma_self_text(*x, w, r1);
                    assert(s.take(16) =~= t.take(16));
                    lemma_args_head(s);
                },
                Ir::CallBeside(id, x) => {
                    lemma_beside_text(id, *x, w, r1);
                    assert(s.take(16) =~= t.take(16));
                    lemma_args_head(s);
                },
                Ir::CallThrough(at, x) => {
                    lemma_through_text(at, *x, w, r1);
                    assert(s.take(40) =~= t.take(40));
                    lemma_through_head(s);
                },
                _ => {},
            }
            assert(starts_value(s));
            let c = read(w, (k - 1) as nat, s)->Some_0.0->Num_0;
            let ct = IrTail::Value(Box::new(c));
            assert forall|q: Sums, n: nat, r: Map<u16, u64>| #[trigger]
                meaning::i_tail(q, n, r, ct) == meaning::i_tail(q, n, r, tail) by {
                assert(meaning::i_num(q, n, r, c) == meaning::i_num(q, n, r, *a));
            }
            lemma_same_tail(ct, tail);
        },
        IrTail::Unit(a) => {
            lemma_opens_stat(*a, w);
            if t.len() == 0 {
                assert(s =~= r1);
                lemma_same_nothing(*a, w);
                assert forall|q: Sums, n: nat, r: Map<u16, u64>| #[trigger]
                    meaning::i_tail(q, n, r, IrTail::Nothing) == meaning::i_tail(
                        q,
                        n,
                        r,
                        tail,
                    ) by {
                    assert(meaning::i_stat(q, n, r, IrStat::Skip) == meaning::i_stat(q, n, r, *a));
                }
                lemma_same_tail(IrTail::Nothing, tail);
            } else {
                assert(s[0] == t[0]);
                lemma_not_past(" }"@, s, 0);
                if *a is Block || *a is If {
                    lemma_own_sake((k - 1) as nat, *a, w, r1);
                    let c = read(w, (k - 1) as nat, s)->Some_0.0->Num_0;
                    let ct = IrTail::Value(Box::new(c));
                    assert forall|q: Sums, n: nat, r: Map<u16, u64>| #[trigger]
                        meaning::i_tail(q, n, r, ct) == meaning::i_tail(q, n, r, tail) by {
                        assert(meaning::i_num(q, n, r, c) == meaning::i_stat(q, n, r, *a));
                    }
                    lemma_same_tail(ct, tail);
                } else {
                    lemma_stat((k - 1) as nat, *a, w, r1);
                    let c = read_stat(w, (k - 1) as nat, s)->Some_0.0;
                    let ct = IrTail::Unit(Box::new(c));
                    assert forall|q: Sums, n: nat, r: Map<u16, u64>| #[trigger]
                        meaning::i_tail(q, n, r, ct) == meaning::i_tail(q, n, r, tail) by {
                        assert(meaning::i_stat(q, n, r, c) == meaning::i_stat(q, n, r, *a));
                    }
                    lemma_same_tail(ct, tail);
                }
            }
        },
        _ => {},
    }
}

proof fn lemma_body(
    k: nat,
    stats: IrStats,
    tail: IrTail,
    w: Words,
    rest: Seq<char>,
)
    requires
        named(w),
        plain_stats(stats),
        plain_tail(tail),
        k > body_text(stats, tail, w).len(),
    ensures
        got_block(
            read_body(w, k, body_text(stats, tail, w) + rest),
            (IrBlock { stats, tail }),
            rest,
        ),
    decreases k, 2int,
{
    let s = body_text(stats, tail, w) + rest;
    reveal_strlit("");
    reveal_strlit(" ");
    reveal_strlit(" }");
    match stats {
        IrStats::End => {
            assert(s =~= emit::tail_text(tail, w.symbol, w.trap) + (" }"@ + rest));
            lemma_tail(k, tail, w, rest);
        },
        IrStats::Then(a, more) => {
            assert(s =~= emit::stat_text(*a, w.symbol, w.trap) + (" "@ + (body_text(
                *more,
                tail,
                w,
            ) + rest)));
            lemma_next(k, *a, *more, tail, w, rest);
        },
    }
}

// ---- what written code is worth ------------------------------------------------------------

/// What an expression that is written down comes to.
pub open spec fn worth(w: Words, q: Sums, n: nat, r: Map<u16, u64>, s: Seq<char>) -> Ends<Map<u16, u64>> {
    match read(w, s.len(), s) {
        Some((Term::Num(c), _)) => meaning::i_num(q, n, r, c),
        Some((Term::Truth(c), _)) => meaning::i_cond(q, n, r, c),
        None => Ends::Wrong,
    }
}

/// The text of a number comes to what the number is: every operator is the one Rust
/// has by that sign, every function the method of that name, what is between brackets
/// is worked out first, and what is called is called with its arguments in order.
pub proof fn lemma_written_numbers(
    q: Sums,
    n: nat,
    r: Map<u16, u64>,
    x: Ir,
    w: Words,
    rest: Seq<char>,
)
    requires
        named(w),
        plain_num(x),
        ends(rest),
    ensures
        worth(w, q, n, r, emit::ir_text(x, w.symbol, w.trap) + rest) == meaning::i_num(q, n, r, x),
{
    let s = emit::ir_text(x, w.symbol, w.trap) + rest;
    lemma_num(s.len(), x, w, rest);
    let c = read(w, s.len(), s)->Some_0.0->Num_0;
    assert(meaning::i_num(q, n, r, c) == meaning::i_num(q, n, r, x));
}

/// The text of a condition comes to what the condition is.
pub proof fn lemma_written_conditions(
    q: Sums,
    n: nat,
    r: Map<u16, u64>,
    x: Cond,
    w: Words,
    rest: Seq<char>,
)
    requires
        named(w),
        plain_cond(x),
        ends(rest),
    ensures
        worth(w, q, n, r, emit::cond_text(x, w.symbol, w.trap) + rest) == meaning::i_cond(q, n, r, x),
{
    let s = emit::cond_text(x, w.symbol, w.trap) + rest;
    lemma_cond(s.len(), x, w, rest);
    let c = read(w, s.len(), s)->Some_0.0->Truth_0;
    assert(meaning::i_cond(q, n, r, c) == meaning::i_cond(q, n, r, x));
}

/// The text of a block, with all its statements, does what the block does: the same
/// locals are bound and set, to the same values and in the same order, the same turns
/// are gone round, and it is left in the same way.
pub proof fn lemma_written_blocks(
    q: Sums,
    n: nat,
    r: Map<u16, u64>,
    x: IrBlock,
    w: Words,
    rest: Seq<char>,
)
    requires
        named(w),
        plain_block(x),
        ends(rest),
    ensures
        worth(w, q, n, r, emit::block_text(x, w.symbol, w.trap) + rest) == meaning::i_block(q, n, r, x),
{
    let whole = Ir::Block(Box::new(x));
    assert(emit::ir_text(whole, w.symbol, w.trap) == emit::block_text(x, w.symbol, w.trap));
    assert(plain_num(whole));
    lemma_written_numbers(q, n, r, whole, w, rest);
    assert(meaning::i_num(q, n, r, whole) == meaning::i_block(q, n, r, x));
}

/// Functions and loops are called otherwise than what is compiled beside them.
pub proof fn lemma_own_names(i: nat, trap: Seq<char>)
    ensures
        named(Words { symbol: "rua_jit_"@ + text::decimal(i), trap }),
        named(Words { symbol: "rua_loop_"@ + text::decimal(i), trap }),
{
    reveal_strlit("rua_jit_");
    reveal_strlit("rua_loop_");
    reveal_strlit("rua_inl_");
    let a = Words { symbol: "rua_jit_"@ + text::decimal(i), trap };
    let b = Words { symbol: "rua_loop_"@ + text::decimal(i), trap };
    assert(a.symbol[4] == 'j' && b.symbol[4] == 'l');
    assert(a.symbol[4] != "rua_inl_"@[4]);
    assert(b.symbol[4] != "rua_inl_"@[4]);
    assert(named(a));
    assert(named(b));
}

} // verus!
