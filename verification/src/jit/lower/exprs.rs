//! Expressions and conditions.
use super::super::flags;
use super::super::ir::{
    Cond, Ir, IrArgs, IrArms, IrBlock, IrElse, IrIf, IrList, IrMatch,
};
use super::super::kinds;
use super::super::kinds::Kind;
use super::super::lowering;
use super::super::lowering::{Env, Fault};
use super::stats::block;
use super::{say, Scene, State};
use crate::ast::{Arm, BinOp, Expr, Pattern, UnOp};
use crate::text;
use vstd::prelude::*;

verus! {

pub(super) fn arithmetic(op: BinOp) -> (r: bool)
    ensures
        r == lowering::arithmetic(op),
{
    op == BinOp::Add || op == BinOp::Sub || op == BinOp::Mul || op == BinOp::Div || op
        == BinOp::Rem
}

pub(super) fn no_number(op: BinOp) -> (r: String)
    ensures
        r@ == lowering::no_number(op),
{
    if op == BinOp::And || op == BinOp::Or {
        text::owned("`&&`/`||` as a value")
    } else {
        text::owned("a comparison used as a value")
    }
}

fn math(low: &State, name: &str, recv: Ir, rest: IrList, n: usize) -> (r: Result<Ir, String>)
    ensures
        super::agrees(r, low@, lowering::l_math(low@, name@, recv, rest, n as nat)),
{
    match super::math_fn(name) {
        Some((f, want)) => {
            if n == want {
                Ok(Ir::Math(f, Box::new(recv), Box::new(rest)))
            } else if want == 0 {
                Err(text::joined(name, " takes no arguments"))
            } else {
                Err(text::joined(name, " takes one argument"))
            }
        },
        None => Err(say("`", name, "` is not in the math whitelist")),
    }
}

fn binary(env: &Scene, low: &mut State, e: &Expr) -> (r: Result<Ir, String>)
    requires
        *e is Bin,
    ensures
        super::agrees(r, final(low)@, lowering::l_binary(env@, old(low)@, *e)),
        r is Ok ==> super::grew(old(low)@, final(low)@),
    decreases *e, 1int, 0int,
{
    match e {
        Expr::Bin(op, a, b) => {
            if !arithmetic(*op) {
                return Err(no_number(*op));
            }
            let x = match expr(env, low, a) {
                Ok(x) => x,
                Err(m) => {
                    return Err(m);
                },
            };
            let y = match expr(env, low, b) {
                Ok(y) => y,
                Err(m) => {
                    return Err(m);
                },
            };
            Ok(Ir::Bin(*op, Box::new(x), Box::new(y)))
        },
        _ => Err(String::new()),
    }
}

/// A run of expressions, from `i` on.
pub(super) fn exprs(env: &Scene, low: &mut State, es: &Vec<Expr>, i: usize) -> (r: Result<
    IrList,
    String,
>)
    requires
        i <= es@.len(),
    ensures
        super::agrees(r, final(low)@, lowering::l_exprs(env@, old(low)@, es@.skip(i as int))),
        r is Ok ==> super::grew(old(low)@, final(low)@),
        r matches Ok(l) ==> (l is End) == (i == es@.len()),
    decreases *es, 3int, es@.len() - i,
{
    if i >= es.len() {
        return Ok(IrList::End);
    }
    assert(es@.skip(i as int)[0] == es@[i as int]);
    assert(es@.skip(i as int).drop_first() =~= es@.skip(i as int + 1));
    let x = match expr(env, low, &es[i]) {
        Ok(x) => x,
        Err(m) => {
            return Err(m);
        },
    };
    match exprs(env, low, es, i + 1) {
        Ok(rest) => Ok(IrList::Item(Box::new(x), Box::new(rest))),
        Err(m) => Err(m),
    }
}

fn index(env: &Scene, low: &mut State, e: &Expr) -> (r: Result<Ir, String>)
    requires
        *e is Index,
    ensures
        super::agrees(r, final(low)@, lowering::l_index(env@, old(low)@, *e)),
        r is Ok ==> super::grew(old(low)@, final(low)@),
    decreases *e, 1int, 0int,
{
    match e {
        Expr::Index(obj, key) => {
            match super::element_of(env, low, obj) {
                Some(slot) => match &**obj {
                    Expr::Index(_, k) => {
                        let ok: bool = super::proven(env, low, k, slot);
                        let x = match expr(env, low, k) {
                            Ok(x) => x,
                            Err(m) => {
                                return Err(m);
                            },
                        };
                        let y = match expr(env, low, key) {
                            Ok(y) => y,
                            Err(m) => {
                                return Err(m);
                            },
                        };
                        super::add_once(&mut low.spans, slot);
                        Ok(
                            Ir::Element {
                                slot,
                                key: Box::new(x),
                                proven: ok,
                                inner: Box::new(y),
                            },
                        )
                    },
                    _ => Err(String::new()),
                },
                None => {
                    if !super::is_table(env, obj) {
                        return Err(text::owned("indexing"));
                    }
                    let slot: u16 = match super::table_slot(low, obj) {
                        Ok(slot) => slot,
                        Err(m) => {
                            return Err(m);
                        },
                    };
                    if super::kind(env, slot) != Kind::Table {
                        return Err(text::owned("reading a table that is also appended to"));
                    }
                    let ok: bool = super::proven(env, low, key, slot);
                    match expr(env, low, key) {
                        Ok(x) => Ok(Ir::Read { slot, key: Box::new(x), proven: ok }),
                        Err(m) => Err(m),
                    }
                },
            }
        },
        _ => Err(String::new()),
    }
}

fn method(env: &Scene, low: &mut State, e: &Expr) -> (r: Result<Ir, String>)
    requires
        *e is Method,
    ensures
        super::agrees(r, final(low)@, lowering::l_method(env@, old(low)@, *e)),
        r is Ok ==> super::grew(old(low)@, final(low)@),
    decreases *e, 1int, 0int,
{
    match e {
        Expr::Method(obj, name, args) => {
            if !super::is_table(env, obj) {
                let recv = match expr(env, low, obj) {
                    Ok(x) => x,
                    Err(m) => {
                        return Err(m);
                    },
                };
                let rest = match exprs(env, low, args, 0) {
                    Ok(x) => x,
                    Err(m) => {
                        assert(args@.skip(0) =~= args@);
                        return Err(m);
                    },
                };
                assert(args@.skip(0) =~= args@);
                return math(low, name.as_str(), recv, rest, args.len());
            }
            let slot: u16 = match super::table_slot(low, obj) {
                Ok(slot) => slot,
                Err(m) => {
                    return Err(m);
                },
            };
            if text::same(name.as_str(), "len") && args.len() == 0 {
                return if super::is_read(super::kind(env, slot)) {
                    Ok(Ir::Len(slot))
                } else {
                    Ok(Ir::AskLen(slot))
                };
            }
            if text::same(name.as_str(), "push") && args.len() == 1 {
                match &args[0] {
                    Expr::Local(b, elem) => {
                        if !super::holds_number(super::kind(env, b.slot)) {
                            if b.cell || !super::walk::has(&low.known, b.slot) {
                                return Err(
                                    say("`", elem.as_str(), "` is captured or declared outside"),
                                );
                            }
                            if super::infer::outer_of(&env.inner_of, b.slot).is_some() {
                                return Err(
                                    say("`", elem.as_str(), "` is an element read through a view"),
                                );
                            }
                            return Ok(Ir::PushTable(slot, b.slot));
                        }
                    },
                    _ => {},
                }
                return match expr(env, low, &args[0]) {
                    Ok(x) => Ok(Ir::Push(slot, Box::new(x))),
                    Err(m) => Err(m),
                };
            }
            Err(say("`", name.as_str(), "` on a table"))
        },
        _ => Err(String::new()),
    }
}

/// Arguments that are all numbers, from `i` on.
fn numbers(env: &Scene, low: &mut State, es: &Vec<Expr>, i: usize) -> (r: Result<IrArgs, String>)
    requires
        i <= es@.len(),
    ensures
        super::agrees(r, final(low)@, lowering::l_numbers(env@, old(low)@, es@.skip(i as int))),
        r is Ok ==> super::grew(old(low)@, final(low)@),
    decreases *es, 3int, es@.len() - i,
{
    if i >= es.len() {
        return Ok(IrArgs::End);
    }
    assert(es@.skip(i as int)[0] == es@[i as int]);
    assert(es@.skip(i as int).drop_first() =~= es@.skip(i as int + 1));
    let x = match expr(env, low, &es[i]) {
        Ok(x) => x,
        Err(m) => {
            return Err(m);
        },
    };
    match numbers(env, low, es, i + 1) {
        Ok(rest) => Ok(IrArgs::Num(Box::new(x), Box::new(rest))),
        Err(m) => Err(m),
    }
}

/// Arguments of the kinds a function takes, from `i` on.
fn arguments(
    env: &Scene,
    low: &mut State,
    es: &Vec<Expr>,
    ks: &Vec<Kind>,
    own: bool,
    i: usize,
) -> (r: Result<IrArgs, String>)
    requires
        i <= es@.len(),
        ks@.len() == es@.len(),
    ensures
        super::agrees(
            r,
            final(low)@,
            lowering::l_args(
                env@,
                old(low)@,
                es@.skip(i as int),
                ks@.skip(i as int),
                own,
            ),
        ),
        r is Ok ==> super::grew(old(low)@, final(low)@),
    decreases *es, 3int, es@.len() - i,
{
    if i >= es.len() {
        return Ok(IrArgs::End);
    }
    assert(es@.skip(i as int)[0] == es@[i as int]);
    assert(es@.skip(i as int).drop_first() =~= es@.skip(i as int + 1));
    assert(ks@.skip(i as int)[0] == ks@[i as int]);
    assert(ks@.skip(i as int).drop_first() =~= ks@.skip(i as int + 1));
    let k: Kind = ks[i];
    if k == Kind::Num {
        let x = match expr(env, low, &es[i]) {
            Ok(x) => x,
            Err(m) => {
                return Err(m);
            },
        };
        return match arguments(env, low, es, ks, own, i + 1) {
            Ok(rest) => Ok(IrArgs::Num(Box::new(x), Box::new(rest))),
            Err(m) => Err(m),
        };
    }
    match super::held(env, low, &es[i], k) {
        Some(slot) => {
            if own || super::is_read(k) {
                match arguments(env, low, es, ks, own, i + 1) {
                    Ok(rest) => Ok(IrArgs::Table(slot, Box::new(rest))),
                    Err(m) => Err(m),
                }
            } else {
                Err(text::owned("a table argument that is not the one held here"))
            }
        },
        None => Err(text::owned("a table argument that is not the one held here")),
    }
}

fn cannot_call(name: &String) -> (r: String)
    ensures
        r@ == lowering::cannot_call(name@),
{
    say("call to `", name.as_str(), "`")
}

fn call(env: &Scene, low: &mut State, e: &Expr) -> (r: Result<Ir, String>)
    requires
        *e is Call,
    ensures
        super::agrees(r, final(low)@, lowering::l_call(env@, old(low)@, *e)),
        r is Ok ==> super::grew(old(low)@, final(low)@),
    decreases *e, 1int, 0int,
{
    match e {
        Expr::Call(f, args) => {
            assert(args@.skip(0) =~= args@);
            match super::math_name(f) {
                Some(k) => {
                    return match exprs(env, low, args, 0) {
                        Ok(IrList::Item(recv, rest)) => math(
                            low,
                            k.as_str(),
                            *recv,
                            *rest,
                            args.len() - 1,
                        ),
                        Ok(IrList::End) => Err(say("math::", k.as_str(), " with no arguments")),
                        Err(m) => Err(m),
                    };
                },
                None => {},
            }
            let own: bool = super::is_self(env, f);
            if own && env.returns_table {
                return Err(
                    text::owned("a recursive call to a function that hands back a table"),
                );
            }
            let fits: bool = match env.arity {
                Some(n) => n == args.len() && env.params.len() == args.len(),
                None => false,
            };
            if own && fits {
                assert(env@.params.skip(0) =~= env@.params);
                return match arguments(env, low, args, &env.params, true, 0) {
                    Ok(xs) => {
                        low.calls = true;
                        Ok(Ir::CallSelf(Box::new(xs)))
                    },
                    Err(m) => Err(m),
                };
            }
            match &**f {
                Expr::Global(name, _) => call_global(env, low, name, args),
                Expr::Upval(_, name) => Err(cannot_call(name)),
                Expr::Local(_, name) => Err(cannot_call(name)),
                _ => Err(text::owned("call to a non-inlinable function")),
            }
        },
        _ => Err(String::new()),
    }
}

/// A call of another compiled function.
fn call_global(env: &Scene, low: &mut State, name: &String, args: &Vec<Expr>) -> (r: Result<
    Ir,
    String,
>)
    ensures
        super::agrees(r, final(low)@, lowering::l_call_global(env@, old(low)@, name@, args@)),
        r is Ok ==> super::grew(old(low)@, final(low)@),
    decreases *args, 4int, 0int,
{
    assert(args@.skip(0) =~= args@);
    let at: usize = kinds::find_callable(&env.callables, name.as_str());
    if at >= env.callables.len() {
        return Err(cannot_call(name));
    }
    if super::beside(&env.callables[at], args.len()) {
        let id: usize = match &env.callables[at].def {
            Some(d) => d.id,
            None => 0,
        };
        super::add_beside(env, low, at, name.as_str());
        return match numbers(env, low, args, 0) {
            Ok(xs) => {
                low.calls = true;
                Ok(Ir::CallBeside(id, Box::new(xs)))
            },
            Err(m) => Err(m),
        };
    }
    if env.callables[at].kinds.len() != args.len() {
        return Err(cannot_call(name));
    }
    assert(env@.callables[at as int].kinds@.skip(0) =~= env@.callables[at as int].kinds@);
    match arguments(env, low, args, &env.callables[at].kinds, false, 0) {
        Ok(xs) => {
            let i: usize = super::name_at(&low.inlined, name.as_str());
            let ghost was = low@;
            if i >= low.inlined.len() {
                low.inlined.push(name.clone());
                assert(low@.inlined =~= was.inlined.push(name@));
            }
            low.calls = true;
            Ok(Ir::CallThrough(i, Box::new(xs)))
        },
        Err(_) => Err(cannot_call(name)),
    }
}

/// An expression whose value is a number.
pub(in super::super) fn expr(env: &Scene, low: &mut State, e: &Expr) -> (r: Result<Ir, String>)
    ensures
        super::agrees(r, final(low)@, lowering::l_expr(env@, old(low)@, *e)),
        r is Ok ==> super::grew(old(low)@, final(low)@),
    decreases *e, 2int, 0int,
{
    match e {
        Expr::Num(n) => Ok(Ir::Num(*n)),
        Expr::Bool(_) => Err(text::owned("a boolean used as a number")),
        Expr::Nil => Err(text::owned("nil")),
        Expr::Str(_) => Err(text::owned("strings")),
        Expr::Local(b, name) => match super::local_fault(env, low, *b) {
            Fault::Fine => Ok(Ir::Local(b.slot)),
            Fault::Outside => Err(
                say("`", name.as_str(), "` is captured or declared outside this function"),
            ),
            Fault::Flag => Err(say("`", name.as_str(), "` holds a boolean, used as a number")),
            Fault::Table => Err(say("`", name.as_str(), "` holds a table, used as a number")),
        },
        Expr::Upval(_, name) => Err(say("upvalue `", name.as_str(), "`")),
        Expr::Global(name, _) => Err(say("global `", name.as_str(), "`")),
        Expr::Var(name) => Err(say("unresolved `", name.as_str(), "`")),
        Expr::Do(b) => match block(env, low, b, true) {
            Ok(x) => Ok(Ir::Block(Box::new(x))),
            Err(m) => Err(m),
        },
        Expr::If(_, _) => match if_chain(env, low, e, 0, true) {
            Ok(x) => Ok(Ir::If(Box::new(x))),
            Err(m) => Err(m),
        },
        Expr::Match(_, _) => match match_chain(env, low, e, true) {
            Ok(x) => Ok(Ir::Match(Box::new(x))),
            Err(m) => Err(m),
        },
        Expr::Un(op, a) => {
            if *op == UnOp::Not {
                return Err(text::owned("`!` as a value"));
            }
            match expr(env, low, a) {
                Ok(x) => Ok(Ir::Neg(Box::new(x))),
                Err(m) => Err(m),
            }
        },
        Expr::Bin(..) => binary(env, low, e),
        Expr::Call(..) => call(env, low, e),
        Expr::Index(..) => index(env, low, e),
        Expr::Method(..) => method(env, low, e),
        Expr::Func(_) => Err(text::owned("nested function")),
        Expr::Array(_) => Err(text::owned("array literal")),
        Expr::Entries(_) => Err(text::owned("map literal")),
        Expr::Range(..) => Err(text::owned("range")),
    }
}

/// A condition, which must be provably a boolean.
pub(super) fn truthy(env: &Scene, low: &mut State, e: &Expr) -> (r: Result<Cond, String>)
    ensures
        super::agrees(r, final(low)@, lowering::l_truthy(env@, old(low)@, *e)),
        r is Ok ==> super::grew(old(low)@, final(low)@),
    decreases *e, 2int, 0int,
{
    match e {
        Expr::Bool(b) => Ok(Cond::Lit(*b)),
        Expr::Bin(op, a, b) => {
            if flags::is_comparison(*op) {
                let x = match expr(env, low, a) {
                    Ok(x) => x,
                    Err(m) => {
                        return Err(m);
                    },
                };
                return match expr(env, low, b) {
                    Ok(y) => Ok(Cond::Compare(*op, Box::new(x), Box::new(y))),
                    Err(m) => Err(m),
                };
            }
            if *op == BinOp::And || *op == BinOp::Or {
                let x = match truthy(env, low, a) {
                    Ok(x) => x,
                    Err(m) => {
                        return Err(m);
                    },
                };
                return match truthy(env, low, b) {
                    Ok(y) => if *op == BinOp::And {
                        Ok(Cond::And(Box::new(x), Box::new(y)))
                    } else {
                        Ok(Cond::Or(Box::new(x), Box::new(y)))
                    },
                    Err(m) => Err(m),
                };
            }
            Err(text::owned("a condition that is not a comparison"))
        },
        Expr::Un(op, a) => {
            if *op != UnOp::Not {
                return Err(text::owned("a condition that is not provably a boolean"));
            }
            match truthy(env, low, a) {
                Ok(x) => Ok(Cond::Not(Box::new(x))),
                Err(m) => Err(m),
            }
        },
        Expr::Local(b, _) => {
            if super::flag(&low.flags, b.slot) && super::walk::has(&low.known, b.slot) {
                Ok(Cond::Flag(b.slot))
            } else {
                Err(text::owned("a condition that is not provably a boolean"))
            }
        },
        _ => Err(text::owned("a condition that is not provably a boolean")),
    }
}

/// The arms of an `if` from `i` on.
pub(super) fn if_chain(env: &Scene, low: &mut State, e: &Expr, i: usize, want: bool) -> (r: Result<
    IrIf,
    String,
>)
    requires
        *e is If,
    ensures
        super::agrees(r, final(low)@, lowering::l_if(env@, old(low)@, *e, i as nat, want)),
        r is Ok ==> super::grew(old(low)@, final(low)@),
    decreases
            *e,
            1int,
            (match *e {
                Expr::If(arms, _) => arms@.len() - i,
                _ => 0,
            }),
{
    match e {
        Expr::If(arms, els) => {
            if i >= arms.len() {
                return Err(text::owned("an `if` without arms"));
            }
            let cond = match truthy(env, low, &arms[i].0) {
                Ok(c) => c,
                Err(m) => {
                    return Err(m);
                },
            };
            let body = match block(env, low, &arms[i].1, want) {
                Ok(b) => b,
                Err(m) => {
                    return Err(m);
                },
            };
            if i + 1 < arms.len() {
                return match if_chain(env, low, e, i + 1, want) {
                    Ok(rest) => Ok(IrIf { cond, body, rest: IrElse::If(Box::new(rest)) }),
                    Err(m) => Err(m),
                };
            }
            match els {
                Some(b) => match block(env, low, b, want) {
                    Ok(rest) => Ok(IrIf { cond, body, rest: IrElse::Block(Box::new(rest)) }),
                    Err(m) => Err(m),
                },
                None => {
                    if want {
                        Err(text::owned("`if` without `else` used as a value"))
                    } else {
                        Ok(IrIf { cond, body, rest: IrElse::Nothing })
                    }
                },
            }
        },
        _ => Err(String::new()),
    }
}

/// What the patterns of an arm test, and the slot they bind.
fn patterns(env: &Scene, low: &mut State, ps: &Vec<Pattern>) -> (r: Result<
    (Option<u16>, Option<Cond>),
    String,
>)
    ensures
        super::agrees(r, final(low)@, lowering::l_patterns(env@, old(low)@, ps@)),
        r is Ok ==> super::grew(old(low)@, final(low)@),
    decreases *ps, 3int, 0int,
{
    let mut bind: Option<u16> = None;
    let mut test: Option<Cond> = None;
    let mut i: usize = 0;
    while i < ps.len()
        invariant
            i <= ps@.len(),
            super::grew(old(low)@, low@),
            lowering::l_patterns(env@, old(low)@, ps@.take(i as int)) == Ok::<
                (lowering::Low, (Option<u16>, Option<Cond>)),
                Seq<char>,
            >((low@, (bind, test))),
        decreases ps@.len() - i,
    {
        assert(ps@.take(i as int + 1).drop_last() =~= ps@.take(i as int));
        assert(ps@.take(i as int + 1)[i as int] == ps@[i as int]);
        match &ps[i] {
            Pattern::Wild => {
                test = None;
            },
            Pattern::Bind(name, binding) => match binding {
                Some(b) => {
                    if b.cell {
                        proof {
                            lemma_patterns_stop(env@, old(low)@, ps@, i as int + 1);
                        }
                        return Err(text::owned("a match binding is captured by a closure"));
                    }
                    low.known.push(b.slot);
                    bind = Some(b.slot);
                },
                None => {
                    proof {
                        lemma_patterns_stop(env@, old(low)@, ps@, i as int + 1);
                    }
                    return Err(say("unresolved pattern `", name.as_str(), "`"));
                },
            },
            Pattern::Lit(e) => match expr(env, low, e) {
                Ok(x) => {
                    let one = Cond::Subject(Box::new(x));
                    test = match test {
                        Some(t) => Some(Cond::Or(Box::new(t), Box::new(one))),
                        None => Some(one),
                    };
                },
                Err(m) => {
                    proof {
                        lemma_patterns_stop(env@, old(low)@, ps@, i as int + 1);
                    }
                    return Err(m);
                },
            },
        }
        i = i + 1;
    }
    assert(ps@.take(ps@.len() as int) =~= ps@);
    Ok((bind, test))
}

/// A refusal among the patterns is the refusal of them all.
proof fn lemma_patterns_stop(env: Env, s: lowering::Low, ps: Seq<Pattern>, i: int)
    requires
        0 <= i <= ps.len(),
        lowering::l_patterns(env, s, ps.take(i)) is Err,
    ensures
        lowering::l_patterns(env, s, ps) == lowering::l_patterns(env, s, ps.take(i)),
    decreases ps.len() - i,
{
    if i < ps.len() {
        assert(ps.take(i + 1).drop_last() =~= ps.take(i));
        lemma_patterns_stop(env, s, ps, i + 1);
    } else {
        assert(ps.take(i) =~= ps);
    }
}

fn guard_of(env: &Scene, low: &mut State, g: &Option<Expr>) -> (r: Result<Option<Cond>, String>)
    ensures
        super::agrees(r, final(low)@, lowering::l_guard(env@, old(low)@, *g)),
        r is Ok ==> super::grew(old(low)@, final(low)@),
    decreases *g, 3int, 0int,
{
    match g {
        Some(e) => match truthy(env, low, e) {
            Ok(c) => Ok(Some(c)),
            Err(m) => Err(m),
        },
        None => Ok(None),
    }
}

fn arm_test(test: Option<Cond>, guard: Option<Cond>) -> (r: Option<Cond>)
    ensures
        r == lowering::arm_test(test, guard),
{
    match test {
        Some(t) => match guard {
            Some(g) => Some(Cond::And(Box::new(t), Box::new(g))),
            None => Some(t),
        },
        None => guard,
    }
}

/// The arms of a match from `i` on, the last first.
fn arms_from(env: &Scene, low: &mut State, arms: &Vec<Arm>, i: usize, want: bool) -> (r: Result<
    IrArms,
    String,
>)
    requires
        i <= arms@.len(),
    ensures
        super::agrees(r, final(low)@, lowering::l_arms(env@, old(low)@, arms@.skip(i as int), want)),
        r is Ok ==> super::grew(old(low)@, final(low)@),
    decreases *arms, 3int, arms@.len() - i,
{
    if i >= arms.len() {
        return Ok(IrArms::End);
    }
    assert(arms@.skip(i as int)[0] == arms@[i as int]);
    assert(arms@.skip(i as int).drop_first() =~= arms@.skip(i as int + 1));
    let rest = match arms_from(env, low, arms, i + 1, want) {
        Ok(x) => x,
        Err(m) => {
            return Err(m);
        },
    };
    let (bind, test) = match patterns(env, low, &arms[i].patterns) {
        Ok(x) => x,
        Err(m) => {
            return Err(m);
        },
    };
    let body: IrBlock = match block(env, low, &arms[i].body, want) {
        Ok(x) => x,
        Err(m) => {
            return Err(m);
        },
    };
    let guard = match guard_of(env, low, &arms[i].guard) {
        Ok(x) => x,
        Err(m) => {
            return Err(m);
        },
    };
    match arm_test(test, guard) {
        None => Ok(IrArms::Always { bind, body: Box::new(body) }),
        Some(c) => {
            let last: bool = match &rest {
                IrArms::End => true,
                _ => false,
            };
            if want && last {
                Err(text::owned("`match` in value position has no catch-all arm"))
            } else {
                Ok(
                    IrArms::Test {
                        bind,
                        cond: Box::new(c),
                        body: Box::new(body),
                        rest: Box::new(rest),
                    },
                )
            }
        },
    }
}

/// A match over numbers.
pub(super) fn match_chain(env: &Scene, low: &mut State, e: &Expr, want: bool) -> (r: Result<
    IrMatch,
    String,
>)
    requires
        *e is Match,
    ensures
        super::agrees(r, final(low)@, lowering::l_match(env@, old(low)@, *e, want)),
        r is Ok ==> super::grew(old(low)@, final(low)@),
    decreases *e, 1int, 0int,
{
    match e {
        Expr::Match(subject, arms) => {
            assert(arms@.skip(0) =~= arms@);
            let x = match expr(env, low, subject) {
                Ok(x) => x,
                Err(m) => {
                    return Err(m);
                },
            };
            let chain = match arms_from(env, low, arms, 0, want) {
                Ok(x) => x,
                Err(m) => {
                    return Err(m);
                },
            };
            let none: bool = match &chain {
                IrArms::End => true,
                _ => false,
            };
            if want && none {
                return Err(text::owned("`match` in value position has no catch-all arm"));
            }
            Ok(IrMatch { subject: x, arms: chain })
        },
        _ => Err(String::new()),
    }
}

} // verus!
