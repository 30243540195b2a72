//! Which arm of a match on a number its lowered code takes: the one that a pattern and
//! the guard are for.
use super::faithful;
use super::ir::{Cond, Ir, IrArms, IrBlock};
use super::lowering;
use super::lowering::{Env, Low};
use super::meaning;
use super::meaning::{Cell, Ends, Sums};
use crate::ast::{Arm, BinOp, Expr, Pattern, UnOp};
use crate::num;
use vstd::prelude::*;

verus! {

// ---- what the lowered code does ----------------------------------------------------------

/// A condition inside a match, whose subject is `x`.
pub open spec fn holds(q: Sums, n: nat, r: Map<u16, u64>, x: u64, c: Cond) -> Ends<Map<u16, u64>>
    decreases c,
{
    match c {
        Cond::Subject(a) => match meaning::i_num(q, n, r, *a) {
            Ends::Num(v, r1) => Ends::Truth(num::equal(x, v), r1),
            other => meaning::passed(other),
        },
        Cond::And(a, b) => match holds(q, n, r, x, *a) {
            Ends::Truth(v, r1) => if v {
                holds(q, n, r1, x, *b)
            } else {
                Ends::Truth(false, r1)
            },
            other => meaning::passed(other),
        },
        Cond::Or(a, b) => match holds(q, n, r, x, *a) {
            Ends::Truth(v, r1) => if v {
                Ends::Truth(true, r1)
            } else {
                holds(q, n, r1, x, *b)
            },
            other => meaning::passed(other),
        },
        Cond::Not(a) => match holds(q, n, r, x, *a) {
            Ends::Truth(v, r1) => Ends::Truth(!v, r1),
            other => meaning::passed(other),
        },
        _ => meaning::i_cond(q, n, r, c),
    }
}

/// The locals once the subject has its name, if an arm gives it one.
pub open spec fn bound(r: Map<u16, u64>, bind: Option<u16>, x: u64) -> Map<u16, u64> {
    match bind {
        Some(slot) => r.insert(slot, x),
        None => r,
    }
}

/// Is the first of some arms taken?
pub open spec fn taken(q: Sums, n: nat, r: Map<u16, u64>, x: u64, arms: IrArms) -> Option<bool> {
    match arms {
        IrArms::End => None,
        IrArms::Always { .. } => Some(true),
        IrArms::Test { bind, cond, body, rest } => match holds(q, n, bound(r, bind, x), x, *cond) {
            Ends::Truth(v, _) => Some(v),
            _ => None,
        },
    }
}

/// What the first arm does, with its name for the subject, and the arms after it.
pub open spec fn body_of(arms: IrArms) -> Option<(Option<u16>, IrBlock)> {
    match arms {
        IrArms::End => None,
        IrArms::Always { bind, body } => Some((bind, *body)),
        IrArms::Test { bind, cond, body, rest } => Some((bind, *body)),
    }
}

pub open spec fn rest_of(arms: IrArms) -> Option<IrArms> {
    match arms {
        IrArms::Test { bind, cond, body, rest } => Some(*rest),
        _ => None,
    }
}

// ---- what is written ---------------------------------------------------------------------

/// Are these all numbers?
pub open spec fn numbers(ps: Seq<Pattern>) -> bool {
    forall|i: int|
        0 <= i < ps.len() ==> (#[trigger] ps[i] matches Pattern::Lit(e) && e is Num)
}

/// Is one of these numbers the subject?
pub open spec fn among(ps: Seq<Pattern>, x: u64) -> bool {
    exists|i: int| 0 <= i < ps.len() && num::equal(x, (#[trigger] ps[i])->Lit_0->Num_0)
}

/// The name one pattern gives the subject.
pub open spec fn name_of(ps: Seq<Pattern>) -> Option<u16> {
    match ps[0] {
        Pattern::Bind(_, Some(b)) => Some(b.slot),
        _ => None,
    }
}

/// Some numbers, or one pattern that takes anything.
pub open spec fn is_choice(ps: Seq<Pattern>) -> bool {
    ps.len() > 0 && (numbers(ps) || (ps.len() == 1 && match ps[0] {
        Pattern::Wild => true,
        Pattern::Bind(_, b) => b is Some && !b->Some_0.cell,
        Pattern::Lit(_) => false,
    }))
}

pub open spec fn takes(ps: Seq<Pattern>, x: u64) -> bool {
    !numbers(ps) || among(ps, x)
}

/// The locals an arm is looked at with.
pub open spec fn seen(f: Map<u16, Cell>, ps: Seq<Pattern>, x: u64) -> Map<u16, Cell> {
    match name_of(ps) {
        Some(slot) => f.insert(slot, Cell::Num(x)),
        None => f,
    }
}

// ---- the two agree -----------------------------------------------------------------------

/// Does a condition leave the subject alone?
pub open spec fn apart(c: Cond) -> bool
    decreases c,
{
    match c {
        Cond::Subject(_) => false,
        Cond::And(a, b) => apart(*a) && apart(*b),
        Cond::Or(a, b) => apart(*a) && apart(*b),
        Cond::Not(a) => apart(*a),
        _ => true,
    }
}

proof fn lemma_apart(q: Sums, n: nat, r: Map<u16, u64>, x: u64, c: Cond)
    requires
        apart(c),
    ensures
        holds(q, n, r, x, c) == meaning::i_cond(q, n, r, c),
    decreases c,
{
    match c {
        Cond::And(a, b) => {
            lemma_apart(q, n, r, x, *a);
            match meaning::i_cond(q, n, r, *a) {
                Ends::Truth(_, r1) => {
                    lemma_apart(q, n, r1, x, *b);
                },
                _ => {},
            }
        },
        Cond::Or(a, b) => {
            lemma_apart(q, n, r, x, *a);
            match meaning::i_cond(q, n, r, *a) {
                Ends::Truth(_, r1) => {
                    lemma_apart(q, n, r1, x, *b);
                },
                _ => {},
            }
        },
        Cond::Not(a) => {
            lemma_apart(q, n, r, x, *a);
        },
        _ => {},
    }
}

proof fn lemma_truthy_apart(env: Env, s: Low, e: Expr)
    ensures
        match lowering::l_truthy(env, s, e) {
            Ok((_, c)) => apart(c),
            Err(_) => true,
        },
    decreases e,
{
    match e {
        Expr::Bin(op, a, b) => {
            if op == BinOp::And || op == BinOp::Or {
                lemma_truthy_apart(env, s, *a);
                match lowering::l_truthy(env, s, *a) {
                    Ok((s1, _)) => {
                        lemma_truthy_apart(env, s1, *b);
                    },
                    Err(_) => {},
                }
            }
        },
        Expr::Un(op, a) => {
            if op == UnOp::Not {
                lemma_truthy_apart(env, s, *a);
            }
        },
        _ => {},
    }
}

proof fn lemma_numbers(env: Env, s: Low, ps: Seq<Pattern>)
    requires
        ps.len() > 0,
        numbers(ps),
    ensures
        match lowering::l_patterns(env, s, ps) {
            Ok((s1, (bind, test))) => s1 == s && bind is None && test is Some && forall|
                q: Sums,
                n: nat,
                r: Map<u16, u64>,
                x: u64,
            | #[trigger]
                holds(q, n, r, x, test->Some_0) == Ends::Truth(among(ps, x), r),
            Err(_) => false,
        },
    decreases ps.len(),
{
    let less = ps.drop_last();
    let last = ps[ps.len() - 1];
    let e = last->Lit_0;
    let v = e->Num_0;
    assert(last is Lit && e is Num);
    assert(lowering::l_expr(env, s, e) == Ok::<(Low, Ir), Seq<char>>((s, Ir::Num(v))));
    let one = Cond::Subject(Box::new(Ir::Num(v)));
    assert forall|i: int| 0 <= i < less.len() implies (#[trigger] less[i] matches Pattern::Lit(e)
        && e is Num) by {
        assert(less[i] == ps[i]);
    }
    assert forall|q: Sums, n: nat, r: Map<u16, u64>, x: u64| #[trigger]
        holds(q, n, r, x, one) == Ends::Truth(num::equal(x, v), r) by {
        assert(meaning::i_num(q, n, r, Ir::Num(v)) == Ends::Num(v, r));
    }
    assert forall|x: u64| #[trigger] among(ps, x) == (among(less, x) || num::equal(x, v)) by {
        if among(less, x) {
            let i = choose|i: int|
                0 <= i < less.len() && num::equal(x, (#[trigger] less[i])->Lit_0->Num_0);
            assert(ps[i] == less[i]);
        }
        if num::equal(x, v) {
            assert(num::equal(x, ps[ps.len() - 1]->Lit_0->Num_0));
        }
        if among(ps, x) && !num::equal(x, v) {
            let i = choose|i: int|
                0 <= i < ps.len() && num::equal(x, (#[trigger] ps[i])->Lit_0->Num_0);
            assert(less[i] == ps[i]);
        }
    }
    if less.len() == 0 {
        assert(lowering::l_patterns(env, s, less) == Ok::<
            (Low, (Option<u16>, Option<Cond>)),
            Seq<char>,
        >((s, (None, None))));
        assert forall|q: Sums, n: nat, r: Map<u16, u64>, x: u64| #[trigger]
            holds(q, n, r, x, one) == Ends::Truth(among(ps, x), r) by {
            assert(!among(less, x));
        }
    } else {
        lemma_numbers(env, s, less);
        let t = lowering::l_patterns(env, s, less)->Ok_0.1.1->Some_0;
        let both = Cond::Or(Box::new(t), Box::new(one));
        assert forall|q: Sums, n: nat, r: Map<u16, u64>, x: u64| #[trigger]
            holds(q, n, r, x, both) == Ends::Truth(among(ps, x), r) by {
            assert(holds(q, n, r, x, t) == Ends::Truth(among(less, x), r));
            assert(holds(q, n, r, x, one) == Ends::Truth(num::equal(x, v), r));
        }
    }
}

proof fn lemma_anything(env: Env, s: Low, ps: Seq<Pattern>)
    requires
        is_choice(ps),
        !numbers(ps),
    ensures
        match lowering::l_patterns(env, s, ps) {
            Ok((s1, (bind, test))) => bind == name_of(ps) && test is None,
            Err(_) => false,
        },
{
    let less = ps.drop_last();
    assert(less.len() == 0);
    assert(lowering::l_patterns(env, s, less) == Ok::<
        (Low, (Option<u16>, Option<Cond>)),
        Seq<char>,
    >((s, (None, None))));
    assert(ps[ps.len() - 1] == ps[0]);
}

/// The states an arm is lowered in: before its patterns, before its body, and before
/// its guard.
pub open spec fn lowered_in(env: Env, s: Low, arms: Seq<Arm>, want: bool) -> Option<(Low, Low, Low)> {
    match lowering::l_arms(env, s, arms.drop_first(), want) {
        Ok((s1, _)) => match lowering::l_patterns(env, s1, arms[0].patterns@) {
            Ok((s2, _)) => match lowering::l_block(env, s2, arms[0].body, want) {
                Ok((s3, _)) => Some((s1, s2, s3)),
                Err(_) => None,
            },
            Err(_) => None,
        },
        Err(_) => None,
    }
}

proof fn lemma_of_arms(env: Env, s: Low, arms: Seq<Arm>, want: bool)
    requires
        arms.len() > 0,
        lowering::l_arms(env, s, arms, want) is Ok,
    ensures
        lowered_in(env, s, arms, want) is Some,
        ({
            let (s1, s2, s3) = lowered_in(env, s, arms, want)->Some_0;
            let rest = lowering::l_arms(env, s, arms.drop_first(), want)->Ok_0.1;
            let (bind, test) = lowering::l_patterns(env, s1, arms[0].patterns@)->Ok_0.1;
            let body = lowering::l_block(env, s2, arms[0].body, want)->Ok_0.1;
            let guard = lowering::l_guard(env, s3, arms[0].guard);
            let chain = lowering::l_arms(env, s, arms, want)->Ok_0.1;
            &&& guard is Ok
            &&& guard->Ok_0.0 == lowering::l_arms(env, s, arms, want)->Ok_0.0
            &&& chain == match lowering::arm_test(test, guard->Ok_0.1) {
                None => IrArms::Always { bind, body: Box::new(body) },
                Some(c) => IrArms::Test {
                    bind,
                    cond: Box::new(c),
                    body: Box::new(body),
                    rest: Box::new(rest),
                },
            }
        }),
{
}

proof fn lemma_of_guard(env: Env, s: Low, e: Expr)
    requires
        lowering::l_guard(env, s, Some(e)) is Ok,
    ensures
        lowering::l_truthy(env, s, e) is Ok,
        lowering::l_guard(env, s, Some(e))->Ok_0.0 == lowering::l_truthy(env, s, e)->Ok_0.0,
        lowering::l_guard(env, s, Some(e))->Ok_0.1 == Some(lowering::l_truthy(env, s, e)->Ok_0.1),
{
}

/// The lowered arm of a match on a number is taken where one of its patterns is for the
/// number and its guard holds of the locals then, and it is not taken otherwise. What
/// it then does is what its body does, and what is tried next is the next arm.
#[verifier::spinoff_prover]
pub proof fn lemma_the_arm_that_is_for_the_subject(
    q: Sums,
    n: nat,
    env: Env,
    s: Low,
    f: Map<u16, Cell>,
    arms: Seq<Arm>,
    want: bool,
    x: u64,
)
    requires
        arms.len() > 0,
        lowering::l_arms(env, s, arms, want) is Ok,
        is_choice(arms[0].patterns@),
        faithful::numbers_only(env),
        faithful::tied(q, env),
        lowered_in(env, s, arms, want) matches Some((s1, s2, s3)) && s3.ret_slot is None
            && faithful::held(s3.known, s3.flags, seen(f, arms[0].patterns@, x)) && faithful::within(
            q,
            lowering::l_arms(env, s, arms, want)->Ok_0.0,
        ) && (arms[0].guard matches Some(e) ==> faithful::placed(s3.known, s3.flags, e)),
        arms[0].guard matches Some(e) ==> meaning::t_cond(
            q,
            n,
            seen(f, arms[0].patterns@, x),
            e,
        ) is Truth,
    ensures
        ({
            let chain = lowering::l_arms(env, s, arms, want)->Ok_0.1;
            let f1 = seen(f, arms[0].patterns@, x);
            &&& taken(q, n, meaning::carry(f), x, chain) == Some(
                takes(arms[0].patterns@, x) && match arms[0].guard {
                    Some(e) => meaning::t_cond(q, n, f1, e)->Truth_0,
                    None => true,
                },
            )
            &&& body_of(chain) matches Some((bind, body)) && bind == name_of(arms[0].patterns@)
                && lowering::l_block(
                env,
                lowered_in(env, s, arms, want)->Some_0.1,
                arms[0].body,
                want,
            )->Ok_0.1 == body
            &&& rest_of(chain) matches Some(rest) ==> rest == lowering::l_arms(
                env,
                s,
                arms.drop_first(),
                want,
            )->Ok_0.1
        }),
{
    let ps = arms[0].patterns@;
    let (s1, s2, s3) = lowered_in(env, s, arms, want)->Some_0;
    let (bind, test) = lowering::l_patterns(env, s1, ps)->Ok_0.1;
    let f1 = seen(f, ps, x);
    let r = meaning::carry(f);
    lemma_of_arms(env, s, arms, want);
    let r1 = bound(r, bind, x);
    if numbers(ps) {
        lemma_numbers(env, s1, ps);
        assert(name_of(ps) is None) by {
            assert(ps[0] is Lit);
        }
    } else {
        lemma_anything(env, s1, ps);
    }
    assert(r1 == meaning::carry(f1)) by {
        match name_of(ps) {
            Some(slot) => {
                faithful::lemma_carry_insert(f, slot, Cell::Num(x));
            },
            None => {},
        }
    }
    match arms[0].guard {
        Some(e) => {
            lemma_of_guard(env, s3, e);
            let (s4, g) = lowering::l_truthy(env, s3, e)->Ok_0;
            faithful::lemma_cond(q, n, env, s3, f1, e);
            lemma_truthy_apart(env, s3, e);
            lemma_apart(q, n, r1, x, g);
            let v = meaning::t_cond(q, n, f1, e)->Truth_0;
            assert(meaning::i_cond(q, n, r1, g) matches Ends::Truth(w, _) && w == v);
            match test {
                Some(t) => {
                    let both = Cond::And(Box::new(t), Box::new(g));
                    assert(holds(q, n, r1, x, t) == Ends::Truth(among(ps, x), r1));
                    assert(holds(q, n, r1, x, both) == match holds(q, n, r1, x, t) {
                        Ends::Truth(v, r2) => if v {
                            holds(q, n, r2, x, g)
                        } else {
                            Ends::Truth(false, r2)
                        },
                        other => meaning::passed(other),
                    });
                },
                None => {},
            }
        },
        None => {
            match test {
                Some(t) => {
                    assert(holds(q, n, r1, x, t) == Ends::Truth(among(ps, x), r1));
                },
                None => {},
            }
        },
    }
}

} // verus!
