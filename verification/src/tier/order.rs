//! In which order functions are compiled: the ones a function calls come
//! first, since a direct call can only be generated to code that exists.
use vstd::prelude::*;

verus! {

/// What is known while an order is worked out: which functions are still cold,
/// and the order so far.
pub ghost struct Plan {
    pub cold: Set<usize>,
    pub order: Seq<usize>,
}

/// The plan once a function and what it calls are in it. Functions under way
/// are those of `going`: what calls itself, through others or not, does not go
/// round. `left` bounds how deep calls are followed.
pub open spec fn planned(calls: Seq<Vec<usize>>, f: usize, going: Set<usize>, p: Plan, left: nat) -> Plan
    decreases left, 1int, 0nat,
{
    let inner = if left > 0 && f < calls.len() {
        each_planned(calls, calls[f as int]@, going.insert(f), p, (left - 1) as nat)
    } else {
        p
    };
    Plan { cold: inner.cold.remove(f), order: inner.order.push(f) }
}

/// The plan once each of some callees that is cold and not under way is in it.
pub open spec fn each_planned(
    calls: Seq<Vec<usize>>,
    callees: Seq<usize>,
    going: Set<usize>,
    p: Plan,
    left: nat,
) -> Plan
    decreases left, 2int, callees.len(),
{
    if callees.len() == 0 {
        p
    } else {
        let q = each_planned(calls, callees.drop_last(), going, p, left);
        let g = callees.last();
        if q.cold.contains(g) && !going.contains(g) {
            planned(calls, g, going, q, left)
        } else {
            q
        }
    }
}

pub open spec fn members(s: Seq<bool>) -> Set<usize> {
    Set::new(|i: usize| i < s.len() && s[i as int])
}

pub open spec fn plan_of(cold: Seq<bool>, order: Seq<usize>) -> Plan {
    Plan { cold: members(cold), order }
}

fn follow(
    calls: &Vec<Vec<usize>>,
    f: usize,
    going: &mut Vec<bool>,
    cold: &mut Vec<bool>,
    order: &mut Vec<usize>,
    left: usize,
)
    requires
        f < calls@.len(),
        old(going)@.len() == calls@.len(),
        old(cold)@.len() == calls@.len(),
        !old(going)@[f as int],
    ensures
        final(going)@ == old(going)@,
        final(cold)@.len() == calls@.len(),
        plan_of(final(cold)@, final(order)@) == planned(
            calls@,
            f,
            members(old(going)@),
            plan_of(old(cold)@, old(order)@),
            left as nat,
        ),
    decreases left, 1int, 0nat,
{
    let ghost around = members(going@);
    let ghost start = plan_of(cold@, order@);
    if left > 0 {
        going.set(f, true);
        assert(members(going@) =~= around.insert(f));
        follow_each(calls, &calls[f], going, cold, order, left - 1);
        going.set(f, false);
        assert(going@ =~= old(going)@);
    }
    let ghost inner = plan_of(cold@, order@);
    cold.set(f, false);
    order.push(f);
    assert(members(cold@) =~= inner.cold.remove(f));
}

fn follow_each(
    calls: &Vec<Vec<usize>>,
    callees: &Vec<usize>,
    going: &mut Vec<bool>,
    cold: &mut Vec<bool>,
    order: &mut Vec<usize>,
    left: usize,
)
    requires
        old(going)@.len() == calls@.len(),
        old(cold)@.len() == calls@.len(),
    ensures
        final(going)@ == old(going)@,
        final(cold)@.len() == calls@.len(),
        plan_of(final(cold)@, final(order)@) == each_planned(
            calls@,
            callees@,
            members(old(going)@),
            plan_of(old(cold)@, old(order)@),
            left as nat,
        ),
    decreases left, 2int, callees@.len(),
{
    let ghost around = members(going@);
    let ghost start = plan_of(cold@, order@);
    let mut i: usize = 0;
    assert(callees@.take(0) =~= Seq::empty());
    while i < callees.len()
        invariant
            i <= callees@.len(),
            going@ == old(going)@,
            going@.len() == calls@.len(),
            cold@.len() == calls@.len(),
            around == members(going@),
            plan_of(cold@, order@) == each_planned(
                calls@,
                callees@.take(i as int),
                around,
                start,
                left as nat,
            ),
        decreases callees@.len() - i,
    {
        assert(callees@.take(i as int + 1).drop_last() =~= callees@.take(i as int));
        assert(callees@.take(i as int + 1).last() == callees@[i as int]);
        let g: usize = callees[i];
        if g < cold.len() && cold[g] && !going[g] {
            follow(calls, g, going, cold, order, left);
        }
        i = i + 1;
    }
    assert(callees@.take(callees@.len() as int) =~= callees@);
}

/// The order to compile a function in, with the cold ones it calls before it.
/// `calls` says which functions each one calls, and `cold` which of them
/// nothing has been tried with.
pub fn compile_order(calls: &Vec<Vec<usize>>, cold: &Vec<bool>, f: usize) -> (r: Vec<usize>)
    requires
        f < calls@.len(),
        cold@.len() == calls@.len(),
    ensures
        r@ == planned(
            calls@,
            f,
            Set::empty(),
            plan_of(cold@, Seq::empty()),
            calls@.len(),
        ).order,
{
    let n: usize = calls.len();
    let mut going: Vec<bool> = Vec::new();
    let mut still: Vec<bool> = Vec::new();
    let mut i: usize = 0;
    while i < n
        invariant
            i <= n,
            n == cold@.len(),
            going@.len() == i,
            forall|k: int| 0 <= k < i ==> !#[trigger] going@[k],
            still@ == cold@.take(i as int),
        decreases n - i,
    {
        going.push(false);
        still.push(cold[i]);
        assert(still@ =~= cold@.take(i as int + 1));
        i = i + 1;
    }
    assert(still@ =~= cold@);
    assert(members(going@) =~= Set::empty());
    let mut order: Vec<usize> = Vec::new();
    follow(calls, f, &mut going, &mut still, &mut order, n);
    order
}

/// A function is compiled last of all that its own compiling brings about.
pub proof fn lemma_itself_last(calls: Seq<Vec<usize>>, f: usize, going: Set<usize>, p: Plan, left: nat)
    ensures
        planned(calls, f, going, p, left).order.len() > 0,
        planned(calls, f, going, p, left).order.last() == f,
        !planned(calls, f, going, p, left).cold.contains(f),
{
}

/// Nothing is put in twice: what is in the order is no longer cold, and only
/// what is cold is put in after the first.
pub open spec fn settled(p: Plan) -> bool {
    &&& p.order.no_duplicates()
    &&& forall|i: int| 0 <= i < p.order.len() ==> !p.cold.contains(#[trigger] p.order[i])
}

pub open spec fn apart(p: Plan, going: Set<usize>) -> bool {
    forall|i: int| 0 <= i < p.order.len() ==> !going.contains(#[trigger] p.order[i])
}

/// Each function is compiled once.
pub proof fn lemma_each_once(calls: Seq<Vec<usize>>, f: usize, going: Set<usize>, p: Plan, left: nat)
    requires
        settled(p),
        apart(p, going),
        !p.order.contains(f),
        !going.contains(f),
    ensures
        settled(planned(calls, f, going, p, left)),
        apart(planned(calls, f, going, p, left), going),
    decreases left, 1int, 0nat,
{
    let inner = if left > 0 && f < calls.len() {
        each_planned(calls, calls[f as int]@, going.insert(f), p, (left - 1) as nat)
    } else {
        p
    };
    let around = going.insert(f);
    assert(apart(p, around)) by {
        assert forall|i: int| 0 <= i < p.order.len() implies !around.contains(
            #[trigger] p.order[i],
        ) by {
            assert(p.order.contains(p.order[i]));
        }
    }
    if left > 0 && f < calls.len() {
        lemma_each_of_callees_once(calls, calls[f as int]@, around, p, (left - 1) as nat);
    }
    let out = planned(calls, f, going, p, left);
    assert(around.contains(f));
    assert forall|i: int, j: int|
        0 <= i < out.order.len() && 0 <= j < out.order.len() && i != j implies out.order[i]
        != out.order[j] by {
        if i < inner.order.len() && j < inner.order.len() {
            assert(inner.order[i] != inner.order[j]);
        } else if i < inner.order.len() {
            assert(!around.contains(inner.order[i]));
        } else {
            assert(!around.contains(inner.order[j]));
        }
    }
    assert forall|i: int| 0 <= i < out.order.len() implies !out.cold.contains(
        #[trigger] out.order[i],
    ) && !going.contains(out.order[i]) by {
        if i < inner.order.len() {
            assert(!around.contains(inner.order[i]));
            assert(!inner.cold.contains(inner.order[i]));
        }
    }
}

proof fn lemma_each_of_callees_once(
    calls: Seq<Vec<usize>>,
    callees: Seq<usize>,
    going: Set<usize>,
    p: Plan,
    left: nat,
)
    requires
        settled(p),
        apart(p, going),
    ensures
        settled(each_planned(calls, callees, going, p, left)),
        apart(each_planned(calls, callees, going, p, left), going),
    decreases left, 2int, callees.len(),
{
    if callees.len() > 0 {
        lemma_each_of_callees_once(calls, callees.drop_last(), going, p, left);
        let q = each_planned(calls, callees.drop_last(), going, p, left);
        let g = callees.last();
        if q.cold.contains(g) && !going.contains(g) {
            if q.order.contains(g) {
                let k = q.order.index_of(g);
                assert(!q.cold.contains(q.order[k]));
            }
            lemma_each_once(calls, g, going, q, left);
        }
    }
}

} // verus!
