//! What the walks over the tree share.
use crate::ast::{Binding, Expr};
use vstd::prelude::*;

verus! {

/// The slots of a run of bindings.
pub open spec fn slots_of(bs: Seq<Binding>) -> Seq<u16> {
    Seq::new(bs.len(), |i: int| bs[i].slot)
}

/// The slot of a binding that may not be there.
pub open spec fn slot_if(b: Option<Binding>) -> Seq<u16> {
    match b {
        Some(b) => seq![b.slot],
        None => Seq::empty(),
    }
}

/// The slot of a local that is named as it stands.
pub open spec fn local_slot(e: Expr) -> Option<u16> {
    match e {
        Expr::Local(b, _) => Some(b.slot),
        _ => None,
    }
}

/// The slots of those of some targets that are locals.
pub open spec fn target_slots(ts: Seq<Expr>) -> Seq<u16>
    decreases ts.len(),
{
    if ts.len() == 0 {
        Seq::empty()
    } else {
        target_slots(ts.drop_last()) + match local_slot(ts[ts.len() - 1]) {
            Some(s) => seq![s],
            None => Seq::empty(),
        }
    }
}

pub(super) fn push_slots(bs: &Vec<Binding>, out: &mut Vec<u16>)
    ensures
        final(out)@ == old(out)@ + slots_of(bs@),
{
    let mut i: usize = 0;
    while i < bs.len()
        invariant
            i <= bs@.len(),
            out@ == old(out)@ + slots_of(bs@).take(i as int),
        decreases bs@.len() - i,
    {
        out.push(bs[i].slot);
        assert(out@ =~= old(out)@ + slots_of(bs@).take(i as int + 1));
        i = i + 1;
    }
    assert(out@ =~= old(out)@ + slots_of(bs@));
}

pub(super) fn push_slot_if(b: &Option<Binding>, out: &mut Vec<u16>)
    ensures
        final(out)@ == old(out)@ + slot_if(*b),
{
    match b {
        Some(b) => out.push(b.slot),
        None => {},
    }
    assert(out@ =~= old(out)@ + slot_if(*b));
}

pub(super) fn push_targets(ts: &Vec<Expr>, out: &mut Vec<u16>)
    ensures
        final(out)@ == old(out)@ + target_slots(ts@),
{
    let mut i: usize = 0;
    while i < ts.len()
        invariant
            i <= ts@.len(),
            out@ == old(out)@ + target_slots(ts@.take(i as int)),
        decreases ts@.len() - i,
    {
        assert(ts@.take(i as int + 1).drop_last() =~= ts@.take(i as int));
        match &ts[i] {
            Expr::Local(b, _) => out.push(b.slot),
            _ => {},
        }
        assert(out@ =~= old(out)@ + target_slots(ts@.take(i as int + 1)));
        i = i + 1;
    }
    assert(ts@.take(ts@.len() as int) =~= ts@);
}

/// Is this number among these?
pub(super) fn has(s: &Vec<u16>, x: u16) -> (r: bool)
    ensures
        r == s@.contains(x),
{
    let mut i: usize = 0;
    while i < s.len()
        invariant
            i <= s@.len(),
            forall|k: int| 0 <= k < i ==> #[trigger] s@[k] != x,
        decreases s@.len() - i,
    {
        if s[i] == x {
            assert(s@[i as int] == x);
            return true;
        }
        i = i + 1;
    }
    false
}

/// How often a number occurs.
pub open spec fn occurrences(s: Seq<u16>, x: u16) -> nat
    decreases s.len(),
{
    if s.len() == 0 {
        0
    } else {
        occurrences(s.drop_last(), x) + if s.last() == x {
            1nat
        } else {
            0
        }
    }
}

pub(super) fn count(s: &Vec<u16>, x: u16) -> (r: usize)
    ensures
        r == occurrences(s@, x),
        r <= s@.len(),
{
    let mut n: usize = 0;
    let mut i: usize = 0;
    while i < s.len()
        invariant
            i <= s@.len(),
            n <= i,
            n == occurrences(s@.take(i as int), x),
        decreases s@.len() - i,
    {
        assert(s@.take(i as int + 1).drop_last() =~= s@.take(i as int));
        if s[i] == x {
            n = n + 1;
        }
        i = i + 1;
    }
    assert(s@.take(s@.len() as int) =~= s@);
    n
}

} // verus!
