//! Locals that hold the length of a table, and small callees.
use super::calls;
use super::made;
use super::writes;
use crate::ast::{Binding, Block, Expr, FuncDef, Stat};
use crate::text;
use vstd::prelude::*;

verus! {

/// `let n = t.len()`: the local and the table.
pub open spec fn length_let(st: Stat) -> Option<(u16, u16)> {
    match st {
        Stat::LetSlots(bs, es) => if bs@.len() == 1 && es@.len() == 1 && !bs@[0].cell {
            match es@[0] {
                Expr::Method(obj, name, args) => if name@ == "len"@ && args@.len() == 0 {
                    match *obj {
                        Expr::Local(t, _) => Some((bs@[0].slot, t.slot)),
                        _ => None,
                    }
                } else {
                    None
                },
                _ => None,
            }
        } else {
            None
        },
        _ => None,
    }
}

/// Does anything but statement `i` of a block write this slot?
pub open spec fn written_elsewhere(b: Block, i: int, slot: u16) -> bool {
    writes::writes_of_tail(b.tail).contains(slot) || exists|j: int|
        0 <= j < b.stats@.len() && j != i && (#[trigger] writes::writes_of_stat(
            b.stats@[j],
        )).contains(slot)
}

/// Locals bound once, at the top of a body, to the length of a table: what
/// lets a loop up to one of them be proven on the way in, where the length
/// can be named and nothing has been written yet.
pub open spec fn lengths(b: Block, n: nat) -> Seq<(u16, u16)>
    decreases n,
{
    if n == 0 {
        Seq::empty()
    } else {
        lengths(b, (n - 1) as nat) + match length_let(b.stats@[n - 1]) {
            Some(p) => if written_elsewhere(b, n - 1, p.0) {
                Seq::empty()
            } else {
                seq![p]
            },
            None => Seq::empty(),
        }
    }
}

fn is_length_let(st: &Stat) -> (r: Option<(u16, u16)>)
    ensures
        r == length_let(*st),
{
    match st {
        Stat::LetSlots(bs, es) => {
            if bs.len() == 1 && es.len() == 1 && !bs[0].cell {
                match &es[0] {
                    Expr::Method(obj, name, args) => {
                        if text::same(name.as_str(), "len") && args.len() == 0 {
                            match &**obj {
                                Expr::Local(t, _) => Some((bs[0].slot, t.slot)),
                                _ => None,
                            }
                        } else {
                            None
                        }
                    },
                    _ => None,
                }
            } else {
                None
            }
        },
        _ => None,
    }
}

fn elsewhere(b: &Block, i: usize, slot: u16) -> (r: bool)
    ensures
        r == written_elsewhere(*b, i as int, slot),
{
    let mut at_end: Vec<u16> = Vec::new();
    match &b.tail {
        Some(e) => writes::writes_expr(e, &mut at_end),
        None => {},
    }
    assert(at_end@ =~= writes::writes_of_tail(b.tail));
    if super::walk::has(&at_end, slot) {
        return true;
    }
    let mut j: usize = 0;
    while j < b.stats.len()
        invariant
            j <= b.stats@.len(),
            !writes::writes_of_tail(b.tail).contains(slot),
            forall|k: int|
                0 <= k < j && k != i ==> !(#[trigger] writes::writes_of_stat(
                    b.stats@[k],
                )).contains(slot),
        decreases b.stats@.len() - j,
    {
        if j != i {
            let mut some: Vec<u16> = Vec::new();
            writes::writes_stat(&b.stats[j], &mut some);
            assert(some@ =~= writes::writes_of_stat(b.stats@[j as int]));
            if super::walk::has(&some, slot) {
                assert(writes::writes_of_stat(b.stats@[j as int]).contains(slot));
                return true;
            }
        }
        j = j + 1;
    }
    false
}

pub fn length_locals(b: &Block) -> (r: Vec<(u16, u16)>)
    ensures
        r@ == lengths(*b, b.stats@.len()),
{
    let mut out: Vec<(u16, u16)> = Vec::new();
    let mut i: usize = 0;
    while i < b.stats.len()
        invariant
            i <= b.stats@.len(),
            out@ == lengths(*b, i as nat),
        decreases b.stats@.len() - i,
    {
        match is_length_let(&b.stats[i]) {
            Some(p) => {
                if !elsewhere(b, i, p.0) {
                    out.push(p);
                }
            },
            None => {},
        }
        i = i + 1;
        assert(out@ =~= lengths(*b, i as nat));
    }
    out
}

/// Does a body end in a return of one value?
pub open spec fn ends_in_return(b: Block) -> bool {
    b.stats@.len() > 0 && match b.stats@[b.stats@.len() - 1] {
        Stat::Return(es) => es@.len() == 1,
        _ => false,
    }
}

pub fn ends_with_return(b: &Block) -> (r: bool)
    ensures
        r == ends_in_return(*b),
{
    let n: usize = b.stats.len();
    n > 0 && match &b.stats[n - 1] {
        Stat::Return(es) => es.len() == 1,
        _ => false,
    }
}

/// Is any parameter captured by a closure?
pub open spec fn captures_param(bs: Seq<Binding>) -> bool {
    exists|i: int| 0 <= i < bs.len() && (#[trigger] bs[i]).cell
}

pub fn any_cell(bs: &Vec<Binding>) -> (r: bool)
    ensures
        r == captures_param(bs@),
{
    let mut i: usize = 0;
    while i < bs.len()
        invariant
            i <= bs@.len(),
            forall|k: int| 0 <= k < i ==> !(#[trigger] bs@[k]).cell,
        decreases bs@.len() - i,
    {
        if bs[i].cell {
            assert(bs@[i as int].cell);
            return true;
        }
        i = i + 1;
    }
    false
}

/// Is a callee small and self-contained enough to be compiled beside its
/// caller? It calls nothing, makes no table, takes few parameters that nobody
/// captures, and has a value.
pub open spec fn small(def: FuncDef) -> bool {
    &&& calls::calls_of_block(def.body).len() == 0
    &&& def.params@.len() <= 4
    &&& made::made_slots(def.body).len() == 0
    &&& !captures_param(def.param_bindings@)
    &&& (def.body.tail is Some || ends_in_return(def.body))
}

pub fn worth_inlining(def: &FuncDef) -> (r: bool)
    ensures
        r == small(*def),
{
    let called = calls::called_globals(def);
    assert(called@.len() == calls::texts(called@).len());
    let made = made::made_tables(&def.body);
    called.len() == 0 && def.params.len() <= 4 && made.len() == 0 && !any_cell(&def.param_bindings)
        && (def.body.tail.is_some() || ends_with_return(&def.body))
}

} // verus!
