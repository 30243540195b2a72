//! Tables: an array part plus a keyed part.
//!
//! `t[0..n]` lives in a dense array; everything else is a list of pairs in
//! insertion order. Compiled code works on a third thing, a plain copy of the
//! array's numbers: what it writes there is kept or thrown away as a whole.
use crate::num;
use crate::value;
use crate::value::{Key, KeyVal, RStr, Val, Value};
use vstd::prelude::*;

verus! {

/// One past the most elements a table holds. Below it every array index is a
/// number of its own.
pub const LIMIT: u64 = 0x20_0000_0000_0000;

/// The model of a table.
#[verifier::ext_equal]
pub struct TableView {
    pub arr: Seq<Val>,
    pub pairs: Seq<(KeyVal, Val)>,
    /// The copy of the numbers that compiled code reads and writes.
    pub nums: Option<Seq<u64>>,
}

/// The array index a key denotes, if it denotes one.
pub open spec fn array_index(k: KeyVal) -> Option<u64> {
    match k {
        KeyVal::Num(b) => num::index_of(b),
        _ => None,
    }
}

/// The key of an array index.
pub open spec fn index_key(i: nat) -> KeyVal {
    KeyVal::Num(num::bits_of(i as u64))
}

/// Where a key is among the pairs from `i` on, or their number.
pub open spec fn find_key(pairs: Seq<(KeyVal, Val)>, k: KeyVal, i: nat) -> nat
    decreases pairs.len() - i,
{
    if i >= pairs.len() {
        pairs.len()
    } else if pairs[i as int].0 == k {
        i
    } else {
        find_key(pairs, k, i + 1)
    }
}

/// Where a field was found, as far as a place can be remembered; else the
/// place remembered before.
pub open spec fn remembered(pairs: Seq<(KeyVal, Val)>, name: Seq<char>, was: u32) -> u32 {
    let at = find_key(pairs, KeyVal::Str(name), 0);
    if at < pairs.len() && at < u32::MAX {
        at as u32
    } else {
        was
    }
}

/// The keyed part of a read.
pub open spec fn pair_get(pairs: Seq<(KeyVal, Val)>, k: KeyVal) -> Val {
    let at = find_key(pairs, k, 0);
    if at < pairs.len() {
        pairs[at as int].1
    } else {
        Val::Nil
    }
}

/// `t[k]`.
pub open spec fn t_get(t: TableView, k: KeyVal) -> Val {
    match array_index(k) {
        Some(i) => if i < t.arr.len() {
            t.arr[i as int]
        } else {
            pair_get(t.pairs, k)
        },
        None => pair_get(t.pairs, k),
    }
}

/// An array without the nils at its end.
pub open spec fn trimmed(arr: Seq<Val>) -> Seq<Val>
    decreases arr.len(),
{
    if arr.len() > 0 && arr.last() is Nil {
        trimmed(arr.drop_last())
    } else {
        arr
    }
}

/// The numbers after a write at `i`: kept in step by a number, else dropped.
pub open spec fn nums_written(nums: Option<Seq<u64>>, i: u64, v: Val) -> Option<Seq<u64>> {
    match (nums, v) {
        (Some(c), Val::Num(n)) => if i < c.len() {
            Some(c.update(i as int, n))
        } else {
            None
        },
        _ => None,
    }
}

/// The numbers after an append.
pub open spec fn nums_pushed(nums: Option<Seq<u64>>, v: Val) -> Option<Seq<u64>> {
    match (nums, v) {
        (Some(c), Val::Num(n)) => Some(c.push(n)),
        _ => None,
    }
}

/// Pull in the keys that now sit next to the array.
pub open spec fn absorbed(t: TableView) -> TableView
    decreases t.pairs.len(),
{
    let at = find_key(t.pairs, index_key(t.arr.len()), 0);
    if at < t.pairs.len() {
        absorbed(
            TableView {
                arr: t.arr.push(t.pairs[at as int].1),
                pairs: t.pairs.remove(at as int),
                nums: None,
            },
        )
    } else {
        t
    }
}

/// Append, including a nil.
pub open spec fn t_push(t: TableView, v: Val) -> TableView {
    absorbed(TableView { arr: t.arr.push(v), nums: nums_pushed(t.nums, v), ..t })
}

/// A write to the keyed part: nil takes the key out.
pub open spec fn pair_set(pairs: Seq<(KeyVal, Val)>, k: KeyVal, v: Val) -> Seq<(KeyVal, Val)> {
    let at = find_key(pairs, k, 0);
    if v is Nil {
        if at < pairs.len() {
            pairs.remove(at as int)
        } else {
            pairs
        }
    } else if at < pairs.len() {
        pairs.update(at as int, (k, v))
    } else {
        pairs.push((k, v))
    }
}

/// `t[k] = v`.
pub open spec fn t_set(t: TableView, k: KeyVal, v: Val) -> TableView {
    match array_index(k) {
        Some(i) => {
            let nums = nums_written(t.nums, i, v);
            if i < t.arr.len() {
                let arr = trimmed(t.arr.update(i as int, v));
                TableView {
                    arr,
                    nums: if arr.len() < t.arr.len() {
                        None
                    } else {
                        nums
                    },
                    ..t
                }
            } else if i == t.arr.len() && !(v is Nil) {
                t_push(TableView { nums, ..t }, v)
            } else {
                TableView { pairs: pair_set(t.pairs, k, v), nums, ..t }
            }
        },
        None => TableView { pairs: pair_set(t.pairs, k, v), ..t },
    }
}

/// Array indices first, then the other keys in insertion order.
pub open spec fn t_keys(t: TableView) -> Seq<KeyVal> {
    Seq::new(t.arr.len(), |i: int| index_key(i as nat)) + Seq::new(
        t.pairs.len(),
        |i: int| t.pairs[i].0,
    )
}

/// What every table keeps: keys are distinct and hold something, none of them
/// is an index the array could take, and the copy of the numbers is as long
/// as the array.
pub open spec fn t_wf(t: TableView) -> bool {
    &&& t.arr.len() + t.pairs.len() < LIMIT
    &&& forall|i: int, j: int|
        0 <= i < j < t.pairs.len() ==> (#[trigger] t.pairs[i]).0 != (#[trigger] t.pairs[j]).0
    &&& forall|i: int| 0 <= i < t.pairs.len() ==> !((#[trigger] t.pairs[i]).1 is Nil)
    &&& forall|i: int|
        0 <= i < t.pairs.len() ==> match array_index((#[trigger] t.pairs[i]).0) {
            Some(j) => j > t.arr.len(),
            None => true,
        }
    &&& t.nums matches Some(c) ==> c.len() == t.arr.len()
}

/// Is there room for one more element?
pub open spec fn t_room(t: TableView) -> bool {
    t.arr.len() + t.pairs.len() + 1 < LIMIT
}

/// A search finds the first place the key is at, and nothing before it.
pub proof fn lemma_find_key(pairs: Seq<(KeyVal, Val)>, k: KeyVal, i: nat)
    requires
        i <= pairs.len(),
    ensures
        i <= find_key(pairs, k, i) <= pairs.len(),
        find_key(pairs, k, i) < pairs.len() ==> pairs[find_key(pairs, k, i) as int].0 == k,
        forall|j: int| i <= j < find_key(pairs, k, i) ==> (#[trigger] pairs[j]).0 != k,
    decreases pairs.len() - i,
{
    if i < pairs.len() && pairs[i as int].0 != k {
        lemma_find_key(pairs, k, i + 1);
    }
}

proof fn lemma_find_is(pairs: Seq<(KeyVal, Val)>, k: KeyVal, at: nat)
    requires
        at < pairs.len(),
        pairs[at as int].0 == k,
        forall|i: int, j: int|
            0 <= i < j < pairs.len() ==> (#[trigger] pairs[i]).0 != (#[trigger] pairs[j]).0,
    ensures
        find_key(pairs, k, 0) == at,
{
    lemma_find_key(pairs, k, 0);
}

proof fn lemma_find_none(pairs: Seq<(KeyVal, Val)>, k: KeyVal)
    requires
        forall|i: int| 0 <= i < pairs.len() ==> (#[trigger] pairs[i]).0 != k,
    ensures
        find_key(pairs, k, 0) == pairs.len(),
{
    lemma_find_key(pairs, k, 0);
}

/// Taking one pair out leaves a read of every other key alone.
proof fn lemma_get_removed(pairs: Seq<(KeyVal, Val)>, at: nat, k: KeyVal)
    requires
        at < pairs.len(),
        pairs[at as int].0 != k,
        forall|i: int, j: int|
            0 <= i < j < pairs.len() ==> (#[trigger] pairs[i]).0 != (#[trigger] pairs[j]).0,
    ensures
        pair_get(pairs.remove(at as int), k) == pair_get(pairs, k),
{
    let less = pairs.remove(at as int);
    lemma_find_key(pairs, k, 0);
    let p = find_key(pairs, k, 0);
    if p < pairs.len() {
        let q: nat = if p < at {
            p
        } else {
            (p - 1) as nat
        };
        assert(less[q as int] == pairs[p as int]);
        assert forall|i: int, j: int| 0 <= i < j < less.len() implies (#[trigger] less[i]).0 != (
        #[trigger] less[j]).0 by {
            let a = if i < at {
                i
            } else {
                i + 1
            };
            let b = if j < at {
                j
            } else {
                j + 1
            };
            assert(less[i] == pairs[a] && less[j] == pairs[b]);
        }
        lemma_find_is(less, k, q);
    } else {
        assert forall|i: int| 0 <= i < less.len() implies (#[trigger] less[i]).0 != k by {
            let a = if i < at {
                i
            } else {
                i + 1
            };
            assert(less[i] == pairs[a]);
        }
        lemma_find_none(less, k);
    }
}

proof fn lemma_removed_wf(t: TableView, at: nat, v: Val)
    requires
        at < t.pairs.len(),
        forall|i: int, j: int|
            0 <= i < j < t.pairs.len() ==> (#[trigger] t.pairs[i]).0 != (#[trigger] t.pairs[j]).0,
        forall|i: int| 0 <= i < t.pairs.len() ==> !((#[trigger] t.pairs[i]).1 is Nil),
    ensures
        forall|i: int, j: int|
            0 <= i < j < t.pairs.len() - 1 ==> (#[trigger] t.pairs.remove(at as int)[i]).0 != (
            #[trigger] t.pairs.remove(at as int)[j]).0,
        forall|i: int|
            0 <= i < t.pairs.len() - 1 ==> !((#[trigger] t.pairs.remove(at as int)[i]).1 is Nil),
{
    let less = t.pairs.remove(at as int);
    assert forall|i: int, j: int| 0 <= i < j < less.len() implies (#[trigger] less[i]).0 != (
    #[trigger] less[j]).0 by {
        let a = if i < at {
            i
        } else {
            i + 1
        };
        let b = if j < at {
            j
        } else {
            j + 1
        };
        assert(less[i] == t.pairs[a] && less[j] == t.pairs[b]);
    }
    assert forall|i: int| 0 <= i < less.len() implies !((#[trigger] less[i]).1 is Nil) by {
        let a = if i < at {
            i
        } else {
            i + 1
        };
        assert(less[i] == t.pairs[a]);
    }
}

/// The table between an append and the absorbing that follows it: the next
/// index may still be among the keys.
pub open spec fn t_growing(t: TableView) -> bool {
    &&& t.arr.len() + t.pairs.len() < LIMIT
    &&& forall|i: int, j: int|
        0 <= i < j < t.pairs.len() ==> (#[trigger] t.pairs[i]).0 != (#[trigger] t.pairs[j]).0
    &&& forall|i: int| 0 <= i < t.pairs.len() ==> !((#[trigger] t.pairs[i]).1 is Nil)
    &&& forall|i: int|
        0 <= i < t.pairs.len() ==> match array_index((#[trigger] t.pairs[i]).0) {
            Some(j) => j >= t.arr.len(),
            None => true,
        }
    &&& t.arr.len() > 0
    &&& t.nums matches Some(c) ==> c.len() == t.arr.len()
}

/// Absorbing finishes the table and changes no read.
pub proof fn lemma_absorbed(t: TableView, k: KeyVal)
    requires
        t_growing(t),
    ensures
        t_wf(absorbed(t)),
        t_get(absorbed(t), k) == t_get(t, k),
        absorbed(t).arr.len() >= t.arr.len(),
        absorbed(t).arr.take(t.arr.len() as int) == t.arr,
        absorbed(t).arr.len() + absorbed(t).pairs.len() == t.arr.len() + t.pairs.len(),
    decreases t.pairs.len(),
{
    let n = t.arr.len();
    let next = index_key(n);
    let at = find_key(t.pairs, next, 0);
    lemma_find_key(t.pairs, next, 0);
    num::lemma_index_round_trip(n as u64);
    if at < t.pairs.len() {
        let u = TableView {
            arr: t.arr.push(t.pairs[at as int].1),
            pairs: t.pairs.remove(at as int),
            nums: None,
        };
        lemma_removed_wf(t, at, Val::Nil);
        assert forall|i: int| 0 <= i < u.pairs.len() implies match array_index(
            (#[trigger] u.pairs[i]).0,
        ) {
            Some(j) => j >= u.arr.len(),
            None => true,
        } by {
            let a = if i < at {
                i
            } else {
                i + 1
            };
            assert(u.pairs[i] == t.pairs[a]);
            match array_index(t.pairs[a].0) {
                Some(j) => {
                    if j == n {
                        num::lemma_index_unique(t.pairs[a].0->Num_0, j);
                        assert(t.pairs[a].0 == next);
                        if a < at {
                            assert(t.pairs[a].0 != t.pairs[at as int].0);
                        } else {
                            assert(t.pairs[at as int].0 != t.pairs[a].0);
                        }
                    }
                },
                None => {},
            }
        }
        lemma_absorbed(u, k);
        assert(absorbed(t) == absorbed(u));
        // the read is unchanged by the step
        match array_index(k) {
            Some(i) => {
                if i < n {
                } else if i == n {
                    num::lemma_index_unique(k->Num_0, i);
                    assert(k == next);
                } else {
                    assert(k != next);
                    lemma_get_removed(t.pairs, at, k);
                }
            },
            None => {
                assert(k != next);
                lemma_get_removed(t.pairs, at, k);
            },
        }
        assert(absorbed(t).arr.take(n as int) =~= t.arr) by {
            assert(absorbed(u).arr.take(u.arr.len() as int) == u.arr);
            assert forall|i: int| 0 <= i < n implies absorbed(u).arr[i] == t.arr[i] by {
                assert(absorbed(u).arr.take(u.arr.len() as int)[i] == u.arr[i]);
            }
        }
    } else {
        assert forall|i: int| 0 <= i < t.pairs.len() implies match array_index(
            (#[trigger] t.pairs[i]).0,
        ) {
            Some(j) => j > n,
            None => true,
        } by {
            match array_index(t.pairs[i].0) {
                Some(j) => {
                    if j == n {
                        num::lemma_index_unique(t.pairs[i].0->Num_0, j);
                        assert(t.pairs[i].0 == next);
                    }
                },
                None => {},
            }
        }
        assert(t.arr.take(n as int) =~= t.arr);
    }
}

/// An append keeps what the table keeps, puts the value at the end of what
/// was there, and leaves every other read alone.
pub proof fn lemma_push(t: TableView, v: Val, k: KeyVal)
    requires
        t_wf(t),
        t_room(t),
    ensures
        t_wf(t_push(t, v)),
        t_push(t, v).arr.len() > t.arr.len(),
        t_push(t, v).arr[t.arr.len() as int] == v,
        forall|i: int| 0 <= i < t.arr.len() ==> t_push(t, v).arr[i] == #[trigger] t.arr[i],
        array_index(k) != Some(t.arr.len() as u64) ==> t_get(t_push(t, v), k) == t_get(t, k),
        t_push(t, v).arr.len() + t_push(t, v).pairs.len() == t.arr.len() + t.pairs.len() + 1,
{
    let u = TableView { arr: t.arr.push(v), nums: nums_pushed(t.nums, v), ..t };
    assert(t_growing(u)) by {
        assert forall|i: int| 0 <= i < u.pairs.len() implies match array_index(
            (#[trigger] u.pairs[i]).0,
        ) {
            Some(j) => j >= u.arr.len(),
            None => true,
        } by {
            assert(u.pairs[i] == t.pairs[i]);
        }
    }
    lemma_absorbed(u, k);
    let p = absorbed(u);
    assert(p.arr.take(u.arr.len() as int) == u.arr);
    assert(p.arr[t.arr.len() as int] == p.arr.take(u.arr.len() as int)[t.arr.len() as int]);
    assert forall|i: int| 0 <= i < t.arr.len() implies p.arr[i] == #[trigger] t.arr[i] by {
        assert(p.arr.take(u.arr.len() as int)[i] == u.arr[i]);
    }
}

proof fn lemma_trimmed(arr: Seq<Val>)
    ensures
        trimmed(arr).len() <= arr.len(),
        trimmed(arr) == arr.take(trimmed(arr).len() as int),
        forall|i: int| trimmed(arr).len() <= i < arr.len() ==> #[trigger] arr[i] is Nil,
        trimmed(arr).len() > 0 ==> !(trimmed(arr).last() is Nil),
    decreases arr.len(),
{
    if arr.len() > 0 && arr.last() is Nil {
        lemma_trimmed(arr.drop_last());
        assert(trimmed(arr) =~= arr.take(trimmed(arr).len() as int));
        assert forall|i: int| trimmed(arr).len() <= i < arr.len() implies #[trigger] arr[i] is Nil by {
            if i < arr.len() - 1 {
                assert(arr.drop_last()[i] == arr[i]);
            }
        }
    } else {
        assert(arr.take(arr.len() as int) =~= arr);
    }
}

/// Do two keys name one place? Equal keys do, and so do two numbers that
/// denote one array index.
pub open spec fn same_place(a: KeyVal, b: KeyVal) -> bool {
    a == b || (array_index(a) is Some && array_index(a) == array_index(b))
}

/// A write keeps what the table keeps; it is what the next read of that place
/// gives back; and it leaves every other place alone.
pub proof fn lemma_set(t: TableView, k: KeyVal, v: Val, other: KeyVal)
    requires
        t_wf(t),
        t_room(t),
    ensures
        t_wf(t_set(t, k, v)),
        t_get(t_set(t, k, v), k) == v,
        !same_place(k, other) ==> t_get(t_set(t, k, v), other) == t_get(t, other),
        t_set(t, k, v).arr.len() + t_set(t, k, v).pairs.len() <= t.arr.len() + t.pairs.len() + 1,
{
    match array_index(k) {
        Some(i) => {
            let nums = nums_written(t.nums, i, v);
            if i < t.arr.len() {
                let full = t.arr.update(i as int, v);
                lemma_trimmed(full);
                let u = t_set(t, k, v);
                assert(u.pairs == t.pairs);
                assert forall|j: int| 0 <= j < u.arr.len() implies u.arr[j] == full[j] by {
                    assert(u.arr[j] == full.take(u.arr.len() as int)[j]);
                }
                assert(t_wf(u)) by {
                    assert forall|j: int| 0 <= j < u.pairs.len() implies match array_index(
                        (#[trigger] u.pairs[j]).0,
                    ) {
                        Some(x) => x > u.arr.len(),
                        None => true,
                    } by {
                        assert(u.pairs[j] == t.pairs[j]);
                    }
                }
                if u.arr.len() <= i {
                    assert(full[i as int] is Nil);
                    lemma_no_pair_below(t, k);
                }
                if !same_place(k, other) {
                    match array_index(other) {
                        Some(j) => {
                            if j < t.arr.len() && u.arr.len() <= j {
                                assert(full[j as int] is Nil);
                                lemma_no_pair_below(t, other);
                                assert(pair_get(t.pairs, other) is Nil);
                            }
                        },
                        None => {},
                    }
                }
            } else if i == t.arr.len() && !(v is Nil) {
                let w = TableView { nums, ..t };
                assert(t_wf(w));
                lemma_push(w, v, other);
            } else {
                lemma_pair_set(TableView { nums, ..t }, k, v, other);
            }
        },
        None => lemma_pair_set(t, k, v, other),
    }
}

proof fn lemma_no_pair_below(t: TableView, k: KeyVal)
    requires
        forall|i: int|
            0 <= i < t.pairs.len() ==> match array_index((#[trigger] t.pairs[i]).0) {
                Some(j) => j > t.arr.len(),
                None => true,
            },
        array_index(k) matches Some(i) && i <= t.arr.len(),
    ensures
        pair_get(t.pairs, k) is Nil,
{
    assert forall|x: int| 0 <= x < t.pairs.len() implies (#[trigger] t.pairs[x]).0 != k by {}
    lemma_find_none(t.pairs, k);
}

proof fn lemma_pair_set(t: TableView, k: KeyVal, v: Val, other: KeyVal)
    requires
        t_wf(t),
        t_room(t),
        array_index(k) matches Some(i) ==> i > t.arr.len() || (i == t.arr.len() && v is Nil),
    ensures
        ({
            let u = TableView { pairs: pair_set(t.pairs, k, v), ..t };
            &&& t_wf(u)
            &&& t_get(u, k) == v
            &&& k != other ==> t_get(u, other) == t_get(t, other)
            &&& u.pairs.len() <= t.pairs.len() + 1
        }),
{
    let at = find_key(t.pairs, k, 0);
    lemma_find_key(t.pairs, k, 0);
    let pairs = pair_set(t.pairs, k, v);
    let u = TableView { pairs, ..t };
    if v is Nil {
        if at < t.pairs.len() {
            lemma_removed_wf(t, at, v);
            assert forall|i: int| 0 <= i < pairs.len() implies (#[trigger] pairs[i]).0 != k by {
                let a = if i < at {
                    i
                } else {
                    i + 1
                };
                assert(pairs[i] == t.pairs[a]);
                if a < at {
                    assert(t.pairs[a].0 != t.pairs[at as int].0);
                } else {
                    assert(t.pairs[at as int].0 != t.pairs[a].0);
                }
            }
            lemma_find_none(pairs, k);
            if k != other {
                lemma_get_removed(t.pairs, at, other);
            }
        } else {
            assert forall|i: int| 0 <= i < pairs.len() implies (#[trigger] pairs[i]).0 != k by {}
            lemma_find_none(pairs, k);
        }
    } else if at < t.pairs.len() {
        assert forall|i: int, j: int| 0 <= i < j < pairs.len() implies (#[trigger] pairs[i]).0 != (
        #[trigger] pairs[j]).0 by {
            assert(pairs[i].0 == t.pairs[i].0 && pairs[j].0 == t.pairs[j].0);
        }
        assert forall|i: int| 0 <= i < pairs.len() implies match array_index(
            (#[trigger] pairs[i]).0,
        ) {
            Some(j) => j > t.arr.len(),
            None => true,
        } by {
            assert(pairs[i].0 == t.pairs[i].0);
        }
        lemma_find_is(pairs, k, at);
        if k != other {
            lemma_find_key(t.pairs, other, 0);
            let p = find_key(t.pairs, other, 0);
            if p < t.pairs.len() {
                assert(pairs[p as int].0 == other);
                lemma_find_is(pairs, other, p);
                assert(p != at);
            } else {
                assert forall|i: int| 0 <= i < pairs.len() implies (#[trigger] pairs[i]).0 != other by {
                    assert(pairs[i].0 == t.pairs[i].0);
                }
                lemma_find_none(pairs, other);
            }
        }
    } else {
        assert forall|i: int, j: int| 0 <= i < j < pairs.len() implies (#[trigger] pairs[i]).0 != (
        #[trigger] pairs[j]).0 by {
            assert(pairs[i] == t.pairs[i]);
            if j < t.pairs.len() {
                assert(pairs[j] == t.pairs[j]);
            }
        }
        assert forall|i: int| 0 <= i < pairs.len() implies match array_index(
            (#[trigger] pairs[i]).0,
        ) {
            Some(j) => j > t.arr.len(),
            None => true,
        } by {
            if i < t.pairs.len() {
                assert(pairs[i] == t.pairs[i]);
            }
        }
        lemma_find_is(pairs, k, t.pairs.len());
        if k != other {
            lemma_find_key(t.pairs, other, 0);
            let p = find_key(t.pairs, other, 0);
            if p < t.pairs.len() {
                assert(pairs[p as int] == t.pairs[p as int]);
                lemma_find_is(pairs, other, p);
            } else {
                assert forall|i: int| 0 <= i < pairs.len() implies (#[trigger] pairs[i]).0 != other by {
                    if i < t.pairs.len() {
                        assert(pairs[i] == t.pairs[i]);
                    }
                }
                lemma_find_none(pairs, other);
            }
        }
    }
}

// ---- what compiled code does to a table, and how it is undone ------------------------

/// The numbers of an array, if that is all it holds.
pub open spec fn numbers(arr: Seq<Val>) -> Option<Seq<u64>> {
    if forall|i: int| 0 <= i < arr.len() ==> #[trigger] arr[i] is Num {
        Some(Seq::new(arr.len(), |i: int| arr[i]->Num_0))
    } else {
        None
    }
}

/// Keep what compiled code wrote: the numbers go back over the array.
pub open spec fn t_commit(t: TableView) -> TableView {
    match t.nums {
        Some(c) => TableView {
            arr: Seq::new(
                t.arr.len(),
                |i: int| if i < c.len() {
                    Val::Num(c[i])
                } else {
                    t.arr[i]
                },
            ),
            ..t
        },
        None => t,
    }
}

/// Throw away what compiled code wrote.
pub open spec fn t_discard(t: TableView) -> TableView {
    TableView { nums: None, ..t }
}

/// Undo appends, back to a length.
pub open spec fn t_truncate(t: TableView, n: nat) -> TableView {
    if n < t.arr.len() {
        TableView {
            arr: t.arr.take(n as int),
            nums: match t.nums {
                Some(c) => Some(
                    if n < c.len() {
                        c.take(n as int)
                    } else {
                        c
                    },
                ),
                None => None,
            },
            ..t
        }
    } else {
        t
    }
}

/// One write through the view.
pub open spec fn t_view_write(t: TableView, i: nat, n: u64) -> TableView {
    match t.nums {
        Some(c) => TableView { nums: Some(c.update(i as int, n)), ..t },
        None => t,
    }
}

/// Any number of writes through the view.
pub open spec fn t_view_writes(t: TableView, ws: Seq<(nat, u64)>) -> TableView
    decreases ws.len(),
{
    if ws.len() == 0 {
        t
    } else {
        t_view_writes(t_view_write(t, ws[0].0, ws[0].1), ws.drop_first())
    }
}

/// Any number of appends.
pub open spec fn t_appends(t: TableView, vs: Seq<Val>) -> TableView
    decreases vs.len(),
{
    if vs.len() == 0 {
        t
    } else {
        t_appends(t_push(t, vs[0]), vs.drop_first())
    }
}

/// Whatever compiled code wrote through the view, throwing the view away
/// gives back the table as it was.
pub proof fn lemma_discard_undoes_writes(t: TableView, ws: Seq<(nat, u64)>)
    ensures
        t_discard(t_view_writes(t, ws)) == t_discard(t),
    decreases ws.len(),
{
    if ws.len() > 0 {
        lemma_discard_undoes_writes(t_view_write(t, ws[0].0, ws[0].1), ws.drop_first());
    }
}

/// Whatever compiled code appended to a plain array, cutting it back to the
/// length it had gives back the array as it was.
pub proof fn lemma_truncate_undoes_appends(t: TableView, vs: Seq<Val>)
    requires
        t.pairs.len() == 0,
    ensures
        t_truncate(t_appends(t, vs), t.arr.len()).arr == t.arr,
        t_truncate(t_appends(t, vs), t.arr.len()).pairs == t.pairs,
        t_appends(t, vs).arr.len() == t.arr.len() + vs.len(),
    decreases vs.len(),
{
    if vs.len() == 0 {
        assert(t.arr.take(t.arr.len() as int) =~= t.arr);
    } else {
        let u = t_push(t, vs[0]);
        assert(u.arr == t.arr.push(vs[0]) && u.pairs == t.pairs) by {
            lemma_find_none(t.pairs, index_key(t.arr.len() + 1));
        }
        lemma_truncate_undoes_appends(u, vs.drop_first());
        let all = t_appends(t, vs);
        assert(all == t_appends(u, vs.drop_first()));
        let back = t_truncate(all, u.arr.len()).arr;
        assert(back == u.arr);
        assert(all.arr.len() >= u.arr.len());
        assert(t_truncate(all, t.arr.len()).arr =~= t.arr) by {
            assert(t_truncate(all, t.arr.len()).arr == all.arr.take(t.arr.len() as int));
            assert forall|i: int| 0 <= i < t.arr.len() implies all.arr[i] == t.arr[i] by {
                if all.arr.len() == u.arr.len() {
                    assert(back == all.arr);
                } else {
                    assert(back == all.arr.take(u.arr.len() as int));
                    assert(back[i] == all.arr[i]);
                }
                assert(u.arr[i] == t.arr[i]);
            }
        }
        assert(t_truncate(all, t.arr.len()).pairs =~= t.pairs) by {
            assert(t_truncate(all, u.arr.len()).pairs == all.pairs);
        }
    }
}

/// A table made of numbers keeps them through a view that nobody wrote to.
pub proof fn lemma_commit_of_unwritten(t: TableView)
    requires
        t.nums == numbers(t.arr),
    ensures
        t_commit(t) == t,
{
    if t.nums is Some {
        assert(t_commit(t).arr =~= t.arr);
    }
}

// ---- the table itself ------------------------------------------------------------------

pub open spec fn pair_views(s: Seq<(Key, Value)>) -> Seq<(KeyVal, Val)> {
    Seq::new(s.len(), |i: int| (s[i].0@, s[i].1@))
}

/// A table.
pub struct Table {
    arr: Vec<Value>,
    /// Keyed entries, in insertion order.
    pairs: Vec<(Key, Value)>,
    /// A plain copy of the array's numbers, for compiled code.
    nums: Option<Vec<u64>>,
}

impl View for Table {
    type V = TableView;

    closed spec fn view(&self) -> TableView {
        TableView {
            arr: value::vals(self.arr@),
            pairs: pair_views(self.pairs@),
            nums: match self.nums {
                Some(c) => Some(c@),
                None => None,
            },
        }
    }
}

/// The array index a key denotes, if it denotes one.
fn index_of_key(k: &Key) -> (r: Option<u64>)
    ensures
        r == array_index(k@),
{
    match k {
        Key::Num(b) => num::num_index(*b),
        _ => None,
    }
}

impl Table {
    pub fn new() -> (r: Table)
        ensures
            r@.arr.len() == 0,
            r@.pairs.len() == 0,
            r@.nums is None,
            t_wf(r@),
    {
        Table { arr: Vec::new(), pairs: Vec::new(), nums: None }
    }

    /// Array length: the dense `0..n` run.
    pub fn len(&self) -> (r: usize)
        ensures
            r == self@.arr.len(),
    {
        self.arr.len()
    }

    pub fn is_empty(&self) -> (r: bool)
        ensures
            r == (self@.arr.len() == 0 && self@.pairs.len() == 0),
    {
        self.arr.len() == 0 && self.pairs.len() == 0
    }

    /// Is there room for one more element?
    pub fn has_room(&self) -> (r: bool)
        requires
            t_wf(self@),
        ensures
            r == t_room(self@),
    {
        (self.arr.len() as u64) + (self.pairs.len() as u64) + 1 < LIMIT
    }

    /// Where `k` lives among the pairs.
    fn find(&self, k: &Key) -> (r: Option<usize>)
        ensures
            match r {
                Some(i) => i < self@.pairs.len() && i == find_key(self@.pairs, k@, 0),
                None => find_key(self@.pairs, k@, 0) == self@.pairs.len(),
            },
    {
        let mut i: usize = 0;
        while i < self.pairs.len()
            invariant
                i <= self.pairs@.len(),
                find_key(self@.pairs, k@, i as nat) == find_key(self@.pairs, k@, 0),
            decreases self.pairs@.len() - i,
        {
            if self.pairs[i].0.equals(k) {
                return Some(i);
            }
            i = i + 1;
        }
        None
    }

    /// `t[k]`.
    pub fn get(&self, k: &Key) -> (r: Value)
        ensures
            r@ == t_get(self@, k@),
    {
        match index_of_key(k) {
            Some(i) => {
                if i < self.arr.len() as u64 {
                    return self.arr[i as usize].clone();
                }
            },
            None => {},
        }
        match self.find(k) {
            Some(i) => self.pairs[i].1.clone(),
            None => Value::Nil,
        }
    }

    /// `t.name`.
    pub fn get_field(&self, name: &RStr) -> (r: Value)
        ensures
            r@ == t_get(self@, KeyVal::Str(name@)),
    {
        self.get(&Key::Str(name.clone()))
    }

    /// `t.name`, remembering where it was found: the same line of a program
    /// reads the same field of objects built the same way.
    pub fn get_field_cached(&self, name: &RStr, at: &mut u32) -> (r: Value)
        requires
            t_wf(self@),
        ensures
            r@ == t_get(self@, KeyVal::Str(name@)),
            *final(at) == remembered(self@.pairs, name@, *old(at)),
    {
        let here: usize = *at as usize;
        if here < self.pairs.len() {
            match &self.pairs[here].0 {
                Key::Str(ks) => {
                    if ks.same(name) {
                        proof {
                            lemma_find_is(self@.pairs, KeyVal::Str(name@), here as nat);
                        }
                        return self.pairs[here].1.clone();
                    }
                },
                _ => {},
            }
        }
        match self.find(&Key::Str(name.clone())) {
            Some(i) => {
                if i < 0xffff_ffff {
                    *at = i as u32;
                }
                self.pairs[i].1.clone()
            },
            None => Value::Nil,
        }
    }

    pub fn get_str(&self, k: &str) -> (r: Value)
        ensures
            r@ == t_get(self@, KeyVal::Str(k@)),
    {
        self.get(&Key::Str(RStr::new(k)))
    }

    /// `t[n]` when `n` is an exact index into the array part.
    pub fn get_num(&self, n: u64) -> (r: Option<Value>)
        ensures
            match r {
                Some(v) => num::index_of(n) matches Some(i) && i < self@.arr.len() && v@
                    == self@.arr[i as int],
                None => !(num::index_of(n) matches Some(i) && i < self@.arr.len()),
            },
    {
        match num::num_index(n) {
            Some(i) => if i < self.arr.len() as u64 {
                Some(self.arr[i as usize].clone())
            } else {
                None
            },
            None => None,
        }
    }

    /// The element at a numeric index, if it is a number in the array part.
    pub fn num_at(&self, n: u64) -> (r: Option<u64>)
        ensures
            r == match num::index_of(n) {
                Some(i) => if i < self@.arr.len() {
                    match self@.arr[i as int] {
                        Val::Num(x) => Some(x),
                        _ => None,
                    }
                } else {
                    None
                },
                None => None,
            },
    {
        match self.get_num(n) {
            Some(Value::Num(x)) => Some(x),
            _ => None,
        }
    }

    pub fn get_index(&self, i: usize) -> (r: Value)
        requires
            t_wf(self@),
            i < LIMIT,
        ensures
            r@ == t_get(self@, index_key(i as nat)),
    {
        proof {
            num::lemma_index_round_trip(i as u64);
        }
        if i < self.arr.len() {
            self.arr[i].clone()
        } else {
            self.get(&Key::Num(num::num_from_index(i as u64)))
        }
    }

    /// Write `t[n] = v` in place when `n` indexes the array part and the write
    /// cannot change its shape. Returns whether it happened.
    pub fn set_num(&mut self, n: u64, v: &Value) -> (r: bool)
        requires
            t_wf(old(self)@),
            t_room(old(self)@),
        ensures
            t_wf(final(self)@),
            r == (num::index_of(n) matches Some(i) && i < old(self)@.arr.len() && !(v@ is Nil)),
            r ==> final(self)@ == t_set(old(self)@, KeyVal::Num(n), v@),
            !r ==> *final(self) == *old(self),
    {
        if v.is_nil() {
            return false;
        }
        match num::num_index(n) {
            Some(i) => {
                if i >= self.arr.len() as u64 {
                    return false;
                }
                self.set(Key::Num(n), v.clone());
                true
            },
            None => false,
        }
    }

    /// Write `t.field = v`. Returns whether it happened: a nil value goes the
    /// long way round.
    pub fn set_field(&mut self, name: &RStr, v: &Value) -> (r: bool)
        requires
            t_wf(old(self)@),
            t_room(old(self)@),
        ensures
            t_wf(final(self)@),
            r == !(v@ is Nil),
            r ==> final(self)@ == t_set(old(self)@, KeyVal::Str(name@), v@),
            !r ==> *final(self) == *old(self),
    {
        if v.is_nil() {
            return false;
        }
        self.set(Key::Str(name.clone()), v.clone());
        true
    }

    /// `t[k] = v`.
    pub fn set(&mut self, k: Key, v: Value)
        requires
            t_wf(old(self)@),
            t_room(old(self)@),
        ensures
            final(self)@ == t_set(old(self)@, k@, v@),
            t_wf(final(self)@),
    {
        proof {
            lemma_set(self@, k@, v@, k@);
        }
        match index_of_key(&k) {
            Some(i) => {
                self.note_write(i, &v);
                if i < self.arr.len() as u64 {
                    let ghost full = value::vals(self.arr@).update(i as int, v@);
                    let ghost kept = self@.nums;
                    self.arr.set(i as usize, v);
                    assert(value::vals(self.arr@) =~= full);
                    let n: usize = self.arr.len();
                    // a nil at the end shrinks the array part
                    while self.arr.len() > 0 && self.arr[self.arr.len() - 1].is_nil()
                        invariant
                            self.arr@.len() <= n,
                            n == full.len(),
                            trimmed(value::vals(self.arr@)) == trimmed(full),
                            self@.pairs == old(self)@.pairs,
                            self@.nums == if self.arr@.len() < n {
                                None
                            } else {
                                kept
                            },
                        decreases self.arr@.len(),
                    {
                        let ghost before = value::vals(self.arr@);
                        self.arr.pop();
                        self.nums = None;
                        assert(value::vals(self.arr@) =~= before.drop_last());
                    }
                    assert(self@ =~= t_set(old(self)@, k@, v@));
                    return;
                }
                if i == self.arr.len() as u64 && !v.is_nil() {
                    self.push(v);
                    return;
                }
            },
            None => {},
        }
        let ghost mid = self@;
        match self.find(&k) {
            Some(i) => {
                if v.is_nil() {
                    self.pairs.remove(i);
                    assert(self@.pairs =~= mid.pairs.remove(i as int));
                } else {
                    let ghost kv = (k@, v@);
                    self.pairs.set(i, (k, v));
                    assert(self@.pairs =~= mid.pairs.update(i as int, kv));
                }
            },
            None => {
                if !v.is_nil() {
                    let ghost kv = (k@, v@);
                    self.pairs.push((k, v));
                    assert(self@.pairs =~= mid.pairs.push(kv));
                }
            },
        }
        assert(self@ =~= t_set(old(self)@, k@, v@));
    }

    /// Keep the copy of the numbers in step with a write, or drop it.
    fn note_write(&mut self, i: u64, v: &Value)
        ensures
            final(self)@ == (TableView { nums: nums_written(old(self)@.nums, i, v@), ..old(self)@ }),
            final(self).arr == old(self).arr,
            final(self).pairs == old(self).pairs,
    {
        match self.nums.take() {
            Some(mut c) => {
                match v {
                    Value::Num(n) => {
                        if i < c.len() as u64 {
                            c.set(i as usize, *n);
                            self.nums = Some(c);
                        }
                    },
                    _ => {},
                }
            },
            None => {},
        }
        assert(self@ =~= (TableView { nums: nums_written(old(self)@.nums, i, v@), ..old(self)@ }));
    }

    pub fn set_str(&mut self, k: &str, v: Value)
        requires
            t_wf(old(self)@),
            t_room(old(self)@),
        ensures
            final(self)@ == t_set(old(self)@, KeyVal::Str(k@), v@),
            t_wf(final(self)@),
    {
        self.set(Key::Str(RStr::new(k)), v);
    }

    pub fn set_index(&mut self, i: usize, v: Value)
        requires
            t_wf(old(self)@),
            t_room(old(self)@),
        ensures
            final(self)@ == t_set(old(self)@, index_key(i as nat), v@),
            t_wf(final(self)@),
    {
        self.set(Key::Num(num::num_from_index(i as u64)), v);
    }

    /// Append, including a nil: `[1, nil, 2]` keeps its three slots.
    pub fn push(&mut self, v: Value)
        requires
            t_wf(old(self)@),
            t_room(old(self)@),
        ensures
            final(self)@ == t_push(old(self)@, v@),
            t_wf(final(self)@),
            final(self)@.arr.len() > old(self)@.arr.len(),
            final(self)@.arr.len() + final(self)@.pairs.len() == old(self)@.arr.len() + old(
                self,
            )@.pairs.len() + 1,
    {
        proof {
            lemma_push(self@, v@, KeyVal::Bool(true));
        }
        let ghost before = self@;
        match self.nums.take() {
            Some(mut c) => {
                match &v {
                    Value::Num(n) => {
                        c.push(*n);
                        self.nums = Some(c);
                    },
                    _ => {},
                }
            },
            None => {},
        }
        let ghost pushed = v@;
        self.arr.push(v);
        assert(self@ =~= (TableView {
            arr: before.arr.push(pushed),
            nums: nums_pushed(before.nums, pushed),
            ..before
        }));
        self.absorb_from_map();
    }

    /// Is there room for this many more elements?
    pub fn has_room_for(&self, n: usize) -> (r: bool)
        requires
            t_wf(self@),
        ensures
            r == (self@.arr.len() + self@.pairs.len() + n < LIMIT),
    {
        let have: u64 = self.arr.len() as u64 + self.pairs.len() as u64;
        (n as u64) < LIMIT - have
    }

    /// Append every one of these.
    pub fn push_all(&mut self, vals: &Vec<Value>)
        requires
            t_wf(old(self)@),
            old(self)@.arr.len() + old(self)@.pairs.len() + vals@.len() < LIMIT,
        ensures
            final(self)@ == t_appends(old(self)@, value::vals(vals@)),
            t_wf(final(self)@),
    {
        let ghost all = value::vals(vals@);
        let mut i: usize = 0;
        assert(all.skip(0) =~= all);
        while i < vals.len()
            invariant
                i <= vals@.len(),
                all == value::vals(vals@),
                t_wf(self@),
                self@.arr.len() + self@.pairs.len() + (vals@.len() - i) < LIMIT,
                t_appends(self@, all.skip(i as int)) == t_appends(old(self)@, all),
            decreases vals@.len() - i,
        {
            assert(all.skip(i as int)[0] == vals@[i as int]@);
            assert(all.skip(i as int).drop_first() =~= all.skip(i as int + 1));
            self.push(vals[i].clone());
            i = i + 1;
        }
        assert(all.skip(all.len() as int).len() == 0);
    }

    /// After growing the array part, pull in any keys that now sit next to it.
    fn absorb_from_map(&mut self)
        ensures
            final(self)@ == absorbed(old(self)@),
    {
        loop
            invariant
                absorbed(self@) == absorbed(old(self)@),
            ensures
                self@ == absorbed(old(self)@),
            decreases self.pairs@.len(),
        {
            let next = Key::Num(num::num_from_index(self.arr.len() as u64));
            match self.find(&next) {
                Some(i) => {
                    let ghost before = self@;
                    self.nums = None;
                    let (_, v) = self.pairs.remove(i);
                    self.arr.push(v);
                    assert(self@ =~= (TableView {
                        arr: before.arr.push(before.pairs[i as int].1),
                        pairs: before.pairs.remove(i as int),
                        nums: None,
                    }));
                },
                None => {
                    break;
                },
            }
        }
    }

    /// Array indices first, then the other keys in insertion order.
    pub fn keys(&self) -> (r: Vec<Key>)
        ensures
            r@.len() == t_keys(self@).len(),
            forall|i: int| 0 <= i < r@.len() ==> (#[trigger] r@[i])@ == t_keys(self@)[i],
    {
        let mut out: Vec<Key> = Vec::new();
        let mut i: usize = 0;
        while i < self.arr.len()
            invariant
                i <= self.arr@.len(),
                out@.len() == i,
                forall|k: int| 0 <= k < i ==> (#[trigger] out@[k])@ == index_key(k as nat),
            decreases self.arr@.len() - i,
        {
            out.push(Key::Num(num::num_from_index(i as u64)));
            i = i + 1;
        }
        let n: usize = self.arr.len();
        let mut j: usize = 0;
        while j < self.pairs.len()
            invariant
                n == self.arr@.len(),
                j <= self.pairs@.len(),
                out@.len() == n + j,
                forall|k: int| 0 <= k < n ==> (#[trigger] out@[k])@ == index_key(k as nat),
                forall|k: int|
                    n <= k < out@.len() ==> (#[trigger] out@[k])@ == self.pairs@[k - n].0@,
            decreases self.pairs@.len() - j,
        {
            out.push(self.pairs[j].0.clone());
            j = j + 1;
        }
        out
    }

    /// Is the array part all there is? An append then adds one slot and takes
    /// nothing from the keyed part, so undoing it is a truncation.
    pub fn is_plain_array(&self) -> (r: bool)
        ensures
            r == (self@.pairs.len() == 0),
    {
        self.pairs.len() == 0
    }

    /// The element at a place in the array part.
    pub fn at(&self, i: usize) -> (r: Option<Value>)
        ensures
            match r {
                Some(v) => i < self@.arr.len() && v@ == self@.arr[i as int],
                None => i >= self@.arr.len(),
            },
    {
        if i < self.arr.len() {
            Some(self.arr[i].clone())
        } else {
            None
        }
    }

    /// Could compiled code be handed a view of the numbers?
    pub fn has_numbers(&self) -> (r: bool)
        ensures
            r == (self@.nums is Some || numbers(self@.arr) is Some),
    {
        if self.nums.is_some() {
            return true;
        }
        let mut i: usize = 0;
        while i < self.arr.len()
            invariant
                i <= self.arr@.len(),
                self.nums is None,
                forall|k: int| 0 <= k < i ==> #[trigger] self@.arr[k] is Num,
            decreases self.arr@.len() - i,
        {
            match &self.arr[i] {
                Value::Num(_) => {},
                _ => {
                    assert(!(self@.arr[i as int] is Num));
                    return false;
                },
            }
            i = i + 1;
        }
        true
    }

    /// Make the copy of the numbers, unless it is there already. Nothing if
    /// an element is not a number.
    pub fn nums_span(&mut self) -> (r: Option<usize>)
        requires
            t_wf(old(self)@),
        ensures
            t_wf(final(self)@),
            final(self)@.arr == old(self)@.arr,
            final(self)@.pairs == old(self)@.pairs,
            final(self)@.nums == if old(self)@.nums is Some {
                old(self)@.nums
            } else {
                numbers(old(self)@.arr)
            },
            match r {
                Some(n) => n == old(self)@.arr.len() && final(self)@.nums is Some,
                None => final(self)@.nums is None,
            },
    {
        if self.nums.is_some() {
            return Some(self.arr.len());
        }
        let mut out: Vec<u64> = Vec::new();
        let mut i: usize = 0;
        while i < self.arr.len()
            invariant
                *self == *old(self),
                t_wf(self@),
                self.nums is None,
                i <= self.arr@.len(),
                out@.len() == i,
                forall|k: int| 0 <= k < i ==> self@.arr[k] == Val::Num(#[trigger] out@[k]),
            decreases self.arr@.len() - i,
        {
            match &self.arr[i] {
                Value::Num(n) => out.push(*n),
                _ => {
                    assert(!(self@.arr[i as int] is Num));
                    return None;
                },
            }
            i = i + 1;
        }
        let ghost nums = out@;
        proof {
            assert forall|k: int| 0 <= k < self@.arr.len() implies #[trigger] self@.arr[k] is Num by {
                assert(self@.arr[k] == Val::Num(nums[k]));
            }
            assert forall|k: int| 0 <= k < nums.len() implies nums[k] == (self@.arr[k])->Num_0 by {
                assert(self@.arr[k] == Val::Num(nums[k]));
            }
            assert(nums =~= numbers(self@.arr)->Some_0);
        }
        self.nums = Some(out);
        Some(self.arr.len())
    }

    /// The copy of the numbers, if there is one.
    pub fn nums_view(&self) -> (r: Option<&Vec<u64>>)
        ensures
            match r {
                Some(c) => self@.nums == Some(c@),
                None => self@.nums is None,
            },
    {
        match &self.nums {
            Some(c) => Some(c),
            None => None,
        }
    }

    /// Write one number through the view.
    pub fn view_write(&mut self, i: usize, n: u64)
        requires
            t_wf(old(self)@),
            i < old(self)@.arr.len(),
        ensures
            final(self)@ == t_view_write(old(self)@, i as nat, n),
            t_wf(final(self)@),
    {
        match self.nums.take() {
            Some(mut c) => {
                c.set(i, n);
                self.nums = Some(c);
            },
            None => {},
        }
        assert(self@ =~= t_view_write(old(self)@, i as nat, n));
    }

    /// Compiled code finished: copy what it wrote back over the array part.
    pub fn commit_nums(&mut self)
        requires
            t_wf(old(self)@),
        ensures
            final(self)@ == t_commit(old(self)@),
            t_wf(final(self)@),
    {
        match &self.nums {
            Some(c) => {
                let mut out: Vec<Value> = Vec::new();
                let mut i: usize = 0;
                while i < c.len()
                    invariant
                        i <= c@.len(),
                        out@.len() == i,
                        forall|k: int| 0 <= k < i ==> (#[trigger] out@[k])@ == Val::Num(c@[k]),
                    decreases c@.len() - i,
                {
                    out.push(Value::Num(c[i]));
                    i = i + 1;
                }
                self.arr = out;
            },
            None => {},
        }
        assert(self@ =~= t_commit(old(self)@));
    }

    /// Compiled code bailed out: throw away what it wrote.
    pub fn discard_nums(&mut self)
        requires
            t_wf(old(self)@),
        ensures
            final(self)@ == t_discard(old(self)@),
            t_wf(final(self)@),
    {
        self.nums = None;
    }

    /// Undo appends compiled code made, back to the length it started at.
    pub fn truncate_arr(&mut self, n: usize)
        requires
            t_wf(old(self)@),
            old(self)@.pairs.len() == 0 || n >= old(self)@.arr.len(),
        ensures
            final(self)@ == t_truncate(old(self)@, n as nat),
            t_wf(final(self)@),
    {
        if n < self.arr.len() {
            let ghost before = self@;
            self.arr.truncate(n);
            match self.nums.take() {
                Some(mut c) => {
                    c.truncate(n);
                    self.nums = Some(c);
                },
                None => {},
            }
            assert(self@ =~= t_truncate(before, n as nat));
        }
    }
}

} // verus!
