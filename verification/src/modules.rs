//! Files that scripts ask for: where they are looked for, and what each gave.
use crate::text;
use crate::value;
use crate::value::{Val, Value};
use vstd::prelude::*;

verus! {

/// The places of a file that was asked for, in the order they are tried.
pub struct Place {
    pub path: String,
    pub found: bool,
}

pub open spec fn first_found(ps: Seq<Place>, i: nat) -> Option<Seq<char>>
    decreases ps.len() - i,
{
    if i >= ps.len() {
        None
    } else if ps[i as int].found {
        Some(ps[i as int].path@)
    } else {
        first_found(ps, i + 1)
    }
}

/// Where a file is: as asked for if nothing else has it.
pub open spec fn resolved(asked: Seq<char>, ps: Seq<Place>) -> Seq<char> {
    match first_found(ps, 0) {
        Some(p) => p,
        None => asked,
    }
}

/// Where to look for something a script asks for: beside the file doing the
/// asking, then the working directory, with or without the extension.
pub fn resolve(asked: &str, places: &Vec<Place>) -> (r: String)
    ensures
        r@ == resolved(asked@, places@),
{
    let mut i: usize = 0;
    while i < places.len()
        invariant
            i <= places@.len(),
            first_found(places@, i as nat) == first_found(places@, 0),
        decreases places@.len() - i,
    {
        if places[i].found {
            return text::owned(places[i].path.as_str());
        }
        i = i + 1;
    }
    text::owned(asked)
}

// ---- what each gave ----------------------------------------------------------------------

/// Where a file is in the list, or the list's length.
pub open spec fn place_of(ms: Seq<(Seq<char>, Val)>, key: Seq<char>, i: nat) -> nat
    decreases ms.len() - i,
{
    if i >= ms.len() || ms[i as int].0 == key {
        i
    } else {
        place_of(ms, key, i + 1)
    }
}

pub open spec fn known(ms: Seq<(Seq<char>, Val)>, key: Seq<char>) -> Option<Val> {
    let i = place_of(ms, key, 0);
    if i < ms.len() {
        Some(ms[i as int].1)
    } else {
        None
    }
}

pub open spec fn noted(ms: Seq<(Seq<char>, Val)>, key: Seq<char>, v: Val) -> Seq<(Seq<char>, Val)> {
    let i = place_of(ms, key, 0);
    if i < ms.len() {
        ms.update(i as int, (key, v))
    } else {
        ms.push((key, v))
    }
}

pub open spec fn forgotten(ms: Seq<(Seq<char>, Val)>, key: Seq<char>) -> Seq<(Seq<char>, Val)> {
    let i = place_of(ms, key, 0);
    if i < ms.len() {
        ms.remove(i as int)
    } else {
        ms
    }
}

pub open spec fn distinct(ms: Seq<(Seq<char>, Val)>) -> bool {
    forall|i: int, j: int| 0 <= i < j < ms.len() ==> (#[trigger] ms[i]).0 != (#[trigger] ms[j]).0
}

proof fn lemma_place(ms: Seq<(Seq<char>, Val)>, key: Seq<char>, i: nat)
    requires
        i <= ms.len(),
    ensures
        ({
            let p = place_of(ms, key, i);
            &&& i <= p <= ms.len()
            &&& p < ms.len() ==> ms[p as int].0 == key
            &&& forall|k: int| i <= k < p ==> (#[trigger] ms[k]).0 != key
        }),
    decreases ms.len() - i,
{
    if i < ms.len() && ms[i as int].0 != key {
        lemma_place(ms, key, i + 1);
    }
}

pub open spec fn entry_views(s: Seq<(String, Value)>) -> Seq<(Seq<char>, Val)> {
    Seq::new(s.len(), |i: int| (s[i].0@, s[i].1@))
}

/// The files already run, by where they are, and what each gave.
pub struct Modules {
    done: Vec<(String, Value)>,
}

impl View for Modules {
    type V = Seq<(Seq<char>, Val)>;

    closed spec fn view(&self) -> Seq<(Seq<char>, Val)> {
        entry_views(self.done@)
    }
}

impl Modules {
    pub open spec fn wf(&self) -> bool {
        distinct(self@)
    }

    pub fn new() -> (r: Modules)
        ensures
            r.wf(),
            r@ == Seq::<(Seq<char>, Val)>::empty(),
    {
        let r = Modules { done: Vec::new() };
        assert(r@ =~= Seq::empty());
        r
    }

    fn find(&self, key: &str) -> (r: usize)
        ensures
            r == place_of(self@, key@, 0),
    {
        let ghost ms = self@;
        let mut i: usize = 0;
        while i < self.done.len()
            invariant
                i <= self.done@.len(),
                ms == entry_views(self.done@),
                place_of(ms, key@, i as nat) == place_of(ms, key@, 0),
            decreases self.done@.len() - i,
        {
            if text::same(self.done[i].0.as_str(), key) {
                return i;
            }
            i = i + 1;
        }
        i
    }

    /// Ask for a file: what it gave, if it was asked for before. If not it is
    /// to be run, and until it has a file that asks for it meanwhile gets nil.
    pub fn ask(&mut self, key: &str) -> (r: Option<Value>)
        requires
            old(self).wf(),
        ensures
            final(self).wf(),
            match known(old(self)@, key@) {
                Some(v) => r matches Some(x) && x@ == v && final(self)@ == old(self)@,
                None => r is None && final(self)@ == noted(old(self)@, key@, Val::Nil),
            },
    {
        proof {
            lemma_place(self@, key@, 0);
        }
        let i: usize = self.find(key);
        if i < self.done.len() {
            return Some(self.done[i].1.clone());
        }
        let ghost before = self@;
        self.done.push((text::owned(key), Value::Nil));
        assert(self@ =~= before.push((key@, Val::Nil)));
        None
    }

    /// A file ran, and this is what it gave.
    pub fn give(&mut self, key: &str, v: Value)
        requires
            old(self).wf(),
        ensures
            final(self).wf(),
            final(self)@ == noted(old(self)@, key@, v@),
    {
        proof {
            lemma_place(self@, key@, 0);
        }
        let ghost before = self@;
        let i: usize = self.find(key);
        if i < self.done.len() {
            let ghost x = v@;
            self.done.set(i, (text::owned(key), v));
            assert(self@ =~= before.update(i as int, (key@, x)));
            assert forall|a: int, b: int| 0 <= a < b < self@.len() implies (#[trigger] self@[a]).0 != (
            #[trigger] self@[b]).0 by {
                assert(before[a].0 != before[b].0);
            }
        } else {
            let ghost x = v@;
            self.done.push((text::owned(key), v));
            assert(self@ =~= before.push((key@, x)));
        }
    }

    /// A file failed: it may be asked for again.
    pub fn forget(&mut self, key: &str)
        requires
            old(self).wf(),
        ensures
            final(self).wf(),
            final(self)@ == forgotten(old(self)@, key@),
    {
        proof {
            lemma_place(self@, key@, 0);
        }
        let ghost before = self@;
        let i: usize = self.find(key);
        if i < self.done.len() {
            self.done.remove(i);
            assert(self@ =~= before.remove(i as int));
            assert forall|a: int, b: int| 0 <= a < b < self@.len() implies (#[trigger] self@[a]).0 != (
            #[trigger] self@[b]).0 by {
                let p = if a < i {
                    a
                } else {
                    a + 1
                };
                let q = if b < i {
                    b
                } else {
                    b + 1
                };
                assert(before[p].0 != before[q].0);
            }
        }
    }
}

/// A file is run once: whoever asks for it after it ran gets what it gave.
pub proof fn lemma_run_once(ms: Seq<(Seq<char>, Val)>, key: Seq<char>, v: Val)
    requires
        distinct(ms),
    ensures
        known(noted(ms, key, v), key) == Some(v),
{
    lemma_place(ms, key, 0);
    lemma_place(noted(ms, key, v), key, 0);
    let all = noted(ms, key, v);
    let i = place_of(ms, key, 0);
    assert(all[i as int] == (key, v));
    let p = place_of(all, key, 0);
    if p < i {
        assert(ms[p as int].0 != key);
    }
}

/// A file that failed is not known, so it is run again when asked for again.
pub proof fn lemma_failing_is_forgotten(ms: Seq<(Seq<char>, Val)>, key: Seq<char>)
    requires
        distinct(ms),
    ensures
        known(forgotten(ms, key), key) is None,
        forall|other: Seq<char>| other != key ==> known(forgotten(ms, key), other) == known(ms, other),
{
    lemma_place(ms, key, 0);
    let i = place_of(ms, key, 0);
    let rest = forgotten(ms, key);
    lemma_place(rest, key, 0);
    let p = place_of(rest, key, 0);
    if p < rest.len() {
        let q = if p < i {
            p as int
        } else {
            p as int + 1
        };
        if i < ms.len() {
            assert(rest[p as int] == ms[q]);
            if q < i {
                assert(ms[q].0 != key);
            } else {
                assert(ms[i as int].0 != ms[q].0);
            }
        }
    }
    assert forall|other: Seq<char>| other != key implies known(rest, other) == known(ms, other) by {
        lemma_place(ms, other, 0);
        lemma_place(rest, other, 0);
        let a = place_of(ms, other, 0);
        let b = place_of(rest, other, 0);
        if i < ms.len() {
            if a < ms.len() {
                let c = if a < i {
                    a as int
                } else {
                    a - 1
                };
                assert(rest[c] == ms[a as int]);
                if b < c {
                    let d = if b < i {
                        b as int
                    } else {
                        b as int + 1
                    };
                    assert(rest[b as int] == ms[d]);
                    assert(ms[d].0 != other);
                }
                assert(b == c);
            } else if b < rest.len() {
                let d = if b < i {
                    b as int
                } else {
                    b as int + 1
                };
                assert(rest[b as int] == ms[d]);
                assert(ms[d].0 != other);
            }
        }
    }
}

/// A file is taken from the first place that has it, and is where it was asked for only
/// if none has.
pub proof fn lemma_first_place(asked: Seq<char>, ps: Seq<Place>, k: int)
    requires
        0 <= k <= ps.len(),
        forall|i: int| 0 <= i < k ==> !(#[trigger] ps[i]).found,
    ensures
        k < ps.len() && ps[k].found ==> resolved(asked, ps) == ps[k].path@,
        k == ps.len() ==> resolved(asked, ps) == asked,
{
    lemma_found_first(ps, 0, k);
}

proof fn lemma_found_first(ps: Seq<Place>, j: nat, k: int)
    requires
        j <= k <= ps.len(),
        forall|i: int| 0 <= i < k ==> !(#[trigger] ps[i]).found,
    ensures
        k < ps.len() && ps[k].found ==> first_found(ps, j) == Some(ps[k].path@),
        k == ps.len() ==> first_found(ps, j) is None,
    decreases k - j,
{
    if j < k {
        lemma_found_first(ps, j + 1, k);
    }
}

} // verus!
