//! Which compiled code relies on which globals.
//!
//! A direct call jumps at a fixed address. When the global it was compiled
//! from changes, the caller's code goes, and so does the code of whoever
//! calls the caller.
use crate::text;
use vstd::prelude::*;

verus! {

#[verifier::ext_equal]
pub struct DepsView {
    /// A global, and a compiled function that calls what it held.
    pub funcs: Seq<(Seq<char>, usize)>,
    /// A global, and a compiled loop that calls what it held.
    pub loops: Seq<(Seq<char>, u32)>,
    /// The functions that have code, each with its name.
    pub compiled: Seq<(usize, Seq<char>)>,
}

pub open spec fn func_pairs(s: Seq<(String, usize)>) -> Seq<(Seq<char>, usize)> {
    Seq::new(s.len(), |i: int| (s[i].0@, s[i].1))
}

pub open spec fn loop_pairs(s: Seq<(String, u32)>) -> Seq<(Seq<char>, u32)> {
    Seq::new(s.len(), |i: int| (s[i].0@, s[i].1))
}

pub open spec fn named_funcs(s: Seq<(usize, String)>) -> Seq<(usize, Seq<char>)> {
    Seq::new(s.len(), |i: int| (s[i].0, s[i].1@))
}

pub struct Deps {
    pub funcs: Vec<(String, usize)>,
    pub loops: Vec<(String, u32)>,
    pub compiled: Vec<(usize, String)>,
}

impl View for Deps {
    type V = DepsView;

    open spec fn view(&self) -> DepsView {
        DepsView {
            funcs: func_pairs(self.funcs@),
            loops: loop_pairs(self.loops@),
            compiled: named_funcs(self.compiled@),
        }
    }
}

/// Each function has code at most once.
pub open spec fn deps_wf(d: DepsView) -> bool {
    forall|i: int, j: int|
        0 <= i < d.compiled.len() && 0 <= j < d.compiled.len() && i != j ==> (
        #[trigger] d.compiled[i]).0 != (#[trigger] d.compiled[j]).0
}

pub open spec fn has_code(d: DepsView, f: usize) -> bool {
    exists|name: Seq<char>| #[trigger] d.compiled.contains((f, name))
}

/// Does a change of `start` reach `name` in so many steps? It reaches the name
/// of every function whose code it throws away.
pub open spec fn reaches(d: DepsView, start: Seq<char>, name: Seq<char>, n: nat) -> bool
    decreases n,
{
    if n == 0 {
        name == start
    } else {
        exists|f: usize, link: Seq<char>| #[trigger]
            d.compiled.contains((f, name)) && #[trigger] d.funcs.contains((link, f)) && reaches(
                d,
                start,
                link,
                (n - 1) as nat,
            )
    }
}

pub open spec fn reached(d: DepsView, start: Seq<char>, name: Seq<char>) -> bool {
    exists|n: nat| #[trigger] reaches(d, start, name, n)
}

/// Does a change of `start` throw away the code of this function?
pub open spec fn func_hit(d: DepsView, start: Seq<char>, f: usize) -> bool {
    has_code(d, f) && exists|link: Seq<char>| #[trigger]
        d.funcs.contains((link, f)) && reached(d, start, link)
}

/// Does it throw away the code of this loop?
pub open spec fn loop_hit(d: DepsView, start: Seq<char>, id: u32) -> bool {
    exists|link: Seq<char>| #[trigger] d.loops.contains((link, id)) && reached(d, start, link)
}

/// The functions and loops whose code goes.
pub struct Dropped {
    pub funcs: Vec<usize>,
    pub loops: Vec<u32>,
}

pub open spec fn name_seqs(s: Seq<String>) -> Seq<Seq<char>> {
    Seq::new(s.len(), |i: int| s[i]@)
}

fn has_name(s: &Vec<String>, name: &str) -> (r: bool)
    ensures
        r == name_seqs(s@).contains(name@),
{
    let mut i: usize = 0;
    while i < s.len()
        invariant
            i <= s@.len(),
            forall|k: int| 0 <= k < i ==> #[trigger] name_seqs(s@)[k] != name@,
        decreases s@.len() - i,
    {
        if text::same(s[i].as_str(), name) {
            assert(name_seqs(s@)[i as int] == name@);
            return true;
        }
        i = i + 1;
    }
    false
}

/// What holds while the names still to be looked at are worked off.
spec fn invariant_of(
    d0: DepsView,
    start: Seq<char>,
    left: Seq<(usize, Seq<char>)>,
    queue: Seq<Seq<char>>,
    seen: Seq<Seq<char>>,
    gone: Seq<usize>,
) -> bool {
    &&& forall|name: Seq<char>|
        (#[trigger] queue.contains(name)) || seen.contains(name) ==> reached(d0, start, name)
    &&& forall|name: Seq<char>|
        (#[trigger] seen.contains(name)) ==> reached(d0, start, name)
    &&& queue.contains(start) || seen.contains(start)
    &&& forall|f: usize| #[trigger] gone.contains(f) ==> func_hit(d0, start, f)
    &&& forall|f: usize, name: Seq<char>| #[trigger]
        d0.compiled.contains((f, name)) ==> left.contains((f, name)) || (gone.contains(f) && (
        queue.contains(name) || seen.contains(name)))
    &&& forall|f: usize, name: Seq<char>| #[trigger]
        left.contains((f, name)) ==> d0.compiled.contains((f, name)) && !gone.contains(f)
    &&& forall|i: int, j: int|
        0 <= i < left.len() && 0 <= j < left.len() && i != j ==> (#[trigger] left[i]).0 != (
        #[trigger] left[j]).0
}

/// Nothing that relies on a name already looked at has code left.
spec fn closed_over(d0: DepsView, left: Seq<(usize, Seq<char>)>, seen: Seq<Seq<char>>) -> bool {
    forall|link: Seq<char>, f: usize, name: Seq<char>|
        seen.contains(link) && #[trigger] d0.funcs.contains((link, f)) ==> !#[trigger] left.contains(
            (f, name),
        )
}

/// Does a loop rely on one of these names?
spec fn loop_seen(d0: DepsView, seen: Seq<Seq<char>>, id: u32) -> bool {
    exists|link: Seq<char>| #[trigger] d0.loops.contains((link, id)) && seen.contains(link)
}

/// Once there is nothing left to look at, every name reached was.
proof fn lemma_all_seen(
    d0: DepsView,
    start: Seq<char>,
    left: Seq<(usize, Seq<char>)>,
    seen: Seq<Seq<char>>,
    gone: Seq<usize>,
    name: Seq<char>,
    n: nat,
)
    requires
        invariant_of(d0, start, left, Seq::empty(), seen, gone),
        closed_over(d0, left, seen),
        reaches(d0, start, name, n),
    ensures
        seen.contains(name),
    decreases n,
{
    let none = Seq::<Seq<char>>::empty();
    assert(!none.contains(start));
    if n > 0 {
        let (f, link) = choose|f: usize, link: Seq<char>| #[trigger]
            d0.compiled.contains((f, name)) && #[trigger] d0.funcs.contains((link, f)) && reaches(
                d0,
                start,
                link,
                (n - 1) as nat,
            );
        lemma_all_seen(d0, start, left, seen, gone, link, (n - 1) as nat);
        assert(d0.funcs.contains((link, f)));
        assert(!left.contains((f, name)));
        assert(d0.compiled.contains((f, name)));
        assert(!none.contains(name));
    }
}

/// Where a function's code is in the list.
fn code_at(s: &Vec<(usize, String)>, f: usize) -> (r: Option<usize>)
    ensures
        match r {
            Some(i) => i < s@.len() && s@[i as int].0 == f,
            None => forall|k: int| 0 <= k < s@.len() ==> (#[trigger] s@[k]).0 != f,
        },
{
    let mut i: usize = 0;
    while i < s.len()
        invariant
            i <= s@.len(),
            forall|k: int| 0 <= k < i ==> (#[trigger] s@[k]).0 != f,
        decreases s@.len() - i,
    {
        if s[i].0 == f {
            return Some(i);
        }
        i = i + 1;
    }
    None
}

impl Deps {
    pub fn new() -> (r: Deps)
        ensures
            r@.funcs.len() == 0,
            r@.loops.len() == 0,
            r@.compiled.len() == 0,
            deps_wf(r@),
    {
        Deps { funcs: Vec::new(), loops: Vec::new(), compiled: Vec::new() }
    }

    /// A function was compiled, with direct calls to these globals.
    pub fn add_func(&mut self, f: usize, name: &str, inlined: &Vec<String>)
        requires
            deps_wf(old(self)@),
        ensures
            deps_wf(final(self)@),
            has_code(final(self)@, f),
            final(self)@.loops == old(self)@.loops,
            final(self)@.funcs == old(self)@.funcs + Seq::new(
                inlined@.len(),
                |i: int| (inlined@[i]@, f),
            ),
            final(self)@.compiled == if has_code(old(self)@, f) {
                old(self)@.compiled
            } else {
                old(self)@.compiled.push((f, name@))
            },
    {
        let ghost was = self@;
        match code_at(&self.compiled, f) {
            Some(i) => {
                assert(self@.compiled[i as int] == (f, self.compiled@[i as int].1@));
                assert(self@.compiled.contains((f, self.compiled@[i as int].1@)));
            },
            None => {
                assert(!has_code(was, f)) by {
                    if has_code(was, f) {
                        let n = choose|n: Seq<char>| #[trigger] was.compiled.contains((f, n));
                        let k = choose|k: int|
                            0 <= k < was.compiled.len() && was.compiled[k] == (f, n);
                        assert(self.compiled@[k].0 == f);
                    }
                }
                self.compiled.push((f, text::owned(name)));
                assert(self@.compiled =~= was.compiled.push((f, name@)));
                assert(self@.compiled[was.compiled.len() as int] == (f, name@));
                assert(self@.compiled.contains((f, name@)));
                assert forall|i: int, j: int|
                    0 <= i < self@.compiled.len() && 0 <= j < self@.compiled.len() && i != j implies (
                #[trigger] self@.compiled[i]).0 != (#[trigger] self@.compiled[j]).0 by {
                    if i < was.compiled.len() {
                        assert(was.compiled.contains(was.compiled[i]));
                        assert(was.compiled[i] == (was.compiled[i].0, was.compiled[i].1));
                    }
                    if j < was.compiled.len() {
                        assert(was.compiled.contains(was.compiled[j]));
                        assert(was.compiled[j] == (was.compiled[j].0, was.compiled[j].1));
                    }
                }
            },
        }
        let ghost mid = self@;
        let ghost more = Seq::new(inlined@.len(), |i: int| (inlined@[i]@, f));
        let mut i: usize = 0;
        assert(self@.funcs =~= mid.funcs + more.take(0));
        while i < inlined.len()
            invariant
                i <= inlined@.len(),
                more == Seq::new(inlined@.len(), |k: int| (inlined@[k]@, f)),
                self@.funcs == mid.funcs + more.take(i as int),
                self@.loops == mid.loops,
                self@.compiled == mid.compiled,
            decreases inlined@.len() - i,
        {
            let ghost before = self@.funcs;
            self.funcs.push((inlined[i].clone(), f));
            assert(self@.funcs =~= before.push((inlined@[i as int]@, f)));
            assert(self@.funcs =~= mid.funcs + more.take(i as int + 1));
            i = i + 1;
        }
        assert(more.take(more.len() as int) =~= more);
    }

    /// A loop was compiled, with direct calls to these globals.
    pub fn add_loop(&mut self, id: u32, inlined: &Vec<String>)
        requires
            deps_wf(old(self)@),
        ensures
            deps_wf(final(self)@),
            final(self)@.funcs == old(self)@.funcs,
            final(self)@.compiled == old(self)@.compiled,
            final(self)@.loops == old(self)@.loops + Seq::new(
                inlined@.len(),
                |i: int| (inlined@[i]@, id),
            ),
    {
        let ghost was = self@;
        let ghost more = Seq::new(inlined@.len(), |i: int| (inlined@[i]@, id));
        let mut i: usize = 0;
        assert(self@.loops =~= was.loops + more.take(0));
        while i < inlined.len()
            invariant
                i <= inlined@.len(),
                more == Seq::new(inlined@.len(), |k: int| (inlined@[k]@, id)),
                self@.loops == was.loops + more.take(i as int),
                self@.funcs == was.funcs,
                self@.compiled == was.compiled,
            decreases inlined@.len() - i,
        {
            let ghost before = self@.loops;
            self.loops.push((inlined[i].clone(), id));
            assert(self@.loops =~= before.push((inlined@[i as int]@, id)));
            assert(self@.loops =~= was.loops + more.take(i as int + 1));
            i = i + 1;
        }
        assert(more.take(more.len() as int) =~= more);
    }

    /// A global changed: throw away every piece of code that can reach it.
    pub fn invalidate(&mut self, start: &str) -> (r: Dropped)
        requires
            deps_wf(old(self)@),
        ensures
            deps_wf(final(self)@),
            forall|f: usize| #[trigger] r.funcs@.contains(f) == func_hit(old(self)@, start@, f),
            forall|id: u32| #[trigger] r.loops@.contains(id) == loop_hit(old(self)@, start@, id),
            forall|f: usize, name: Seq<char>| #[trigger]
                final(self)@.compiled.contains((f, name)) == (old(self)@.compiled.contains((f, name))
                    && !func_hit(old(self)@, start@, f)),
            forall|link: Seq<char>, f: usize| #[trigger]
                final(self)@.funcs.contains((link, f)) == (old(self)@.funcs.contains((link, f))
                    && !reached(old(self)@, start@, link)),
            forall|link: Seq<char>, id: u32| #[trigger]
                final(self)@.loops.contains((link, id)) == (old(self)@.loops.contains((link, id))
                    && !reached(old(self)@, start@, link)),
    {
        let ghost d0 = self@;
        let ghost s0 = start@;
        let mut queue: Vec<String> = Vec::new();
        queue.push(text::owned(start));
        let mut seen: Vec<String> = Vec::new();
        let mut gone: Vec<usize> = Vec::new();
        proof {
            assert(reaches(d0, s0, s0, 0));
            assert(name_seqs(queue@)[0] == s0);
            assert(name_seqs(queue@) =~= seq![s0]);
            assert forall|i: int, j: int|
                0 <= i < d0.compiled.len() && 0 <= j < d0.compiled.len() && i != j implies (
            #[trigger] d0.compiled[i]).0 != (#[trigger] d0.compiled[j]).0 by {}
            assert(invariant_of(
                d0,
                s0,
                self@.compiled,
                name_seqs(queue@),
                name_seqs(seen@),
                gone@,
            ));
        }
        while queue.len() > 0
            invariant
                s0 == start@,
                self@.funcs == d0.funcs,
                self@.loops == d0.loops,
                invariant_of(d0, s0, self@.compiled, name_seqs(queue@), name_seqs(seen@), gone@),
                closed_over(d0, self@.compiled, name_seqs(seen@)),
            decreases self.compiled@.len(), queue@.len(),
        {
            let ghost q0 = name_seqs(queue@);
            let ghost n0 = self.compiled@.len();
            let name: String = match queue.pop() {
                Some(n) => n,
                None => String::new(),
            };
            let ghost q1 = name_seqs(queue@);
            assert(q1 =~= q0.drop_last());
            assert(q0.last() == name@);
            assert(q0.contains(name@));
            proof {
                lemma_split(q0, name@);
            }
            if has_name(&seen, name.as_str()) {
                assert(invariant_of(d0, s0, self@.compiled, q1, name_seqs(seen@), gone@));
                continue;
            }
            let ghost nm = name@;
            let ghost seen0 = name_seqs(seen@);
            assert(reached(d0, s0, nm));
            seen.push(name.clone());
            let ghost seen1 = name_seqs(seen@);
            assert(seen1 =~= seen0.push(nm));
            proof {
                lemma_pushed(seen0, nm);
            }
            assert(invariant_of(d0, s0, self@.compiled, q1, seen1, gone@));
            let mut i: usize = 0;
            while i < self.funcs.len()
                invariant
                    i <= self.funcs@.len(),
                    self@.funcs == d0.funcs,
                    self@.loops == d0.loops,
                    name@ == nm,
                    reached(d0, s0, nm),
                    seen1 == name_seqs(seen@),
                    seen1.contains(nm),
                    forall|x: Seq<char>| #[trigger] seen1.contains(x) == (x == nm || seen0.contains(x)),
                    invariant_of(d0, s0, self@.compiled, name_seqs(queue@), seen1, gone@),
                    closed_over(d0, self@.compiled, seen0),
                    forall|k: int, g: Seq<char>|
                        0 <= k < i && (#[trigger] d0.funcs[k]).0 == nm ==> !#[trigger] self@.compiled.contains(
                            (d0.funcs[k].1, g),
                        ),
                    self.compiled@.len() <= n0,
                    self.compiled@.len() == n0 ==> name_seqs(queue@) == q1,
                decreases self.funcs@.len() - i,
            {
                assert(d0.funcs[i as int] == (self.funcs@[i as int].0@, self.funcs@[i as int].1));
                if text::same(self.funcs[i].0.as_str(), name.as_str()) {
                    let f: usize = self.funcs[i].1;
                    assert(d0.funcs.contains((nm, f)));
                    match code_at(&self.compiled, f) {
                        Some(at) => {
                            let ghost left0 = self@.compiled;
                            let ghost queue0 = name_seqs(queue@);
                            let ghost gone0 = gone@;
                            let (_, fname) = self.compiled.remove(at);
                            let ghost fnm = fname@;
                            assert(self@.compiled =~= left0.remove(at as int));
                            assert(left0[at as int] == (f, fnm));
                            gone.push(f);
                            queue.push(fname);
                            assert(name_seqs(queue@) =~= queue0.push(fnm));
                            proof {
                                lemma_pushed(queue0, fnm);
                                lemma_gone(gone0, f);
                                lemma_removed(left0, at as int);
                                assert(left0.contains((f, fnm)));
                                assert(d0.compiled.contains((f, fnm)));
                                assert(has_code(d0, f));
                                assert(func_hit(d0, s0, f));
                                let n = choose|n: nat| #[trigger] reaches(d0, s0, nm, n);
                                assert(reaches(d0, s0, fnm, n + 1));
                                assert(reached(d0, s0, fnm));
                                assert(invariant_of(
                                    d0,
                                    s0,
                                    self@.compiled,
                                    name_seqs(queue@),
                                    seen1,
                                    gone@,
                                ));
                            }
                        },
                        None => {
                            assert forall|g: Seq<char>| !#[trigger] self@.compiled.contains(
                                (f, g),
                            ) by {
                                if self@.compiled.contains((f, g)) {
                                    let k = choose|k: int|
                                        0 <= k < self@.compiled.len() && self@.compiled[k] == (f, g);
                                    assert(self.compiled@[k].0 == f);
                                }
                            }
                        },
                    }
                }
                i = i + 1;
            }
            assert forall|link: Seq<char>, f: usize, g: Seq<char>|
                seen1.contains(link) && #[trigger] d0.funcs.contains((link, f)) implies !#[trigger] self@.compiled.contains(
                (f, g),
            ) by {
                if link == nm {
                    let k = choose|k: int| 0 <= k < d0.funcs.len() && d0.funcs[k] == (link, f);
                    assert(k < self.funcs@.len());
                    assert(d0.funcs[k].0 == nm);
                    assert(!self@.compiled.contains((d0.funcs[k].1, g)));
                } else {
                    assert(seen0.contains(link));
                }
            }
        }
        let ghost seen1 = name_seqs(seen@);
        assert(name_seqs(queue@) =~= Seq::empty());
        proof {
            assert forall|g: Seq<char>| #[trigger] seen1.contains(g) == reached(d0, s0, g) by {
                if reached(d0, s0, g) {
                    let n = choose|n: nat| #[trigger] reaches(d0, s0, g, n);
                    lemma_all_seen(d0, s0, self@.compiled, seen1, gone@, g, n);
                }
            }
            assert forall|f: usize| #[trigger] gone@.contains(f) == func_hit(d0, s0, f) by {
                if func_hit(d0, s0, f) {
                    let g = choose|g: Seq<char>| #[trigger] d0.compiled.contains((f, g));
                    let link = choose|link: Seq<char>| #[trigger]
                        d0.funcs.contains((link, f)) && reached(d0, s0, link);
                    assert(seen1.contains(link));
                    assert(!self@.compiled.contains((f, g)));
                }
            }
        }
        // what relied on the names that were reached is on record no longer
        let mut kept: Vec<(String, usize)> = Vec::new();
        let mut i: usize = 0;
        while i < self.funcs.len()
            invariant
                i <= self.funcs@.len(),
                self@.funcs == d0.funcs,
                self@.loops == d0.loops,
                seen1 == name_seqs(seen@),
                forall|k: int|
                    0 <= k < kept@.len() ==> d0.funcs.contains(
                        #[trigger] func_pairs(kept@)[k],
                    ) && !seen1.contains(func_pairs(kept@)[k].0),
                forall|k: int|
                    0 <= k < i && !seen1.contains((#[trigger] d0.funcs[k]).0) ==> func_pairs(
                        kept@,
                    ).contains(d0.funcs[k]),
            decreases self.funcs@.len() - i,
        {
            let ghost before = func_pairs(kept@);
            assert(d0.funcs[i as int] == (self.funcs@[i as int].0@, self.funcs@[i as int].1));
            if !has_name(&seen, self.funcs[i].0.as_str()) {
                kept.push((self.funcs[i].0.clone(), self.funcs[i].1));
                assert(func_pairs(kept@) =~= before.push(d0.funcs[i as int]));
                assert(func_pairs(kept@)[before.len() as int] == d0.funcs[i as int]);
                assert(d0.funcs.contains(d0.funcs[i as int]));
                assert forall|k: int|
                    0 <= k < kept@.len() implies d0.funcs.contains(
                    #[trigger] func_pairs(kept@)[k],
                ) && !seen1.contains(func_pairs(kept@)[k].0) by {
                    if k < before.len() {
                        assert(func_pairs(kept@)[k] == before[k]);
                    }
                }
                assert forall|k: int|
                    0 <= k < i + 1 && !seen1.contains(
                        (#[trigger] d0.funcs[k]).0,
                    ) implies func_pairs(kept@).contains(d0.funcs[k]) by {
                    if k < i {
                        let j = choose|j: int|
                            0 <= j < before.len() && before[j] == d0.funcs[k];
                        assert(func_pairs(kept@)[j] == d0.funcs[k]);
                    }
                }
            }
            i = i + 1;
        }
        let mut spared: Vec<(String, u32)> = Vec::new();
        let mut hit: Vec<u32> = Vec::new();
        let mut j: usize = 0;
        while j < self.loops.len()
            invariant
                j <= self.loops@.len(),
                self@.loops == d0.loops,
                seen1 == name_seqs(seen@),
                forall|k: int|
                    0 <= k < spared@.len() ==> d0.loops.contains(
                        #[trigger] loop_pairs(spared@)[k],
                    ) && !seen1.contains(loop_pairs(spared@)[k].0),
                forall|k: int|
                    0 <= k < j && !seen1.contains((#[trigger] d0.loops[k]).0) ==> loop_pairs(
                        spared@,
                    ).contains(d0.loops[k]),
                forall|k: int|
                    0 <= k < j && seen1.contains((#[trigger] d0.loops[k]).0) ==> hit@.contains(
                        d0.loops[k].1,
                    ),
                forall|k: int| 0 <= k < hit@.len() ==> loop_seen(d0, seen1, #[trigger] hit@[k]),
            decreases self.loops@.len() - j,
        {
            let ghost before = loop_pairs(spared@);
            let ghost hit0 = hit@;
            let id: u32 = self.loops[j].1;
            let ghost link = self.loops@[j as int].0@;
            assert(d0.loops[j as int] == (link, id));
            assert(d0.loops.contains((link, id)));
            if has_name(&seen, self.loops[j].0.as_str()) {
                hit.push(id);
                assert(hit@[hit0.len() as int] == id);
                assert(loop_seen(d0, seen1, id));
                assert forall|k: int|
                    0 <= k < j + 1 && seen1.contains(
                        (#[trigger] d0.loops[k]).0,
                    ) implies hit@.contains(d0.loops[k].1) by {
                    if k < j {
                        let m = choose|m: int|
                            0 <= m < hit0.len() && hit0[m] == d0.loops[k].1;
                        assert(hit@[m] == d0.loops[k].1);
                    }
                }
            } else {
                spared.push((self.loops[j].0.clone(), id));
                assert(loop_pairs(spared@) =~= before.push((link, id)));
                assert(loop_pairs(spared@)[before.len() as int] == (link, id));
                assert forall|k: int|
                    0 <= k < spared@.len() implies d0.loops.contains(
                    #[trigger] loop_pairs(spared@)[k],
                ) && !seen1.contains(loop_pairs(spared@)[k].0) by {
                    if k < before.len() {
                        assert(loop_pairs(spared@)[k] == before[k]);
                    }
                }
                assert forall|k: int|
                    0 <= k < j + 1 && !seen1.contains(
                        (#[trigger] d0.loops[k]).0,
                    ) implies loop_pairs(spared@).contains(d0.loops[k]) by {
                    if k < j {
                        let m = choose|m: int|
                            0 <= m < before.len() && before[m] == d0.loops[k];
                        assert(loop_pairs(spared@)[m] == d0.loops[k]);
                    }
                }
            }
            j = j + 1;
        }
        proof {
            assert forall|id: u32| #[trigger] hit@.contains(id) == loop_hit(d0, s0, id) by {
                if hit@.contains(id) {
                    let k = choose|k: int| 0 <= k < hit@.len() && hit@[k] == id;
                    assert(loop_seen(d0, seen1, id));
                    let link = choose|link: Seq<char>| #[trigger]
                        d0.loops.contains((link, id)) && seen1.contains(link);
                    assert(reached(d0, s0, link));
                }
                if loop_hit(d0, s0, id) {
                    let link = choose|link: Seq<char>| #[trigger]
                        d0.loops.contains((link, id)) && reached(d0, s0, link);
                    let k = choose|k: int| 0 <= k < d0.loops.len() && d0.loops[k] == (link, id);
                    assert(seen1.contains(link));
                    assert(seen1.contains(d0.loops[k].0));
                }
            }
            assert forall|link: Seq<char>, f: usize| #[trigger]
                func_pairs(kept@).contains((link, f)) == (d0.funcs.contains((link, f)) && !reached(
                    d0,
                    s0,
                    link,
                )) by {
                if func_pairs(kept@).contains((link, f)) {
                    let k = choose|k: int|
                        0 <= k < func_pairs(kept@).len() && func_pairs(kept@)[k] == (link, f);
                    assert(!seen1.contains(func_pairs(kept@)[k].0));
                    assert(seen1.contains(link) == reached(d0, s0, link));
                }
                if d0.funcs.contains((link, f)) && !reached(d0, s0, link) {
                    let k = choose|k: int| 0 <= k < d0.funcs.len() && d0.funcs[k] == (link, f);
                    assert(seen1.contains(link) == reached(d0, s0, link));
                    assert(!seen1.contains(d0.funcs[k].0));
                }
            }
            assert forall|link: Seq<char>, id: u32| #[trigger]
                loop_pairs(spared@).contains((link, id)) == (d0.loops.contains((link, id)) && !reached(
                    d0,
                    s0,
                    link,
                )) by {
                if loop_pairs(spared@).contains((link, id)) {
                    let k = choose|k: int|
                        0 <= k < loop_pairs(spared@).len() && loop_pairs(spared@)[k] == (link, id);
                    assert(!seen1.contains(loop_pairs(spared@)[k].0));
                    assert(seen1.contains(link) == reached(d0, s0, link));
                }
                if d0.loops.contains((link, id)) && !reached(d0, s0, link) {
                    let k = choose|k: int| 0 <= k < d0.loops.len() && d0.loops[k] == (link, id);
                    assert(seen1.contains(link) == reached(d0, s0, link));
                    assert(!seen1.contains(d0.loops[k].0));
                }
            }
            assert forall|f: usize, name: Seq<char>| #[trigger]
                self@.compiled.contains((f, name)) == (d0.compiled.contains((f, name)) && !func_hit(
                    d0,
                    s0,
                    f,
                )) by {
                assert(gone@.contains(f) == func_hit(d0, s0, f));
            }
        }
        self.funcs = kept;
        self.loops = spared;
        Dropped { funcs: gone, loops: hit }
    }
}

proof fn lemma_split(q: Seq<Seq<char>>, last: Seq<char>)
    requires
        q.len() > 0,
        q.last() == last,
    ensures
        forall|x: Seq<char>| #[trigger] q.contains(x) == (x == last || q.drop_last().contains(x)),
        forall|x: Seq<char>| #[trigger] q.drop_last().contains(x) ==> q.contains(x),
{
    assert forall|x: Seq<char>| q.contains(x) == (x == last || #[trigger] q.drop_last().contains(x)) by {
        if q.contains(x) {
            let i = choose|i: int| 0 <= i < q.len() && q[i] == x;
            if i < q.len() - 1 {
                assert(q.drop_last()[i] == x);
            }
        }
        if q.drop_last().contains(x) {
            let i = choose|i: int| 0 <= i < q.drop_last().len() && q.drop_last()[i] == x;
            assert(q[i] == x);
        }
        assert(q[q.len() - 1] == last);
    }
}

proof fn lemma_pushed(s: Seq<Seq<char>>, y: Seq<char>)
    ensures
        forall|x: Seq<char>| #[trigger] s.push(y).contains(x) == (x == y || s.contains(x)),
        forall|x: Seq<char>| #[trigger] s.contains(x) ==> s.push(y).contains(x),
{
    assert(s.push(y).drop_last() =~= s);
    lemma_split(s.push(y), y);
}

proof fn lemma_gone(s: Seq<usize>, y: usize)
    ensures
        forall|x: usize| #[trigger] s.push(y).contains(x) == (x == y || s.contains(x)),
{
    assert forall|x: usize| #[trigger] s.push(y).contains(x) == (x == y || s.contains(x)) by {
        if s.contains(x) {
            let i = choose|i: int| 0 <= i < s.len() && s[i] == x;
            assert(s.push(y)[i] == x);
        }
        assert(s.push(y)[s.len() as int] == y);
        if s.push(y).contains(x) && x != y {
            let i = choose|i: int| 0 <= i < s.push(y).len() && s.push(y)[i] == x;
            assert(s[i] == x);
        }
    }
}

proof fn lemma_removed(s: Seq<(usize, Seq<char>)>, at: int)
    requires
        0 <= at < s.len(),
        forall|i: int, j: int|
            0 <= i < s.len() && 0 <= j < s.len() && i != j ==> (#[trigger] s[i]).0 != (
            #[trigger] s[j]).0,
    ensures
        forall|f: usize, g: Seq<char>| #[trigger]
            s.remove(at).contains((f, g)) == (s.contains((f, g)) && f != s[at].0),
        forall|i: int, j: int|
            0 <= i < s.len() - 1 && 0 <= j < s.len() - 1 && i != j ==> (#[trigger] s.remove(
                at,
            )[i]).0 != (#[trigger] s.remove(at)[j]).0,
{
    let t = s.remove(at);
    assert forall|f: usize, g: Seq<char>| #[trigger]
        t.contains((f, g)) == (s.contains((f, g)) && f != s[at].0) by {
        if t.contains((f, g)) {
            let i = choose|i: int| 0 <= i < t.len() && t[i] == (f, g);
            if i < at {
                assert(s[i] == (f, g));
            } else {
                assert(s[i + 1] == (f, g));
            }
        }
        if s.contains((f, g)) && f != s[at].0 {
            let i = choose|i: int| 0 <= i < s.len() && s[i] == (f, g);
            if i < at {
                assert(t[i] == (f, g));
            } else {
                assert(t[i - 1] == (f, g));
            }
        }
    }
    assert forall|i: int, j: int|
        0 <= i < s.len() - 1 && 0 <= j < s.len() - 1 && i != j implies (#[trigger] t[i]).0 != (
    #[trigger] t[j]).0 by {
        let a = if i < at {
            i
        } else {
            i + 1
        };
        let b = if j < at {
            j
        } else {
            j + 1
        };
        assert(t[i] == s[a]);
        assert(t[j] == s[b]);
    }
}

/// After a global changed, nothing that still has code calls through it, nor
/// through a function whose code went with it.
pub proof fn lemma_nothing_stale(
    before: DepsView,
    after: DepsView,
    start: Seq<char>,
    link: Seq<char>,
    f: usize,
)
    requires
        forall|g: usize, name: Seq<char>| #[trigger]
            after.compiled.contains((g, name)) == (before.compiled.contains((g, name)) && !func_hit(
                before,
                start,
                g,
            )),
        before.funcs.contains((link, f)),
        link == start || exists|g: usize|
            func_hit(before, start, g) && #[trigger] before.compiled.contains((g, link)),
    ensures
        !has_code(after, f),
{
    if link == start {
        assert(reaches(before, start, link, 0));
    } else {
        let g = choose|g: usize|
            func_hit(before, start, g) && #[trigger] before.compiled.contains((g, link));
        let w = choose|w: Seq<char>| #[trigger]
            before.funcs.contains((w, g)) && reached(before, start, w);
        let n = choose|n: nat| #[trigger] reaches(before, start, w, n);
        assert(reaches(before, start, link, n + 1));
    }
    assert(reached(before, start, link));
    if has_code(after, f) {
        let name = choose|name: Seq<char>| #[trigger] after.compiled.contains((f, name));
        assert(before.compiled.contains((f, name)));
        assert(func_hit(before, start, f));
    }
}

} // verus!
