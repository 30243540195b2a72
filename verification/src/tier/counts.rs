//! How hot loops are, and what is done about it.
use crate::machine::LOOP_BATCH;
use vstd::prelude::*;

verus! {

/// Iterations across its life after which a loop is compiled.
pub const LOOP_HOT: u64 = 50_000;

/// What is known of one loop.
#[derive(Clone, Copy, Debug, PartialEq, Eq, Structural)]
pub struct LoopCount {
    pub id: u32,
    pub iterations: u64,
    pub compiled: bool,
    /// It cannot be compiled, or cannot be found.
    pub blocked: bool,
}

/// What to do about a loop that has gone round another batch.
#[derive(Clone, Copy, Debug, PartialEq, Eq, Structural)]
pub enum LoopStep {
    /// Go on interpreting.
    Leave,
    /// Compile it, then run it.
    Compile,
    /// Run the code it has.
    Run,
}

/// The place of a loop in a list, or the list's length.
pub open spec fn loop_at(ls: Seq<LoopCount>, id: u32, i: nat) -> nat
    decreases ls.len() - i,
{
    if i >= ls.len() || ls[i as int].id == id {
        i
    } else {
        loop_at(ls, id, i + 1)
    }
}

pub open spec fn unseen(id: u32) -> LoopCount {
    LoopCount { id, iterations: 0, compiled: false, blocked: false }
}

/// What is known of a loop.
pub open spec fn loop_get(ls: Seq<LoopCount>, id: u32) -> LoopCount {
    let i = loop_at(ls, id, 0);
    if i < ls.len() {
        ls[i as int]
    } else {
        unseen(id)
    }
}

pub open spec fn loop_put(ls: Seq<LoopCount>, l: LoopCount) -> Seq<LoopCount> {
    let i = loop_at(ls, l.id, 0);
    if i < ls.len() {
        ls.update(i as int, l)
    } else {
        ls.push(l)
    }
}

/// Another batch of iterations.
pub open spec fn more(n: u64) -> u64 {
    if n + LOOP_BATCH > u64::MAX {
        u64::MAX
    } else {
        (n + LOOP_BATCH) as u64
    }
}

/// A loop went round another batch. One that is not compiled has to run hot
/// first. A loop whose syntax is not at hand is never looked for again.
pub open spec fn noted(l: LoopCount, found: bool) -> (LoopCount, LoopStep) {
    let next = LoopCount { iterations: more(l.iterations), ..l };
    if l.blocked || (!l.compiled && next.iterations < LOOP_HOT) {
        (next, LoopStep::Leave)
    } else if !found {
        (LoopCount { blocked: true, ..next }, LoopStep::Leave)
    } else if l.compiled {
        (next, LoopStep::Run)
    } else {
        (next, LoopStep::Compile)
    }
}

/// The loops that have been met.
pub struct Loops {
    pub list: Vec<LoopCount>,
}

fn batch(n: u64) -> (r: u64)
    ensures
        r == more(n),
{
    let by: u64 = LOOP_BATCH as u64;
    if n > u64::MAX - by {
        u64::MAX
    } else {
        n + by
    }
}

impl Loops {
    pub fn new() -> (r: Loops)
        ensures
            r.list@ == Seq::<LoopCount>::empty(),
    {
        Loops { list: Vec::new() }
    }

    fn place(&self, id: u32) -> (r: usize)
        ensures
            r == loop_at(self.list@, id, 0),
            r <= self.list@.len(),
            r < self.list@.len() ==> self.list@[r as int].id == id,
    {
        let mut i: usize = 0;
        while i < self.list.len()
            invariant
                i <= self.list@.len(),
                loop_at(self.list@, id, i as nat) == loop_at(self.list@, id, 0),
            decreases self.list@.len() - i,
        {
            if self.list[i].id == id {
                return i;
            }
            i = i + 1;
        }
        i
    }

    pub fn get(&self, id: u32) -> (r: LoopCount)
        ensures
            r == loop_get(self.list@, id),
            r.id == id,
    {
        let i: usize = self.place(id);
        if i < self.list.len() {
            self.list[i]
        } else {
            LoopCount { id, iterations: 0, compiled: false, blocked: false }
        }
    }

    fn put(&mut self, l: LoopCount)
        ensures
            final(self).list@ == loop_put(old(self).list@, l),
    {
        let i: usize = self.place(l.id);
        if i < self.list.len() {
            self.list.set(i, l);
        } else {
            self.list.push(l);
        }
    }

    /// A loop went round another batch: what now?
    pub fn note_loop(&mut self, id: u32, found: bool) -> (r: LoopStep)
        ensures
            r == noted(loop_get(old(self).list@, id), found).1,
            final(self).list@ == loop_put(
                old(self).list@,
                noted(loop_get(old(self).list@, id), found).0,
            ),
    {
        let l: LoopCount = self.get(id);
        let iterations: u64 = batch(l.iterations);
        if l.blocked || (!l.compiled && iterations < LOOP_HOT) {
            self.put(LoopCount { iterations, ..l });
            return LoopStep::Leave;
        }
        if !found {
            self.put(LoopCount { iterations, blocked: true, ..l });
            return LoopStep::Leave;
        }
        self.put(LoopCount { iterations, ..l });
        if l.compiled {
            LoopStep::Run
        } else {
            LoopStep::Compile
        }
    }

    /// A loop was compiled.
    pub fn built(&mut self, id: u32)
        ensures
            final(self).list@ == loop_put(
                old(self).list@,
                (LoopCount { compiled: true, ..loop_get(old(self).list@, id) }),
            ),
    {
        let l: LoopCount = self.get(id);
        self.put(LoopCount { compiled: true, ..l });
    }

    /// A loop could not be compiled.
    pub fn refused(&mut self, id: u32)
        ensures
            final(self).list@ == loop_put(
                old(self).list@,
                (LoopCount { blocked: true, ..loop_get(old(self).list@, id) }),
            ),
    {
        let l: LoopCount = self.get(id);
        self.put(LoopCount { blocked: true, ..l });
    }

    /// Throw away a loop's code: it has to run hot again.
    pub fn drop_code(&mut self, id: u32)
        ensures
            final(self).list@ == if loop_at(old(self).list@, id, 0) < old(self).list@.len() {
                loop_put(
                    old(self).list@,
                    (LoopCount {
                        compiled: false,
                        iterations: 0,
                        ..loop_get(old(self).list@, id)
                    }),
                )
            } else {
                old(self).list@
            },
    {
        let i: usize = self.place(id);
        if i < self.list.len() {
            let l: LoopCount = self.list[i];
            self.list.set(i, LoopCount { compiled: false, iterations: 0, ..l });
        }
    }
}

/// What is put for a loop is what is known of it, and nothing else changes.
pub proof fn lemma_put_get(ls: Seq<LoopCount>, l: LoopCount, id: u32)
    ensures
        loop_get(loop_put(ls, l), id) == (if id == l.id {
            l
        } else {
            loop_get(ls, id)
        }),
{
    lemma_loop_at(ls, l.id, 0);
    lemma_loop_at(ls, id, 0);
    let m = loop_put(ls, l);
    lemma_loop_at(m, id, 0);
    let i = loop_at(ls, l.id, 0);
    let j = loop_at(m, id, 0);
    let k = loop_at(ls, id, 0);
    if id == l.id {
        assert(m[i as int] == l);
        if j < i {
            assert(ls[j as int].id == id);
        }
        assert(j == i);
    } else if k < ls.len() {
        assert(m[k as int] == ls[k as int]);
        if j < k {
            assert(m[j as int].id == id);
            if j != i {
                assert(ls[j as int].id == id);
            }
        }
        assert(j == k);
    } else {
        if j < m.len() {
            if j != i {
                assert(ls[j as int].id == id);
            }
        }
    }
}

proof fn lemma_loop_at(ls: Seq<LoopCount>, id: u32, i: nat)
    requires
        i <= ls.len(),
    ensures
        i <= loop_at(ls, id, i) <= ls.len(),
        loop_at(ls, id, i) < ls.len() ==> ls[loop_at(ls, id, i) as int].id == id,
        forall|k: int| i <= k < loop_at(ls, id, i) ==> (#[trigger] ls[k]).id != id,
    decreases ls.len() - i,
{
    if i < ls.len() && ls[i as int].id != id {
        lemma_loop_at(ls, id, i + 1);
    }
}

/// A loop that was refused is left alone for good.
pub proof fn lemma_refused_stays(l: LoopCount, found: bool)
    requires
        l.blocked,
    ensures
        noted(l, found).1 == LoopStep::Leave,
        noted(l, found).0.blocked,
{
}

/// A loop is asked to be compiled only once it has gone round often enough.
pub proof fn lemma_cold_stays(l: LoopCount, found: bool)
    requires
        !l.compiled,
        l.iterations + LOOP_BATCH < LOOP_HOT,
    ensures
        noted(l, found).1 == LoopStep::Leave,
        noted(l, found).0.iterations == l.iterations + LOOP_BATCH,
{
}

} // verus!
