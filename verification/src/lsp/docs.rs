//! The documents the editor has open, as it last said they were.
use super::index;
use super::index::{LineIndex, Position, Range};
use crate::ast::Span;
use crate::text;
use vstd::prelude::*;

verus! {

struct Doc {
    uri: String,
    lines: LineIndex,
}

/// Is every document indexed, and known by one name?
spec fn sound(ds: Seq<Doc>) -> bool {
    &&& forall|i: int| 0 <= i < ds.len() ==> (#[trigger] ds[i]).lines.wf()
    &&& forall|i: int, j: int|
        0 <= i < j < ds.len() ==> (#[trigger] ds[i]).uri@ != (#[trigger] ds[j]).uri@
}

/// The text of each document, by name.
spec fn texts_by_name(ds: Seq<Doc>) -> Map<Seq<char>, Seq<char>>
    decreases ds.len(),
{
    if ds.len() == 0 {
        Map::empty()
    } else {
        texts_by_name(ds.drop_last()).insert(ds.last().uri@, ds.last().lines@)
    }
}

proof fn lemma_by_name(ds: Seq<Doc>, k: Seq<char>)
    requires
        sound(ds),
    ensures
        texts_by_name(ds).contains_key(k) <==> exists|i: int|
            0 <= i < ds.len() && (#[trigger] ds[i]).uri@ == k,
        forall|i: int|
            0 <= i < ds.len() && (#[trigger] ds[i]).uri@ == k ==> texts_by_name(ds)[k]
                == ds[i].lines@,
    decreases ds.len(),
{
    if ds.len() > 0 {
        let front = ds.drop_last();
        assert forall|i: int, j: int| 0 <= i < j < front.len() implies (#[trigger] front[i]).uri@
            != (#[trigger] front[j]).uri@ by {
            assert(ds[i].uri@ != ds[j].uri@);
        }
        assert forall|i: int| 0 <= i < front.len() implies (#[trigger] front[i]).lines.wf() by {
            assert(ds[i].lines.wf());
        }
        lemma_by_name(front, k);
        assert(ds[ds.len() - 1] == ds.last());
        if ds.last().uri@ != k {
            if exists|i: int| 0 <= i < ds.len() && (#[trigger] ds[i]).uri@ == k {
                let i = choose|i: int| 0 <= i < ds.len() && (#[trigger] ds[i]).uri@ == k;
                assert(front[i].uri@ == k);
            }
            if exists|i: int| 0 <= i < front.len() && (#[trigger] front[i]).uri@ == k {
                let i = choose|i: int| 0 <= i < front.len() && (#[trigger] front[i]).uri@ == k;
                assert(ds[i].uri@ == k);
            }
            assert forall|i: int| 0 <= i < ds.len() && (#[trigger] ds[i]).uri@ == k implies texts_by_name(
                ds,
            )[k] == ds[i].lines@ by {
                assert(front[i].uri@ == k);
            }
        } else {
            assert forall|i: int| 0 <= i < ds.len() && (#[trigger] ds[i]).uri@ == k implies texts_by_name(
                ds,
            )[k] == ds[i].lines@ by {
                if i < ds.len() - 1 {
                    assert(ds[i].uri@ != ds[ds.len() - 1].uri@);
                }
            }
        }
    }
}

pub struct Docs {
    open: Vec<Doc>,
}

impl View for Docs {
    type V = Map<Seq<char>, Seq<char>>;

    closed spec fn view(&self) -> Map<Seq<char>, Seq<char>> {
        texts_by_name(self.open@)
    }
}

impl Docs {
    pub closed spec fn wf(&self) -> bool {
        sound(self.open@)
    }

    pub fn new() -> (r: Docs)
        ensures
            r.wf(),
            r@ == Map::<Seq<char>, Seq<char>>::empty(),
    {
        Docs { open: Vec::new() }
    }

    fn find(&self, uri: &str) -> (r: Option<usize>)
        ensures
            match r {
                Some(i) => i < self.open@.len() && self.open@[i as int].uri@ == uri@,
                None => forall|i: int|
                    0 <= i < self.open@.len() ==> (#[trigger] self.open@[i]).uri@ != uri@,
            },
    {
        let mut i: usize = 0;
        while i < self.open.len()
            invariant
                i <= self.open@.len(),
                forall|k: int| 0 <= k < i ==> (#[trigger] self.open@[k]).uri@ != uri@,
            decreases self.open@.len() - i,
        {
            if text::same(self.open[i].uri.as_str(), uri) {
                return Some(i);
            }
            i = i + 1;
        }
        None
    }

    /// Take in a document's text, as it now is.
    pub fn set(&mut self, uri: &str, text: &str)
        requires
            old(self).wf(),
            index::bytes_before(text@, text@.len()) <= u32::MAX,
        ensures
            final(self).wf(),
            final(self)@ == old(self)@.insert(uri@, text@),
    {
        self.remove(uri);
        let ghost before = self.open@;
        proof {
            lemma_by_name(before, uri@);
        }
        self.open.push(Doc { uri: text::owned(uri), lines: LineIndex::new(text) });
        proof {
            assert(self.open@.drop_last() =~= before);
            assert forall|i: int, j: int| 0 <= i < j < self.open@.len() implies (
            #[trigger] self.open@[i]).uri@ != (#[trigger] self.open@[j]).uri@ by {
                if j < before.len() {
                    assert(before[i].uri@ != before[j].uri@);
                } else {
                    assert(before[i].uri@ != uri@);
                }
            }
            assert(self@ =~= old(self)@.insert(uri@, text@));
        }
    }

    /// Forget a document.
    pub fn remove(&mut self, uri: &str)
        requires
            old(self).wf(),
        ensures
            final(self).wf(),
            final(self)@ == old(self)@.remove(uri@),
    {
        let ghost before = self.open@;
        match self.find(uri) {
            Some(k) => {
                self.open.remove(k);
                let ghost after = self.open@;
                proof {
                    assert forall|i: int| 0 <= i < after.len() implies (#[trigger] after[i]).lines.wf() by {
                        let p = if i < k {
                            i
                        } else {
                            i + 1
                        };
                        assert(after[i] == before[p]);
                    }
                    assert forall|i: int, j: int| 0 <= i < j < after.len() implies (
                    #[trigger] after[i]).uri@ != (#[trigger] after[j]).uri@ by {
                        let p = if i < k {
                            i
                        } else {
                            i + 1
                        };
                        let q = if j < k {
                            j
                        } else {
                            j + 1
                        };
                        assert(after[i] == before[p] && after[j] == before[q]);
                        assert(before[p].uri@ != before[q].uri@);
                    }
                    let (a, b) = (texts_by_name(after), texts_by_name(before));
                    assert forall|n: Seq<char>| #[trigger]
                        a.dom().contains(n) == (b.dom().contains(n) && n != uri@) && (
                        a.dom().contains(n) ==> a[n] == b[n]) by {
                        lemma_by_name(before, n);
                        lemma_by_name(after, n);
                        if n == uri@ {
                            if exists|i: int| 0 <= i < after.len() && (#[trigger] after[i]).uri@ == n {
                                let i = choose|i: int|
                                    0 <= i < after.len() && (#[trigger] after[i]).uri@ == n;
                                let p = if i < k {
                                    i
                                } else {
                                    i + 1
                                };
                                assert(after[i] == before[p]);
                                if p < k {
                                    assert(before[p].uri@ != before[k as int].uri@);
                                } else {
                                    assert(before[k as int].uri@ != before[p].uri@);
                                }
                            }
                        } else {
                            if exists|i: int| 0 <= i < after.len() && (#[trigger] after[i]).uri@ == n {
                                let i = choose|i: int|
                                    0 <= i < after.len() && (#[trigger] after[i]).uri@ == n;
                                let p = if i < k {
                                    i
                                } else {
                                    i + 1
                                };
                                assert(after[i] == before[p]);
                                assert(before[p].uri@ == n);
                            }
                            if exists|i: int| 0 <= i < before.len() && (#[trigger] before[i]).uri@ == n {
                                let i = choose|i: int|
                                    0 <= i < before.len() && (#[trigger] before[i]).uri@ == n;
                                let p = if i < k {
                                    i
                                } else {
                                    i - 1
                                };
                                assert(after[p] == before[i]);
                                assert(after[p].uri@ == n);
                            }
                        }
                    }
                    assert(a =~= b.remove(uri@));
                }
            },
            None => {
                proof {
                    lemma_by_name(before, uri@);
                    assert(self@ =~= old(self)@.remove(uri@));
                }
            },
        }
    }

    /// A document, if it is open.
    pub fn get(&self, uri: &str) -> (r: Option<&LineIndex>)
        requires
            self.wf(),
        ensures
            match r {
                Some(l) => l.wf() && self@.contains_key(uri@) && self@[uri@] == l@,
                None => !self@.contains_key(uri@),
            },
    {
        proof {
            lemma_by_name(self.open@, uri@);
        }
        match self.find(uri) {
            Some(i) => Some(&self.open[i].lines),
            None => None,
        }
    }
}

/// Where a mistake is shown: the token if it names one, the whole line if it
/// could not.
pub open spec fn shown_at(s: Seq<char>, span: Span, line: u32) -> Range {
    if span.lo < span.hi {
        Range { start: index::position_of(s, span.lo), end: index::position_of(s, span.hi) }
    } else {
        let l = if line > 0 {
            (line - 1) as u32
        } else {
            0
        };
        Range {
            start: Position { line: l, character: 0 },
            end: Position { line: l, character: u32::MAX },
        }
    }
}

pub fn span_range(lines: &LineIndex, span: Span, line: u32) -> (r: Range)
    requires
        lines.wf(),
        index::on_boundary(lines@, span.lo),
        index::on_boundary(lines@, span.hi),
    ensures
        r == shown_at(lines@, span, line),
{
    if span.lo < span.hi {
        return lines.range(span.lo, span.hi);
    }
    let l: u32 = if line > 0 {
        line - 1
    } else {
        0
    };
    Range {
        start: Position { line: l, character: 0 },
        end: Position { line: l, character: u32::MAX },
    }
}

} // verus!
