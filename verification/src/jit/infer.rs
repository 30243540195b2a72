//! What each slot holds, settled from how it is used.
use super::kinds;
use super::kinds::{Callable, Kind, KindUse};
use super::made;
use crate::ast::{Block, Stat};
use crate::text;
use vstd::prelude::*;

verus! {

/// The kind of a slot, once something has been said of it.
pub open spec fn kind_at(ks: Seq<(u16, Kind)>, slot: u16) -> Option<Kind>
    decreases ks.len(),
{
    if ks.len() == 0 {
        None
    } else if ks[0].0 == slot {
        Some(ks[0].1)
    } else {
        kind_at(ks.drop_first(), slot)
    }
}

/// The same, with this slot holding that.
pub open spec fn kind_put(ks: Seq<(u16, Kind)>, slot: u16, kind: Kind) -> Seq<(u16, Kind)>
    decreases ks.len(),
{
    if ks.len() == 0 {
        seq![(slot, kind)]
    } else if ks[0].0 == slot {
        seq![(slot, kind)] + ks.drop_first()
    } else {
        seq![ks[0]] + kind_put(ks.drop_first(), slot, kind)
    }
}

/// How a kind is written.
pub open spec fn kind_text(k: Kind) -> Seq<char> {
    match k {
        Kind::Num => "Num"@,
        Kind::Table => "Table"@,
        Kind::TableOut => "TableOut"@,
        Kind::New => "New"@,
        Kind::Bool => "Bool"@,
        Kind::Dead => "Dead"@,
        Kind::Tables { checked, min } => "Tables { checked: "@ + (if checked {
            "true"@
        } else {
            "false"@
        }) + ", min: "@ + text::decimal(min as nat) + " }"@,
    }
}

/// What is known of the slots, and the last disagreement.
#[verifier::ext_equal]
pub struct Found {
    pub kinds: Seq<(u16, Kind)>,
    pub bad: Option<Seq<char>>,
}

pub open spec fn disagreement(slot: u16, a: Kind, b: Kind) -> Seq<char> {
    "slot "@ + text::decimal(slot as nat) + " is used as both "@ + kind_text(a) + " and "@
        + kind_text(b)
}

/// A slot is used as this. A table the code made may be appended to and named
/// like any local; any other second opinion is a disagreement.
pub open spec fn noted(f: Found, slot: u16, kind: Kind) -> Found {
    match kind_at(f.kinds, slot) {
        Some(old_kind) => if old_kind == Kind::New && (kind is Num || kind is TableOut) {
            f
        } else {
            Found {
                kinds: kind_put(f.kinds, slot, kind),
                bad: if old_kind != kind {
                    Some(disagreement(slot, old_kind, kind))
                } else {
                    f.bad
                },
            }
        },
        None => Found { kinds: kind_put(f.kinds, slot, kind), bad: f.bad },
    }
}

/// Everything the uses say outright.
pub open spec fn all_noted(f: Found, uses: Seq<KindUse>) -> Found
    decreases uses.len(),
{
    if uses.len() == 0 {
        f
    } else {
        let g = all_noted(f, uses.drop_last());
        match uses.last() {
            KindUse::As(slot, kind) => noted(g, slot, kind),
            _ => g,
        }
    }
}

/// The element a slot was bound from.
pub open spec fn outer_at(ps: Seq<(u16, u16)>, slot: u16) -> Option<u16>
    decreases ps.len(),
{
    if ps.len() == 0 {
        None
    } else if ps.last().0 == slot {
        Some(ps.last().1)
    } else {
        outer_at(ps.drop_last(), slot)
    }
}

/// The same, without this slot.
pub open spec fn without(ps: Seq<(u16, u16)>, slot: u16) -> Seq<(u16, u16)>
    decreases ps.len(),
{
    if ps.len() == 0 {
        ps
    } else if ps.last().0 == slot {
        without(ps.drop_last(), slot)
    } else {
        without(ps.drop_last(), slot).push(ps.last())
    }
}

/// Settle what was bound to elements: something indexed is an inner table,
/// and anything else is a number out of a flat one.
pub open spec fn linked(f: Found, inner: Seq<(u16, u16)>, uses: Seq<KindUse>) -> (
    Found,
    Seq<(u16, u16)>,
)
    decreases uses.len(),
{
    if uses.len() == 0 {
        (f, inner)
    } else {
        let (g, ps) = linked(f, inner, uses.drop_last());
        match uses.last() {
            KindUse::Element(b, t) => if kind_at(g.kinds, b) == Some(Kind::Table) {
                (
                    noted(g, t, Kind::Tables { checked: true, min: 0 }),
                    without(ps, b).push((b, t)),
                )
            } else {
                (noted(noted(g, b, Kind::Num), t, Kind::Table), ps)
            },
            _ => (g, ps),
        }
    }
}

/// The most a slot, or each of its elements, is asked to hold.
pub open spec fn longest(uses: Seq<KindUse>, slot: u16, of_elements: bool) -> u32
    decreases uses.len(),
{
    if uses.len() == 0 {
        0
    } else {
        let n = longest(uses.drop_last(), slot, of_elements);
        match uses.last() {
            KindUse::Long(s, e, need) => if s == slot && e == of_elements && need > n {
                need
            } else {
                n
            },
            _ => n,
        }
    }
}

/// Elements of this array of arrays have to be at least this long.
pub open spec fn raised(ks: Seq<(u16, Kind)>, slot: u16, need: u32) -> Seq<(u16, Kind)> {
    match kind_at(ks, slot) {
        Some(Kind::Tables { checked, min }) => kind_put(
            ks,
            slot,
            Kind::Tables {
                checked: true,
                min: if need > min {
                    need
                } else {
                    min
                },
            },
        ),
        _ => ks,
    }
}

/// What the elements bound by name are asked for.
pub open spec fn raised_inner(
    ks: Seq<(u16, Kind)>,
    inner: Seq<(u16, u16)>,
    uses: Seq<KindUse>,
) -> Seq<(u16, Kind)>
    decreases inner.len(),
{
    if inner.len() == 0 {
        ks
    } else {
        raised(
            raised_inner(ks, inner.drop_last(), uses),
            inner.last().1,
            longest(uses, inner.last().0, false),
        )
    }
}

/// What the elements reached in passing are asked for, as in `t[k][3]`.
pub open spec fn raised_elements(ks: Seq<(u16, Kind)>, uses: Seq<KindUse>) -> Seq<(u16, Kind)>
    decreases uses.len(),
{
    if uses.len() == 0 {
        ks
    } else {
        let r = raised_elements(ks, uses.drop_last());
        match uses.last() {
            KindUse::Long(slot, true, need) => raised(r, slot, need),
            _ => r,
        }
    }
}

/// Tables the code makes are settled before anything else.
pub open spec fn made_kinds(slots: Seq<u16>) -> Seq<(u16, Kind)>
    decreases slots.len(),
{
    if slots.len() == 0 {
        Seq::empty()
    } else {
        kind_put(made_kinds(slots.drop_last()), slots.last(), Kind::New)
    }
}

/// The whole settlement: the kinds, which slots are elements of which, and
/// the last disagreement.
pub open spec fn settled(uses: Seq<KindUse>, made: Seq<u16>) -> (
    Seq<(u16, Kind)>,
    Seq<(u16, u16)>,
    Option<Seq<char>>,
) {
    let f = Found { kinds: made_kinds(made), bad: None };
    let (g, inner) = linked(all_noted(f, uses), Seq::empty(), uses);
    (raised_elements(raised_inner(g.kinds, inner, uses), uses), inner, g.bad)
}

/// The settlement of a block.
pub open spec fn inferred(b: Block, cs: Seq<Callable>) -> (
    Seq<(u16, Kind)>,
    Seq<(u16, u16)>,
    Option<Seq<char>>,
) {
    settled(kinds::kinds_of_block(cs, b), made::made_slots(b))
}

/// The settlement of a single statement.
pub open spec fn inferred_in(st: Stat, cs: Seq<Callable>) -> (
    Seq<(u16, Kind)>,
    Seq<(u16, u16)>,
    Option<Seq<char>>,
) {
    settled(kinds::kinds_of_stat(cs, st), made::made_slots_in(st))
}

/// A body that may trap wherever it likes checks the shape of an array of
/// arrays as it goes, so nothing has to be walked on the way in.
pub open spec fn relaxed(ks: Seq<(u16, Kind)>) -> Seq<(u16, Kind)> {
    Seq::new(
        ks.len(),
        |i: int|
            match ks[i].1 {
                Kind::Tables { checked, min } => (ks[i].0, Kind::Tables { checked: false, min }),
                _ => ks[i],
            },
    )
}

// ---- the same, executed -----------------------------------------------------------------

/// What the slots of a region hold, and which of them are elements of an
/// array of arrays, with the array each was bound from.
pub struct Kinds {
    pub kinds: Vec<(u16, Kind)>,
    pub inner_of: Vec<(u16, u16)>,
}

/// The place of a slot from `i` on.
proof fn lemma_kind_skip(ks: Seq<(u16, Kind)>, slot: u16, i: int)
    requires
        0 <= i <= ks.len(),
        forall|k: int| 0 <= k < i ==> (#[trigger] ks[k]).0 != slot,
    ensures
        kind_at(ks, slot) == kind_at(ks.skip(i), slot),
        forall|kind: Kind| #[trigger]
            kind_put(ks, slot, kind) == ks.take(i) + kind_put(ks.skip(i), slot, kind),
    decreases i,
{
    if i == 0 {
        assert(ks.skip(0) =~= ks);
        assert forall|kind: Kind| #[trigger] kind_put(ks, slot, kind) == ks.take(0) + kind_put(
            ks.skip(0),
            slot,
            kind,
        ) by {
            assert(ks.take(0) + kind_put(ks.skip(0), slot, kind) =~= kind_put(ks, slot, kind));
        }
    } else {
        let rest = ks.drop_first();
        assert forall|k: int| 0 <= k < i - 1 implies (#[trigger] rest[k]).0 != slot by {
            assert(ks[k + 1].0 != slot);
        }
        lemma_kind_skip(rest, slot, i - 1);
        assert(rest.skip(i - 1) =~= ks.skip(i));
        assert(ks[0].0 != slot);
        assert forall|kind: Kind| #[trigger] kind_put(ks, slot, kind) == ks.take(i) + kind_put(
            ks.skip(i),
            slot,
            kind,
        ) by {
            assert(kind_put(rest, slot, kind) == rest.take(i - 1) + kind_put(
                rest.skip(i - 1),
                slot,
                kind,
            ));
            assert(seq![ks[0]] + (rest.take(i - 1) + kind_put(ks.skip(i), slot, kind)) =~= ks.take(
                i,
            ) + kind_put(ks.skip(i), slot, kind));
        }
    }
}

pub fn kind_of(ks: &Vec<(u16, Kind)>, slot: u16) -> (r: Option<Kind>)
    ensures
        r == kind_at(ks@, slot),
{
    let mut i: usize = 0;
    while i < ks.len()
        invariant
            i <= ks@.len(),
            forall|k: int| 0 <= k < i ==> (#[trigger] ks@[k]).0 != slot,
        decreases ks@.len() - i,
    {
        if ks[i].0 == slot {
            proof {
                lemma_kind_skip(ks@, slot, i as int);
            }
            return Some(ks[i].1);
        }
        i = i + 1;
    }
    proof {
        lemma_kind_skip(ks@, slot, i as int);
    }
    None
}

fn put(ks: &mut Vec<(u16, Kind)>, slot: u16, kind: Kind)
    ensures
        final(ks)@ == kind_put(old(ks)@, slot, kind),
{
    let mut i: usize = 0;
    while i < ks.len()
        invariant
            i <= ks@.len(),
            *ks == *old(ks),
            forall|k: int| 0 <= k < i ==> (#[trigger] ks@[k]).0 != slot,
        decreases ks@.len() - i,
    {
        if ks[i].0 == slot {
            proof {
                lemma_kind_skip(ks@, slot, i as int);
            }
            let ghost before = ks@;
            ks.set(i, (slot, kind));
            assert(ks@ =~= kind_put(before, slot, kind));
            return;
        }
        i = i + 1;
    }
    proof {
        lemma_kind_skip(ks@, slot, i as int);
    }
    let ghost before = ks@;
    ks.push((slot, kind));
    assert(ks@ =~= kind_put(before, slot, kind));
}

pub fn outer_of(ps: &Vec<(u16, u16)>, slot: u16) -> (r: Option<u16>)
    ensures
        r == outer_at(ps@, slot),
{
    let mut i: usize = ps.len();
    assert(ps@.take(i as int) =~= ps@);
    while i > 0
        invariant
            i <= ps@.len(),
            outer_at(ps@.take(i as int), slot) == outer_at(ps@, slot),
        decreases i,
    {
        i = i - 1;
        assert(ps@.take(i as int + 1).drop_last() =~= ps@.take(i as int));
        assert(ps@.take(i as int + 1).last() == ps@[i as int]);
        if ps[i].0 == slot {
            return Some(ps[i].1);
        }
    }
    None
}

fn drop_slot(ps: &Vec<(u16, u16)>, slot: u16) -> (r: Vec<(u16, u16)>)
    ensures
        r@ == without(ps@, slot),
{
    let mut out: Vec<(u16, u16)> = Vec::new();
    let mut i: usize = 0;
    while i < ps.len()
        invariant
            i <= ps@.len(),
            out@ == without(ps@.take(i as int), slot),
        decreases ps@.len() - i,
    {
        assert(ps@.take(i as int + 1).drop_last() =~= ps@.take(i as int));
        assert(ps@.take(i as int + 1).last() == ps@[i as int]);
        if ps[i].0 != slot {
            out.push(ps[i]);
        }
        i = i + 1;
    }
    assert(ps@.take(ps@.len() as int) =~= ps@);
    out
}

fn write_kind(k: Kind, out: &mut String)
    ensures
        final(out)@ == old(out)@ + kind_text(k),
{
    match k {
        Kind::Num => out.append("Num"),
        Kind::Table => out.append("Table"),
        Kind::TableOut => out.append("TableOut"),
        Kind::New => out.append("New"),
        Kind::Bool => out.append("Bool"),
        Kind::Dead => out.append("Dead"),
        Kind::Tables { checked, min } => {
            out.append("Tables { checked: ");
            out.append(
                if checked {
                    "true"
                } else {
                    "false"
                },
            );
            out.append(", min: ");
            text::push_decimal(out, min as u64);
            out.append(" }");
        },
    }
    assert(out@ =~= old(out)@ + kind_text(k));
}

struct Finding {
    kinds: Vec<(u16, Kind)>,
    bad: Option<String>,
}

impl Finding {
    spec fn seen(&self) -> Found {
        Found {
            kinds: self.kinds@,
            bad: match self.bad {
                Some(e) => Some(e@),
                None => None,
            },
        }
    }

    fn note(&mut self, slot: u16, kind: Kind)
        ensures
            final(self).seen() == noted(old(self).seen(), slot, kind),
    {
        match kind_of(&self.kinds, slot) {
            Some(had) => {
                let plain: bool = match kind {
                    Kind::Num | Kind::TableOut => true,
                    _ => false,
                };
                if had == Kind::New && plain {
                    return;
                }
                put(&mut self.kinds, slot, kind);
                if had != kind {
                    let mut e = text::owned("slot ");
                    text::push_decimal(&mut e, slot as u64);
                    e.append(" is used as both ");
                    write_kind(had, &mut e);
                    e.append(" and ");
                    write_kind(kind, &mut e);
                    assert(e@ =~= disagreement(slot, had, kind));
                    self.bad = Some(e);
                }
            },
            None => put(&mut self.kinds, slot, kind),
        }
    }

    fn note_all(&mut self, uses: &Vec<KindUse>)
        ensures
            final(self).seen() == all_noted(old(self).seen(), uses@),
    {
        let mut i: usize = 0;
        while i < uses.len()
            invariant
                i <= uses@.len(),
                self.seen() == all_noted(old(self).seen(), uses@.take(i as int)),
            decreases uses@.len() - i,
        {
            assert(uses@.take(i as int + 1).drop_last() =~= uses@.take(i as int));
            match uses[i] {
                KindUse::As(slot, kind) => self.note(slot, kind),
                _ => {},
            }
            i = i + 1;
        }
        assert(uses@.take(uses@.len() as int) =~= uses@);
    }

    fn link(&mut self, uses: &Vec<KindUse>) -> (inner: Vec<(u16, u16)>)
        ensures
            (final(self).seen(), inner@) == linked(old(self).seen(), Seq::empty(), uses@),
    {
        let mut inner: Vec<(u16, u16)> = Vec::new();
        let mut i: usize = 0;
        while i < uses.len()
            invariant
                i <= uses@.len(),
                (self.seen(), inner@) == linked(
                    old(self).seen(),
                    Seq::empty(),
                    uses@.take(i as int),
                ),
            decreases uses@.len() - i,
        {
            assert(uses@.take(i as int + 1).drop_last() =~= uses@.take(i as int));
            match uses[i] {
                KindUse::Element(b, t) => {
                    if kind_of(&self.kinds, b) == Some(Kind::Table) {
                        inner = drop_slot(&inner, b);
                        inner.push((b, t));
                        self.note(t, Kind::Tables { checked: true, min: 0 });
                    } else {
                        self.note(b, Kind::Num);
                        self.note(t, Kind::Table);
                    }
                },
                _ => {},
            }
            i = i + 1;
        }
        assert(uses@.take(uses@.len() as int) =~= uses@);
        inner
    }
}

fn longest_use(uses: &Vec<KindUse>, slot: u16) -> (r: u32)
    ensures
        r == longest(uses@, slot, false),
{
    let mut n: u32 = 0;
    let mut i: usize = 0;
    while i < uses.len()
        invariant
            i <= uses@.len(),
            n == longest(uses@.take(i as int), slot, false),
        decreases uses@.len() - i,
    {
        assert(uses@.take(i as int + 1).drop_last() =~= uses@.take(i as int));
        match uses[i] {
            KindUse::Long(s, e, need) => {
                if s == slot && !e && need > n {
                    n = need;
                }
            },
            _ => {},
        }
        i = i + 1;
    }
    assert(uses@.take(uses@.len() as int) =~= uses@);
    n
}

fn raise(ks: &mut Vec<(u16, Kind)>, slot: u16, need: u32)
    ensures
        final(ks)@ == raised(old(ks)@, slot, need),
{
    match kind_of(ks, slot) {
        Some(Kind::Tables { checked, min }) => {
            let most: u32 = if need > min {
                need
            } else {
                min
            };
            put(ks, slot, Kind::Tables { checked: true, min: most });
        },
        _ => {},
    }
}

/// Settle what the uses say.
fn settle(uses: &Vec<KindUse>, made: &Vec<u16>) -> (r: Result<Kinds, String>)
    ensures
        match r {
            Ok(k) => (k.kinds@, k.inner_of@, None::<Seq<char>>) == settled(uses@, made@),
            Err(e) => settled(uses@, made@).2 == Some(e@),
        },
{
    let mut f = Finding { kinds: Vec::new(), bad: None };
    let mut i: usize = 0;
    while i < made.len()
        invariant
            i <= made@.len(),
            f.bad is None,
            f.kinds@ == made_kinds(made@.take(i as int)),
        decreases made@.len() - i,
    {
        assert(made@.take(i as int + 1).drop_last() =~= made@.take(i as int));
        put(&mut f.kinds, made[i], Kind::New);
        i = i + 1;
    }
    assert(made@.take(made@.len() as int) =~= made@);
    f.note_all(uses);
    let inner = f.link(uses);
    let Finding { kinds, bad } = f;
    match bad {
        Some(e) => {
            return Err(e);
        },
        None => {},
    }
    let mut ks = kinds;
    let ghost k0 = ks@;
    let mut j: usize = 0;
    while j < inner.len()
        invariant
            j <= inner@.len(),
            ks@ == raised_inner(k0, inner@.take(j as int), uses@),
        decreases inner@.len() - j,
    {
        assert(inner@.take(j as int + 1).drop_last() =~= inner@.take(j as int));
        let need: u32 = longest_use(uses, inner[j].0);
        raise(&mut ks, inner[j].1, need);
        j = j + 1;
    }
    assert(inner@.take(inner@.len() as int) =~= inner@);
    let ghost k1 = ks@;
    let mut k: usize = 0;
    while k < uses.len()
        invariant
            k <= uses@.len(),
            ks@ == raised_elements(k1, uses@.take(k as int)),
        decreases uses@.len() - k,
    {
        assert(uses@.take(k as int + 1).drop_last() =~= uses@.take(k as int));
        match uses[k] {
            KindUse::Long(slot, true, need) => raise(&mut ks, slot, need),
            _ => {},
        }
        k = k + 1;
    }
    assert(uses@.take(uses@.len() as int) =~= uses@);
    Ok(Kinds { kinds: ks, inner_of: inner })
}

/// Work out what each slot holds: a table if it is indexed, a number
/// otherwise. Disagreement keeps the code interpreted.
pub fn infer_kinds(b: &Block, cs: &Vec<Callable>) -> (r: Result<Kinds, String>)
    ensures
        match r {
            Ok(k) => (k.kinds@, k.inner_of@, None::<Seq<char>>) == inferred(*b, cs@),
            Err(e) => inferred(*b, cs@).2 == Some(e@),
        },
{
    let mut uses: Vec<KindUse> = Vec::new();
    kinds::kinds_block(cs, b, &mut uses);
    assert(uses@ =~= kinds::kinds_of_block(cs@, *b));
    let made = made::made_tables(b);
    settle(&uses, &made)
}

/// The same of one statement.
pub(super) fn infer_kinds_in(st: &Stat, cs: &Vec<Callable>) -> (r: Result<Kinds, String>)
    ensures
        match r {
            Ok(k) => (k.kinds@, k.inner_of@, None::<Seq<char>>) == inferred_in(*st, cs@),
            Err(e) => inferred_in(*st, cs@).2 == Some(e@),
        },
{
    let mut uses: Vec<KindUse> = Vec::new();
    kinds::kinds_stat(cs, st, &mut uses);
    assert(uses@ =~= kinds::kinds_of_stat(cs@, *st));
    let made = made::made_tables_in(st);
    settle(&uses, &made)
}

pub fn relax_checks(ks: &Vec<(u16, Kind)>) -> (r: Vec<(u16, Kind)>)
    ensures
        r@ == relaxed(ks@),
{
    let mut out: Vec<(u16, Kind)> = Vec::new();
    let mut i: usize = 0;
    while i < ks.len()
        invariant
            i <= ks@.len(),
            out@ == relaxed(ks@).take(i as int),
        decreases ks@.len() - i,
    {
        let k: (u16, Kind) = ks[i];
        match k.1 {
            Kind::Tables { checked, min } => out.push((k.0, Kind::Tables { checked: false, min })),
            _ => out.push(k),
        }
        assert(out@ =~= relaxed(ks@).take(i as int + 1));
        i = i + 1;
    }
    assert(out@ =~= relaxed(ks@));
    out
}

} // verus!
