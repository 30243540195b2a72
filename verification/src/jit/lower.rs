//! Lowering a region of the tree to what compiled code does.
use super::infer;
use super::ir::{Bound, MathFn};
use super::kinds;
use super::kinds::{Callable, Kind};
use super::lowering;
use super::lowering::{Env, Fault, Low, Lowered};
use super::walk;
use super::writes;
use crate::ast::{Binding, Block, Expr};
use crate::num;
use crate::text;
use vstd::prelude::*;

mod exprs;
mod stats;

pub(super) use exprs::expr;
pub(super) use stats::{block, body_of, stat};

verus! {

/// What is settled before a region is lowered.
pub struct Scene {
    pub kinds: Vec<(u16, Kind)>,
    pub inner_of: Vec<(u16, u16)>,
    pub len_of: Vec<(u16, u16)>,
    pub mutable: Vec<u16>,
    pub stable: Vec<u16>,
    pub self_upval: Option<u16>,
    pub self_global: Option<String>,
    pub callables: Vec<Callable>,
    pub arity: Option<usize>,
    pub params: Vec<Kind>,
    pub returns_table: bool,
}

impl View for Scene {
    type V = Env;

    open spec fn view(&self) -> Env {
        Env {
            kinds: self.kinds@,
            inner_of: self.inner_of@,
            len_of: self.len_of@,
            mutable: self.mutable@,
            stable: self.stable@,
            self_upval: self.self_upval,
            self_global: match self.self_global {
                Some(g) => Some(g@),
                None => None,
            },
            callables: self.callables@,
            arity: self.arity,
            params: self.params@,
            returns_table: self.returns_table,
        }
    }
}

/// What is learnt while lowering.
pub struct State {
    pub known: Vec<u16>,
    pub flags: Vec<(u16, bool)>,
    pub spans: Vec<u16>,
    pub beside: Vec<usize>,
    pub inlined: Vec<String>,
    pub calls: bool,
    pub in_range: Vec<(u16, u16)>,
    pub bounded: Vec<(u16, Bound)>,
    pub hoisted: Vec<(u16, Bound)>,
    pub labels: Vec<Option<u32>>,
    pub n_labels: u32,
    pub ret_slot: Option<u16>,
}

impl View for State {
    type V = Low;

    open spec fn view(&self) -> Low {
        Low {
            known: self.known@,
            flags: self.flags@,
            spans: self.spans@,
            beside: self.beside@,
            inlined: super::calls::texts(self.inlined@),
            calls: self.calls,
            in_range: self.in_range@,
            bounded: self.bounded@,
            hoisted: self.hoisted@,
            labels: self.labels@,
            n_labels: self.n_labels,
            ret_slot: self.ret_slot,
        }
    }
}

/// What was made is what should be, or the refusal says why.
pub open spec fn agrees<T>(r: Result<T, String>, s: Low, want: Lowered<T>) -> bool {
    match r {
        Ok(x) => want matches Ok(y) && y.0 == s && y.1 == x,
        Err(e) => want matches Err(m) && m == e@,
    }
}

/// What lowering only ever adds to: scopes are closed by cutting back, and a
/// check once demanded on the way in stays demanded.
pub open spec fn grew(a: Low, b: Low) -> bool {
    &&& a.known.len() <= b.known.len()
    &&& forall|i: int| 0 <= i < a.known.len() ==> #[trigger] b.known[i] == a.known[i]
    &&& a.flags.len() <= b.flags.len()
    &&& forall|i: int| 0 <= i < a.flags.len() ==> #[trigger] b.flags[i] == a.flags[i]
    &&& a.hoisted.len() <= b.hoisted.len()
    &&& forall|i: int| 0 <= i < a.hoisted.len() ==> #[trigger] b.hoisted[i] == a.hoisted[i]
    &&& a.in_range == b.in_range
    &&& a.bounded == b.bounded
    &&& a.labels == b.labels
}

pub(super) fn say(a: &str, name: &str, b: &str) -> (r: String)
    ensures
        r@ == lowering::named(a@, name@, b@),
{
    let mut out = text::owned(a);
    out.append(name);
    out.append(b);
    out
}

pub(super) fn kind(env: &Scene, slot: u16) -> (r: Kind)
    ensures
        r == lowering::kind(env@, slot),
{
    match infer::kind_of(&env.kinds, slot) {
        Some(k) => k,
        None => Kind::Num,
    }
}

pub(super) fn holds_number(k: Kind) -> (r: bool)
    ensures
        r == lowering::holds_number(k),
{
    match k {
        Kind::Num | Kind::Bool | Kind::Dead => true,
        _ => false,
    }
}

/// Is this a table that is read, flat or of tables?
pub(super) fn is_read(k: Kind) -> (r: bool)
    ensures
        r == (k is Table || k is Tables),
{
    match k {
        Kind::Table | Kind::Tables { .. } => true,
        _ => false,
    }
}

pub(super) fn flag(fs: &Vec<(u16, bool)>, slot: u16) -> (r: bool)
    ensures
        r == lowering::flag(fs@, slot),
{
    let mut i: usize = fs.len();
    assert(fs@.take(i as int) =~= fs@);
    while i > 0
        invariant
            i <= fs@.len(),
            lowering::flag(fs@.take(i as int), slot) == lowering::flag(fs@, slot),
        decreases i,
    {
        i = i - 1;
        assert(fs@.take(i as int + 1).drop_last() =~= fs@.take(i as int));
        assert(fs@.take(i as int + 1).last() == fs@[i as int]);
        if fs[i].0 == slot {
            return fs[i].1;
        }
    }
    false
}

pub(super) fn is_table(env: &Scene, e: &Expr) -> (r: bool)
    ensures
        r == lowering::is_table(env@, *e),
{
    match e {
        Expr::Local(b, _) => match infer::kind_of(&env.kinds, b.slot) {
            Some(k) => match k {
                Kind::Table | Kind::TableOut | Kind::New | Kind::Tables { .. } => true,
                _ => false,
            },
            None => false,
        },
        _ => false,
    }
}

pub(super) fn is_table_write(env: &Scene, t: &Expr) -> (r: bool)
    ensures
        r == lowering::is_table_write(env@, *t),
{
    match t {
        Expr::Index(obj, _) => is_table(env, obj),
        _ => false,
    }
}

pub(super) fn table_slot(low: &State, e: &Expr) -> (r: Result<u16, String>)
    ensures
        match r {
            Ok(slot) => lowering::table_slot(low@, *e) == Ok::<u16, Seq<char>>(slot),
            Err(m) => lowering::table_slot(low@, *e) == Err::<u16, Seq<char>>(m@),
        },
{
    match e {
        Expr::Local(b, _) => {
            if walk::has(&low.known, b.slot) {
                Ok(b.slot)
            } else {
                Err(text::owned("a table that is not a parameter"))
            }
        },
        _ => Err(text::owned("a table that is not a parameter")),
    }
}

pub(super) fn element_of(env: &Scene, low: &State, obj: &Expr) -> (r: Option<u16>)
    ensures
        r == lowering::element_of(env@, low@, *obj),
{
    match obj {
        Expr::Index(t, _) => match &**t {
            Expr::Local(b, _) => {
                let tables: bool = match kind(env, b.slot) {
                    Kind::Tables { .. } => true,
                    _ => false,
                };
                if tables && walk::has(&low.known, b.slot) {
                    Some(b.slot)
                } else {
                    None
                }
            },
            _ => None,
        },
        _ => None,
    }
}

pub(super) fn add_once(s: &mut Vec<u16>, x: u16)
    ensures
        final(s)@ == lowering::add_once(old(s)@, x),
{
    if !walk::has(s, x) {
        s.push(x);
    }
}

fn hoist(low: &mut State, table: u16, bound: Bound)
    ensures
        final(low)@ == lowering::hoist(old(low)@, table, bound),
        grew(old(low)@, final(low)@),
{
    let mut i: usize = 0;
    while i < low.hoisted.len()
        invariant
            i <= low.hoisted@.len(),
            *low == *old(low),
            forall|k: int| 0 <= k < i ==> #[trigger] low.hoisted@[k] != (table, bound),
        decreases low.hoisted@.len() - i,
    {
        if low.hoisted[i].0 == table && low.hoisted[i].1 == bound {
            assert(low.hoisted@[i as int] == (table, bound));
            return;
        }
        i = i + 1;
    }
    low.hoisted.push((table, bound));
    assert(low@ =~= lowering::hoist(old(low)@, table, bound));
}

fn bound_at(bs: &Vec<(u16, Bound)>, slot: u16) -> (r: Option<Bound>)
    ensures
        r == lowering::bound_at(bs@, slot),
{
    let mut i: usize = 0;
    assert(bs@.skip(0) =~= bs@);
    while i < bs.len()
        invariant
            i <= bs@.len(),
            lowering::bound_at(bs@.skip(i as int), slot) == lowering::bound_at(bs@, slot),
        decreases bs@.len() - i,
    {
        assert(bs@.skip(i as int)[0] == bs@[i as int]);
        assert(bs@.skip(i as int).drop_first() =~= bs@.skip(i as int + 1));
        if bs[i].0 == slot {
            return Some(bs[i].1);
        }
        i = i + 1;
    }
    None
}

/// Is `key` known to be an index of `table`?
pub(super) fn proven(env: &Scene, low: &mut State, key: &Expr, table: u16) -> (r: bool)
    ensures
        (final(low)@, r) == lowering::proven(env@, old(low)@, *key, table),
        grew(old(low)@, final(low)@),
{
    match key {
        Expr::Num(_) => match kinds::constant_index(key) {
            None => false,
            Some(n) => match infer::outer_of(&env.inner_of, table) {
                Some(outer) => match kind(env, outer) {
                    Kind::Tables { checked, min } => n < min,
                    _ => false,
                },
                None => {
                    hoist(low, table, Bound::Num(num::num_from_index(n as u64 + 1)));
                    true
                },
            },
        },
        Expr::Local(b, _) => {
            let mut i: usize = 0;
            while i < low.in_range.len()
                invariant
                    i <= low.in_range@.len(),
                    *low == *old(low),
                    forall|k: int| 0 <= k < i ==> #[trigger] low.in_range@[k] != (b.slot, table),
                    *key matches Expr::Local(c, _) && c == *b,
                decreases low.in_range@.len() - i,
            {
                if low.in_range[i].0 == b.slot && low.in_range[i].1 == table {
                    assert(low.in_range@[i as int] == (b.slot, table));
                    return true;
                }
                i = i + 1;
            }
            match bound_at(&low.bounded, b.slot) {
                Some(bound) => {
                    hoist(low, table, bound);
                    true
                },
                None => false,
            }
        },
        _ => false,
    }
}

pub(super) fn local_fault(env: &Scene, low: &State, b: Binding) -> (r: Fault)
    ensures
        r == lowering::local_fault(env@, low@, b),
{
    if b.cell || !walk::has(&low.known, b.slot) {
        Fault::Outside
    } else if flag(&low.flags, b.slot) {
        Fault::Flag
    } else if !holds_number(kind(env, b.slot)) {
        Fault::Table
    } else {
        Fault::Fine
    }
}

pub(super) fn range_fact(
    env: &Scene,
    b: Binding,
    start: &Expr,
    end: &Expr,
    inclusive: bool,
    body: &Block,
) -> (r: Option<(u16, u16)>)
    ensures
        r == lowering::range_fact(env@, b, *start, *end, inclusive, *body),
{
    let zero: bool = match start {
        Expr::Num(n) => num::num_eq(*n, 0),
        _ => false,
    };
    if inclusive || b.cell || !zero {
        return None;
    }
    match end {
        Expr::Method(obj, name, args) => {
            if text::same(name.as_str(), "len") && args.len() == 0 {
                match &**obj {
                    Expr::Local(t, _) => {
                        if kind(env, t.slot) == Kind::Table && !writes::writes_slot(body, b.slot)
                            && !writes::writes_slot(body, t.slot) {
                            Some((b.slot, t.slot))
                        } else {
                            None
                        }
                    },
                    _ => None,
                }
            } else {
                None
            }
        },
        _ => None,
    }
}

pub(super) fn hoistable(
    env: &Scene,
    low: &State,
    b: Binding,
    start: &Expr,
    end: &Expr,
    inclusive: bool,
    body: &Block,
) -> (r: Option<Bound>)
    ensures
        r == lowering::hoistable(env@, low@, b, *start, *end, inclusive, *body),
{
    let up: bool = match start {
        Expr::Num(n) => num::num_le(0, *n),
        _ => false,
    };
    if inclusive || b.cell || writes::writes_slot(body, b.slot) || !up {
        return None;
    }
    match end {
        Expr::Num(n) => Some(Bound::Num(*n)),
        Expr::Local(lb, _) => {
            if walk::has(&env.stable, lb.slot) {
                if local_fault(env, low, *lb) == Fault::Fine {
                    Some(Bound::Local(lb.slot))
                } else {
                    None
                }
            } else {
                match infer::outer_of(&env.len_of, lb.slot) {
                    Some(t) => if is_read(kind(env, t)) {
                        Some(Bound::Len(t))
                    } else {
                        None
                    },
                    None => None,
                }
            }
        },
        _ => None,
    }
}

/// The function of numbers a name stands for.
pub(super) fn math_fn(name: &str) -> (r: Option<(MathFn, usize)>)
    ensures
        match r {
            Some((f, n)) => lowering::math_fn(name@) == Some((f, n as nat)),
            None => lowering::math_fn(name@) is None,
        },
{
    if text::same(name, "floor") {
        Some((MathFn::Floor, 0))
    } else if text::same(name, "ceil") {
        Some((MathFn::Ceil, 0))
    } else if text::same(name, "abs") {
        Some((MathFn::Abs, 0))
    } else if text::same(name, "sqrt") {
        Some((MathFn::Sqrt, 0))
    } else if text::same(name, "sin") {
        Some((MathFn::Sin, 0))
    } else if text::same(name, "cos") {
        Some((MathFn::Cos, 0))
    } else if text::same(name, "tan") {
        Some((MathFn::Tan, 0))
    } else if text::same(name, "exp") {
        Some((MathFn::Exp, 0))
    } else if text::same(name, "ln") || text::same(name, "log") {
        Some((MathFn::Ln, 0))
    } else if text::same(name, "round") {
        Some((MathFn::Round, 0))
    } else if text::same(name, "max") {
        Some((MathFn::Max, 1))
    } else if text::same(name, "min") {
        Some((MathFn::Min, 1))
    } else if text::same(name, "powf") || text::same(name, "pow") {
        Some((MathFn::Powf, 1))
    } else {
        None
    }
}

/// The name in `math::name`.
pub(super) fn math_name<'a>(f: &'a Expr) -> (r: Option<&'a String>)
    ensures
        match r {
            Some(k) => lowering::math_name(*f) == Some(k@),
            None => lowering::math_name(*f) is None,
        },
{
    match f {
        Expr::Index(obj, key) => match &**obj {
            Expr::Global(o, _) => match &**key {
                Expr::Str(k) => if text::same(o.as_str(), "math") {
                    Some(k)
                } else {
                    None
                },
                _ => None,
            },
            _ => None,
        },
        _ => None,
    }
}

pub(super) fn is_self(env: &Scene, f: &Expr) -> (r: bool)
    ensures
        r == lowering::is_self(env@, *f),
{
    match f {
        Expr::Upval(i, _) => match env.self_upval {
            Some(u) => u == *i,
            None => false,
        },
        Expr::Global(name, _) => match &env.self_global {
            Some(g) => text::same(g.as_str(), name.as_str()),
            None => false,
        },
        _ => false,
    }
}

pub(super) fn held(env: &Scene, low: &State, e: &Expr, want: Kind) -> (r: Option<u16>)
    ensures
        r == lowering::held(env@, low@, *e, want),
{
    match e {
        Expr::Local(b, _) => {
            if kind(env, b.slot) == want && walk::has(&low.known, b.slot) {
                Some(b.slot)
            } else {
                None
            }
        },
        _ => None,
    }
}

pub(super) fn beside(c: &Callable, n: usize) -> (r: bool)
    ensures
        r == lowering::beside(*c, n as nat),
{
    if c.kinds.len() != n {
        return false;
    }
    let mut i: usize = 0;
    while i < c.kinds.len()
        invariant
            i <= c.kinds@.len(),
            forall|k: int| 0 <= k < i ==> #[trigger] c.kinds@[k] == Kind::Num,
        decreases c.kinds@.len() - i,
    {
        if c.kinds[i] != Kind::Num {
            return false;
        }
        i = i + 1;
    }
    match &c.def {
        Some(d) => super::lengths::worth_inlining(d),
        None => false,
    }
}

pub(super) fn name_at(s: &Vec<String>, name: &str) -> (r: usize)
    ensures
        r == lowering::name_at(super::calls::texts(s@), name@, 0),
{
    let mut i: usize = 0;
    while i < s.len()
        invariant
            i <= s@.len(),
            lowering::name_at(super::calls::texts(s@), name@, i as nat) == lowering::name_at(
                super::calls::texts(s@),
                name@,
                0,
            ),
        decreases s@.len() - i,
    {
        if text::same(s[i].as_str(), name) {
            return i;
        }
        i = i + 1;
    }
    i
}

pub(super) fn bump(n: u32) -> (r: u32)
    ensures
        r == lowering::next_label(n),
{
    if n == u32::MAX {
        0
    } else {
        n + 1
    }
}

fn id_of(env: &Scene, at: usize) -> (r: Option<usize>)
    ensures
        r == lowering::id_of(env@, at),
{
    if at < env.callables.len() {
        match &env.callables[at].def {
            Some(d) => Some(d.id),
            None => None,
        }
    } else {
        None
    }
}

/// Remember a callee that is compiled beside this.
pub(super) fn add_beside(env: &Scene, low: &mut State, at: usize, name: &str)
    requires
        at < env@.callables.len(),
        env@.callables[at as int].def is Some,
    ensures
        final(low)@ == lowering::with_beside(env@, old(low)@, at, name@),
        grew(old(low)@, final(low)@),
{
    let ghost was = low@;
    let ghost id = env@.callables[at as int].def->Some_0.id;
    let mine: Option<usize> = id_of(env, at);
    let mut have: bool = false;
    let mut i: usize = 0;
    while i < low.beside.len()
        invariant
            i <= low.beside@.len(),
            *low == *old(low),
            mine == Some(id),
            have == exists|k: int|
                0 <= k < i && lowering::id_of(env@, #[trigger] low.beside@[k]) == Some(id),
        decreases low.beside@.len() - i,
    {
        let other: Option<usize> = id_of(env, low.beside[i]);
        let same: bool = match (other, mine) {
            (Some(a), Some(b)) => a == b,
            _ => false,
        };
        if same {
            assert(lowering::id_of(env@, low.beside@[i as int]) == Some(id));
            have = true;
        }
        i = i + 1;
    }
    if !have {
        low.beside.push(at);
    }
    low.inlined.push(text::owned(name));
    assert(super::calls::texts(low.inlined@) =~= was.inlined.push(name@));
    assert(low@ =~= lowering::with_beside(env@, was, at, name@));
}

} // verus!
