//! How a region is lowered, as a function from the tree to what it becomes.
//!
//! Every function hands back what it makes and what it learnt on the way, or
//! the reason the region stays interpreted.
use super::flags;
use super::infer;
use super::ir::{
    Bound, Cond, Ir, IrArgs, IrArms, IrBlock, IrElse, IrIf, IrList, IrMatch, IrSlots, IrStat,
    IrStats, IrTail, IrValues, MathFn, Store,
};
use super::kinds;
use super::kinds::{Callable, Kind};
use super::lengths;
use super::walk;
use super::writes;
use crate::ast::{Arm, BinOp, Binding, Block, Expr, Pattern, Stat, UnOp};
use crate::num;
use vstd::prelude::*;

verus! {

/// What is settled before a region is lowered.
#[verifier::ext_equal]
pub struct Env {
    pub kinds: Seq<(u16, Kind)>,
    /// Elements of arrays of arrays, and the array each was bound from.
    pub inner_of: Seq<(u16, u16)>,
    /// Locals that hold the length of a table.
    pub len_of: Seq<(u16, u16)>,
    /// Tables whose views are written through.
    pub mutable: Seq<u16>,
    /// Slots whose value on the way in is their value throughout.
    pub stable: Seq<u16>,
    /// How the function refers to itself, if it does.
    pub self_upval: Option<u16>,
    pub self_global: Option<Seq<char>>,
    pub callables: Seq<Callable>,
    /// How many parameters a call of itself takes; a loop has none.
    pub arity: Option<usize>,
    pub params: Seq<Kind>,
    /// Is the function's value a table it made?
    pub returns_table: bool,
}

/// What is learnt while lowering.
#[verifier::ext_equal]
pub struct Low {
    /// The slots in scope.
    pub known: Seq<u16>,
    /// Which slots are flags, the last word on each counting.
    pub flags: Seq<(u16, bool)>,
    /// Arrays of arrays whose every element's view is fetched on the way in.
    pub spans: Seq<u16>,
    /// The callees compiled beside this, by their place among the callables.
    pub beside: Seq<usize>,
    /// The globals called directly.
    pub inlined: Seq<Seq<char>>,
    /// Does anything call other compiled code?
    pub calls: bool,
    /// Loop variables known to index a table.
    pub in_range: Seq<(u16, u16)>,
    /// Loop variables known to stay below a bound.
    pub bounded: Seq<(u16, Bound)>,
    /// What has to be checked on the way in.
    pub hoisted: Seq<(u16, Bound)>,
    /// For each enclosing loop, the label its body leaves by.
    pub labels: Seq<Option<u32>>,
    pub n_labels: u32,
    /// The slot whose table the outermost block hands back.
    pub ret_slot: Option<u16>,
}

pub type Lowered<T> = Result<(Low, T), Seq<char>>;

pub open spec fn named(a: Seq<char>, name: Seq<char>, b: Seq<char>) -> Seq<char> {
    a + name + b
}

// ---- what is known of slots --------------------------------------------------------------

pub open spec fn kind(env: Env, slot: u16) -> Kind {
    match infer::kind_at(env.kinds, slot) {
        Some(k) => k,
        None => Kind::Num,
    }
}

pub open spec fn holds_number(k: Kind) -> bool {
    k is Num || k is Bool || k is Dead
}

/// The last word on whether a slot is a flag.
pub open spec fn flag(fs: Seq<(u16, bool)>, slot: u16) -> bool
    decreases fs.len(),
{
    if fs.len() == 0 {
        false
    } else if fs.last().0 == slot {
        fs.last().1
    } else {
        flag(fs.drop_last(), slot)
    }
}

/// A local that was decided to hold a table.
pub open spec fn is_table(env: Env, e: Expr) -> bool {
    match e {
        Expr::Local(b, _) => match infer::kind_at(env.kinds, b.slot) {
            Some(k) => k is Table || k is TableOut || k is New || k is Tables,
            None => false,
        },
        _ => false,
    }
}

pub open spec fn is_table_write(env: Env, t: Expr) -> bool {
    match t {
        Expr::Index(obj, _) => is_table(env, *obj),
        _ => false,
    }
}

pub open spec fn table_slot(s: Low, e: Expr) -> Result<u16, Seq<char>> {
    match e {
        Expr::Local(b, _) => if s.known.contains(b.slot) {
            Ok(b.slot)
        } else {
            Err("a table that is not a parameter"@)
        },
        _ => Err("a table that is not a parameter"@),
    }
}

/// The array of arrays that `t[k]` reaches into.
pub open spec fn element_of(env: Env, s: Low, obj: Expr) -> Option<u16> {
    match obj {
        Expr::Index(t, _) => match *t {
            Expr::Local(b, _) => if kind(env, b.slot) is Tables && s.known.contains(b.slot) {
                Some(b.slot)
            } else {
                None
            },
            _ => None,
        },
        _ => None,
    }
}

pub open spec fn add_once(s: Seq<u16>, x: u16) -> Seq<u16> {
    if s.contains(x) {
        s
    } else {
        s.push(x)
    }
}

/// Demand a length on the way in, once.
pub open spec fn hoist(s: Low, table: u16, bound: Bound) -> Low {
    if s.hoisted.contains((table, bound)) {
        s
    } else {
        Low { hoisted: s.hoisted.push((table, bound)), ..s }
    }
}

/// The bound a loop variable stays below.
pub open spec fn bound_at(bs: Seq<(u16, Bound)>, slot: u16) -> Option<Bound>
    decreases bs.len(),
{
    if bs.len() == 0 {
        None
    } else if bs[0].0 == slot {
        Some(bs[0].1)
    } else {
        bound_at(bs.drop_first(), slot)
    }
}

/// Is `key` known to be an index of `table`? A constant is once a length has
/// been demanded; a loop variable is if its loop runs up to the table's
/// length, or up to a bound that is compared with it on the way in.
pub open spec fn proven(env: Env, s: Low, key: Expr, table: u16) -> (Low, bool) {
    match key {
        Expr::Num(_) => match kinds::const_index(key) {
            None => (s, false),
            Some(n) => match infer::outer_at(env.inner_of, table) {
                Some(outer) => (
                    s,
                    match kind(env, outer) {
                        Kind::Tables { checked, min } => n + 1 <= min,
                        _ => false,
                    },
                ),
                None => (hoist(s, table, Bound::Num(num::bits_of((n + 1) as u64))), true),
            },
        },
        Expr::Local(b, _) => if s.in_range.contains((b.slot, table)) {
            (s, true)
        } else {
            match bound_at(s.bounded, b.slot) {
                Some(bound) => (hoist(s, table, bound), true),
                None => (s, false),
            }
        },
        _ => (s, false),
    }
}

/// An index that is taken to be in range is so for a reason: the array of
/// arrays it reaches into has elements that long, or a length that makes it so
/// is demanded on the way in, or its loop runs up to the table's own length.
pub proof fn lemma_proven_has_reason(env: Env, s: Low, key: Expr, table: u16)
    requires
        proven(env, s, key, table).1,
    ensures
        ({
            let after = proven(env, s, key, table).0;
            ||| (kinds::const_index(key) matches Some(n) && (match infer::outer_at(
                env.inner_of,
                table,
            ) {
                Some(outer) => kind(env, outer) matches Kind::Tables { checked, min } && n < min,
                None => after.hoisted.contains((table, Bound::Num(num::bits_of((n + 1) as u64)))),
            }))
            ||| (key matches Expr::Local(b, _) && s.in_range.contains((b.slot, table)))
            ||| (key matches Expr::Local(b, _) && bound_at(s.bounded, b.slot) matches Some(bound)
                && after.hoisted.contains((table, bound)))
        }),
{
    let after = proven(env, s, key, table).0;
    match key {
        Expr::Num(_) => match kinds::const_index(key) {
            Some(n) => {
                let want = (table, Bound::Num(num::bits_of((n + 1) as u64)));
                if infer::outer_at(env.inner_of, table) is None {
                    if !s.hoisted.contains(want) {
                        assert(after.hoisted[s.hoisted.len() as int] == want);
                    }
                    assert(after.hoisted.contains(want));
                }
            },
            None => {},
        },
        Expr::Local(b, _) => if !s.in_range.contains((b.slot, table)) {
            match bound_at(s.bounded, b.slot) {
                Some(bound) => {
                    if !s.hoisted.contains((table, bound)) {
                        assert(after.hoisted[s.hoisted.len() as int] == (table, bound));
                    }
                    assert(after.hoisted.contains((table, bound)));
                },
                None => {},
            }
        },
        _ => {},
    }
}

/// `for i in 0..t.len()` makes `i` an index of `t` for the body, while the
/// body leaves both alone.
pub open spec fn range_fact(
    env: Env,
    b: Binding,
    start: Expr,
    end: Expr,
    inclusive: bool,
    body: Block,
) -> Option<(u16, u16)> {
    if inclusive || b.cell || !(start is Num && num::equal(start->Num_0, 0)) {
        None
    } else {
        match end {
            Expr::Method(obj, name, args) => if name@ == "len"@ && args@.len() == 0 {
                match *obj {
                    Expr::Local(t, _) => if kind(env, t.slot) == Kind::Table && !writes::writes(
                        body,
                        b.slot,
                    ) && !writes::writes(body, t.slot) {
                        Some((b.slot, t.slot))
                    } else {
                        None
                    },
                    _ => None,
                }
            } else {
                None
            },
            _ => None,
        }
    }
}

/// The bound of `for i in a..n`, when it can be worked out on the way in.
pub open spec fn hoistable(
    env: Env,
    s: Low,
    b: Binding,
    start: Expr,
    end: Expr,
    inclusive: bool,
    body: Block,
) -> Option<Bound> {
    if inclusive || b.cell || writes::writes(body, b.slot) || !(start is Num && num::less_or_equal(
        0,
        start->Num_0,
    )) {
        None
    } else {
        match end {
            Expr::Num(n) => Some(Bound::Num(n)),
            Expr::Local(lb, _) => if env.stable.contains(lb.slot) {
                if local_fault(env, s, lb) == Fault::Fine {
                    Some(Bound::Local(lb.slot))
                } else {
                    None
                }
            } else {
                match infer::outer_at(env.len_of, lb.slot) {
                    Some(t) => if kind(env, t) is Table || kind(env, t) is Tables {
                        Some(Bound::Len(t))
                    } else {
                        None
                    },
                    None => None,
                }
            },
            _ => None,
        }
    }
}

/// A loop whose counter is taken to stay in range starts at zero or above, goes round
/// only with a counter that is less than its end, and leaves the counter alone in its
/// body; where the end is the length of a table, the body leaves the table alone too.
pub proof fn lemma_counter_stays_in_range(
    env: Env,
    s: Low,
    b: Binding,
    start: Expr,
    end: Expr,
    inclusive: bool,
    body: Block,
    x: u64,
    y: u64,
)
    requires
        range_fact(env, b, start, end, inclusive, body) is Some || hoistable(
            env,
            s,
            b,
            start,
            end,
            inclusive,
            body,
        ) is Some,
        super::meaning::goes_round(x, y, inclusive),
    ensures
        start is Num && num::less_or_equal(0, start->Num_0),
        num::less(x, y),
        !writes::writes(body, b.slot),
        !b.cell,
        match range_fact(env, b, start, end, inclusive, body) {
            Some((counter, table)) => counter == b.slot && !writes::writes(body, table) && match end {
                Expr::Method(obj, name, args) => name@ == "len"@ && match *obj {
                    Expr::Local(t, _) => t.slot == table,
                    _ => false,
                },
                _ => false,
            },
            None => true,
        },
        match hoistable(env, s, b, start, end, inclusive, body) {
            Some(Bound::Num(n)) => end == Expr::Num(n),
            Some(Bound::Local(slot)) => env.stable.contains(slot) && (end matches Expr::Local(t, _)
                && t.slot == slot),
            Some(Bound::Len(table)) => (end matches Expr::Local(t, _) && infer::outer_at(
                env.len_of,
                t.slot,
            ) == Some(table)),
            None => true,
        },
{
}

/// Why a local cannot be used as a number.
#[derive(Clone, Copy, Debug, PartialEq, Eq, Structural)]
pub enum Fault {
    Fine,
    Outside,
    Flag,
    Table,
}

pub open spec fn local_fault(env: Env, s: Low, b: Binding) -> Fault {
    if b.cell || !s.known.contains(b.slot) {
        Fault::Outside
    } else if flag(s.flags, b.slot) {
        Fault::Flag
    } else if !holds_number(kind(env, b.slot)) {
        Fault::Table
    } else {
        Fault::Fine
    }
}

// ---- expressions ----------------------------------------------------------------------------

pub open spec fn l_local(env: Env, s: Low, b: Binding, name: Seq<char>) -> Lowered<Ir> {
    match local_fault(env, s, b) {
        Fault::Fine => Ok((s, Ir::Local(b.slot))),
        Fault::Outside => Err(
            named("`"@, name, "` is captured or declared outside this function"@),
        ),
        Fault::Flag => Err(named("`"@, name, "` holds a boolean, used as a number"@)),
        Fault::Table => Err(named("`"@, name, "` holds a table, used as a number"@)),
    }
}

/// The functions of numbers that compile to instructions, and how many
/// numbers they take besides the first.
pub open spec fn math_fn(name: Seq<char>) -> Option<(MathFn, nat)> {
    if name == "floor"@ {
        Some((MathFn::Floor, 0))
    } else if name == "ceil"@ {
        Some((MathFn::Ceil, 0))
    } else if name == "abs"@ {
        Some((MathFn::Abs, 0))
    } else if name == "sqrt"@ {
        Some((MathFn::Sqrt, 0))
    } else if name == "sin"@ {
        Some((MathFn::Sin, 0))
    } else if name == "cos"@ {
        Some((MathFn::Cos, 0))
    } else if name == "tan"@ {
        Some((MathFn::Tan, 0))
    } else if name == "exp"@ {
        Some((MathFn::Exp, 0))
    } else if name == "ln"@ || name == "log"@ {
        Some((MathFn::Ln, 0))
    } else if name == "round"@ {
        Some((MathFn::Round, 0))
    } else if name == "max"@ {
        Some((MathFn::Max, 1))
    } else if name == "min"@ {
        Some((MathFn::Min, 1))
    } else if name == "powf"@ || name == "pow"@ {
        Some((MathFn::Powf, 1))
    } else {
        None
    }
}

/// A function of numbers applied.
pub open spec fn l_math(s: Low, name: Seq<char>, recv: Ir, rest: IrList, n: nat) -> Lowered<Ir> {
    match math_fn(name) {
        Some((f, want)) => if n == want {
            Ok((s, Ir::Math(f, Box::new(recv), Box::new(rest))))
        } else if want == 0 {
            Err(name + " takes no arguments"@)
        } else {
            Err(name + " takes one argument"@)
        },
        None => Err(named("`"@, name, "` is not in the math whitelist"@)),
    }
}

/// Is this an operator on two numbers whose value is a number?
pub open spec fn arithmetic(op: BinOp) -> bool {
    op == BinOp::Add || op == BinOp::Sub || op == BinOp::Mul || op == BinOp::Div || op
        == BinOp::Rem
}

/// Why an operator has no number for a value.
pub open spec fn no_number(op: BinOp) -> Seq<char> {
    if op == BinOp::And || op == BinOp::Or {
        "`&&`/`||` as a value"@
    } else {
        "a comparison used as a value"@
    }
}

/// An operator on two expressions.
pub open spec fn l_binary(env: Env, s: Low, e: Expr) -> Lowered<Ir>
    decreases e, 1int, 0int,
{
    match e {
        Expr::Bin(op, a, b) => if arithmetic(op) {
            match l_expr(env, s, *a) {
                Ok((s1, x)) => match l_expr(env, s1, *b) {
                    Ok((s2, y)) => Ok((s2, Ir::Bin(op, Box::new(x), Box::new(y)))),
                    Err(m) => Err(m),
                },
                Err(m) => Err(m),
            }
        } else {
            Err(no_number(op))
        },
        _ => Err(Seq::empty()),
    }
}

/// A run of expressions.
pub open spec fn l_exprs(env: Env, s: Low, es: Seq<Expr>) -> Lowered<IrList>
    decreases es, 3int, 0int,
{
    if es.len() == 0 {
        Ok((s, IrList::End))
    } else {
        match l_expr(env, s, es[0]) {
            Ok((s1, x)) => match l_exprs(env, s1, es.drop_first()) {
                Ok((s2, rest)) => Ok((s2, IrList::Item(Box::new(x), Box::new(rest)))),
                Err(m) => Err(m),
            },
            Err(m) => Err(m),
        }
    }
}

/// `t[k][j]`, and `t[i]`.
pub open spec fn l_index(env: Env, s: Low, e: Expr) -> Lowered<Ir>
    decreases e, 1int, 0int,
{
    match e {
        Expr::Index(obj, key) => match element_of(env, s, *obj) {
            Some(slot) => match *obj {
                Expr::Index(_, k) => {
                    let (s1, ok) = proven(env, s, *k, slot);
                    match l_expr(env, s1, *k) {
                        Ok((s2, x)) => match l_expr(env, s2, *key) {
                            Ok((s3, y)) => Ok(
                                (
                                    Low { spans: add_once(s3.spans, slot), ..s3 },
                                    Ir::Element {
                                        slot,
                                        key: Box::new(x),
                                        proven: ok,
                                        inner: Box::new(y),
                                    },
                                ),
                            ),
                            Err(m) => Err(m),
                        },
                        Err(m) => Err(m),
                    }
                },
                _ => Err(Seq::empty()),
            },
            None => if is_table(env, *obj) {
                match table_slot(s, *obj) {
                    Ok(slot) => if kind(env, slot) != Kind::Table {
                        Err("reading a table that is also appended to"@)
                    } else {
                        let (s1, ok) = proven(env, s, *key, slot);
                        match l_expr(env, s1, *key) {
                            Ok((s2, x)) => Ok(
                                (s2, Ir::Read { slot, key: Box::new(x), proven: ok }),
                            ),
                            Err(m) => Err(m),
                        }
                    },
                    Err(m) => Err(m),
                }
            } else {
                Err("indexing"@)
            },
        },
        _ => Err(Seq::empty()),
    }
}

/// Is this a local that holds a table, or is taken to?
pub open spec fn pushes_table(env: Env, args: Seq<Expr>) -> bool {
    args.len() == 1 && match args[0] {
        Expr::Local(b, _) => !holds_number(kind(env, b.slot)),
        _ => false,
    }
}

/// `obj.name(..)`: a table's length, an append, or a function of numbers.
pub open spec fn l_method(env: Env, s: Low, e: Expr) -> Lowered<Ir>
    decreases e, 1int, 0int,
{
    match e {
        Expr::Method(obj, name, args) => if is_table(env, *obj) {
            match table_slot(s, *obj) {
                Ok(slot) => if name@ == "len"@ && args@.len() == 0 {
                    if kind(env, slot) is Table || kind(env, slot) is Tables {
                        Ok((s, Ir::Len(slot)))
                    } else {
                        Ok((s, Ir::AskLen(slot)))
                    }
                } else if name@ == "push"@ && pushes_table(env, args@) {
                    match args@[0] {
                        Expr::Local(b, elem) => if b.cell || !s.known.contains(b.slot) {
                            Err(named("`"@, elem@, "` is captured or declared outside"@))
                        } else if infer::outer_at(env.inner_of, b.slot) is Some {
                            Err(named("`"@, elem@, "` is an element read through a view"@))
                        } else {
                            Ok((s, Ir::PushTable(slot, b.slot)))
                        },
                        _ => Err(Seq::empty()),
                    }
                } else if name@ == "push"@ && args@.len() == 1 {
                    match l_expr(env, s, args@[0]) {
                        Ok((s1, x)) => Ok((s1, Ir::Push(slot, Box::new(x)))),
                        Err(m) => Err(m),
                    }
                } else {
                    Err(named("`"@, name@, "` on a table"@))
                },
                Err(m) => Err(m),
            }
        } else {
            match l_expr(env, s, *obj) {
                Ok((s1, recv)) => match l_exprs(env, s1, args@) {
                    Ok((s2, rest)) => l_math(s2, name@, recv, rest, args@.len()),
                    Err(m) => Err(m),
                },
                Err(m) => Err(m),
            }
        },
        _ => Err(Seq::empty()),
    }
}

/// The name in `math::name`.
pub open spec fn math_name(f: Expr) -> Option<Seq<char>> {
    match f {
        Expr::Index(obj, key) => match *obj {
            Expr::Global(o, _) => match *key {
                Expr::Str(k) => if o@ == "math"@ {
                    Some(k@)
                } else {
                    None
                },
                _ => None,
            },
            _ => None,
        },
        _ => None,
    }
}

/// Does this name the function being lowered?
pub open spec fn is_self(env: Env, f: Expr) -> bool {
    match f {
        Expr::Upval(i, _) => env.self_upval == Some(i),
        Expr::Global(name, _) => match env.self_global {
            Some(g) => g == name@,
            None => false,
        },
        _ => false,
    }
}

/// Arguments that are all numbers.
pub open spec fn l_numbers(env: Env, s: Low, es: Seq<Expr>) -> Lowered<IrArgs>
    decreases es, 3int, 0int,
{
    if es.len() == 0 {
        Ok((s, IrArgs::End))
    } else {
        match l_expr(env, s, es[0]) {
            Ok((s1, x)) => match l_numbers(env, s1, es.drop_first()) {
                Ok((s2, rest)) => Ok((s2, IrArgs::Num(Box::new(x), Box::new(rest)))),
                Err(m) => Err(m),
            },
            Err(m) => Err(m),
        }
    }
}

/// A table that can be handed on: one held here, of the kind wanted.
pub open spec fn held(env: Env, s: Low, e: Expr, want: Kind) -> Option<u16> {
    match e {
        Expr::Local(b, _) => if kind(env, b.slot) == want && s.known.contains(b.slot) {
            Some(b.slot)
        } else {
            None
        },
        _ => None,
    }
}

/// Arguments of the kinds a function takes. A call of itself may hand on any
/// table it holds; a call of another none that would be written.
pub open spec fn l_args(env: Env, s: Low, es: Seq<Expr>, ks: Seq<Kind>, own: bool) -> Lowered<
    IrArgs,
>
    decreases es, 3int, 0int,
{
    if es.len() == 0 {
        Ok((s, IrArgs::End))
    } else if ks[0] == Kind::Num {
        match l_expr(env, s, es[0]) {
            Ok((s1, x)) => match l_args(env, s1, es.drop_first(), ks.drop_first(), own) {
                Ok((s2, rest)) => Ok((s2, IrArgs::Num(Box::new(x), Box::new(rest)))),
                Err(m) => Err(m),
            },
            Err(m) => Err(m),
        }
    } else {
        match held(env, s, es[0], ks[0]) {
            Some(slot) => if own || ks[0] is Table || ks[0] is Tables {
                match l_args(env, s, es.drop_first(), ks.drop_first(), own) {
                    Ok((s1, rest)) => Ok((s1, IrArgs::Table(slot, Box::new(rest)))),
                    Err(m) => Err(m),
                }
            } else {
                Err("a table argument that is not the one held here"@)
            },
            None => Err("a table argument that is not the one held here"@),
        }
    }
}

/// Can this callee be compiled beside its caller?
pub open spec fn beside(c: Callable, n: nat) -> bool {
    &&& c.def is Some
    &&& c.kinds@.len() == n
    &&& forall|i: int| 0 <= i < c.kinds@.len() ==> #[trigger] c.kinds@[i] == Kind::Num
    &&& lengths::small(*c.def->Some_0)
}

/// The place of a name, or their number.
pub open spec fn name_at(s: Seq<Seq<char>>, name: Seq<char>, i: nat) -> nat
    decreases s.len() - i,
{
    if i >= s.len() {
        s.len()
    } else if s[i as int] == name {
        i
    } else {
        name_at(s, name, i + 1)
    }
}

pub open spec fn cannot_call(name: Seq<char>) -> Seq<char> {
    named("call to `"@, name, "`"@)
}

/// Remember a callee that is compiled beside this, each definition once.
pub open spec fn with_beside(env: Env, s: Low, at: usize, name: Seq<char>) -> Low {
    let id = env.callables[at as int].def->Some_0.id;
    Low {
        beside: if exists|i: int|
            0 <= i < s.beside.len() && id_of(env, #[trigger] s.beside[i]) == Some(id) {
            s.beside
        } else {
            s.beside.push(at)
        },
        inlined: s.inlined.push(name),
        ..s
    }
}

/// The definition behind a callable.
pub open spec fn id_of(env: Env, at: usize) -> Option<usize> {
    if at < env.callables.len() {
        match env.callables[at as int].def {
            Some(d) => Some(d.id),
            None => None,
        }
    } else {
        None
    }
}

/// A call of another compiled function: one compiled beside this, or one the
/// runtime keeps.
pub open spec fn l_call_global(env: Env, s: Low, name: Seq<char>, args: Seq<Expr>) -> Lowered<Ir>
    decreases args, 4int, 0int,
{
    let at = kinds::callable_at(env.callables, name, 0);
    if at >= env.callables.len() {
        Err(cannot_call(name))
    } else if beside(env.callables[at as int], args.len()) {
        match l_numbers(env, with_beside(env, s, at as usize, name), args) {
            Ok((s1, xs)) => Ok(
                (
                    Low { calls: true, ..s1 },
                    Ir::CallBeside(env.callables[at as int].def->Some_0.id, Box::new(xs)),
                ),
            ),
            Err(m) => Err(m),
        }
    } else if env.callables[at as int].kinds@.len() == args.len() {
        match l_args(env, s, args, env.callables[at as int].kinds@, false) {
            Ok((s1, xs)) => {
                let i = name_at(s1.inlined, name, 0);
                Ok(
                    (
                        Low {
                            calls: true,
                            inlined: if i < s1.inlined.len() {
                                s1.inlined
                            } else {
                                s1.inlined.push(name)
                            },
                            ..s1
                        },
                        Ir::CallThrough(i as usize, Box::new(xs)),
                    ),
                )
            },
            Err(_) => Err(cannot_call(name)),
        }
    } else {
        Err(cannot_call(name))
    }
}

/// A call.
pub open spec fn l_call(env: Env, s: Low, e: Expr) -> Lowered<Ir>
    decreases e, 1int, 0int,
{
    match e {
        Expr::Call(f, args) => match math_name(*f) {
            Some(k) => match l_exprs(env, s, args@) {
                Ok((s1, IrList::Item(recv, rest))) => l_math(
                    s1,
                    k,
                    *recv,
                    *rest,
                    (args@.len() - 1) as nat,
                ),
                Ok((s1, IrList::End)) => Err(named("math::"@, k, " with no arguments"@)),
                Err(m) => Err(m),
            },
            None => if is_self(env, *f) && env.returns_table {
                Err("a recursive call to a function that hands back a table"@)
            } else if is_self(env, *f) && env.arity == Some(args@.len() as usize) && env.params.len()
                == args@.len() {
                match l_args(env, s, args@, env.params, true) {
                    Ok((s1, xs)) => Ok((Low { calls: true, ..s1 }, Ir::CallSelf(Box::new(xs)))),
                    Err(m) => Err(m),
                }
            } else {
                match *f {
                    Expr::Global(name, _) => l_call_global(env, s, name@, args@),
                    Expr::Upval(_, name) => Err(cannot_call(name@)),
                    Expr::Local(_, name) => Err(cannot_call(name@)),
                    _ => Err("call to a non-inlinable function"@),
                }
            },
        },
        _ => Err(Seq::empty()),
    }
}

/// An expression whose value is a number.
pub open spec fn l_expr(env: Env, s: Low, e: Expr) -> Lowered<Ir>
    decreases e, 2int, 0int,
{
    match e {
        Expr::Num(n) => Ok((s, Ir::Num(n))),
        Expr::Bool(_) => Err("a boolean used as a number"@),
        Expr::Nil => Err("nil"@),
        Expr::Str(_) => Err("strings"@),
        Expr::Local(b, name) => l_local(env, s, b, name@),
        Expr::Upval(_, name) => Err(named("upvalue `"@, name@, "`"@)),
        Expr::Global(name, _) => Err(named("global `"@, name@, "`"@)),
        Expr::Var(name) => Err(named("unresolved `"@, name@, "`"@)),
        Expr::Do(b) => match l_block(env, s, b, true) {
            Ok((s1, x)) => Ok((s1, Ir::Block(Box::new(x)))),
            Err(m) => Err(m),
        },
        Expr::If(_, _) => match l_if(env, s, e, 0, true) {
            Ok((s1, x)) => Ok((s1, Ir::If(Box::new(x)))),
            Err(m) => Err(m),
        },
        Expr::Match(_, _) => match l_match(env, s, e, true) {
            Ok((s1, x)) => Ok((s1, Ir::Match(Box::new(x)))),
            Err(m) => Err(m),
        },
        Expr::Un(op, a) => if op == UnOp::Not {
            Err("`!` as a value"@)
        } else {
            match l_expr(env, s, *a) {
                Ok((s1, x)) => Ok((s1, Ir::Neg(Box::new(x)))),
                Err(m) => Err(m),
            }
        },
        Expr::Bin(..) => l_binary(env, s, e),
        Expr::Call(..) => l_call(env, s, e),
        Expr::Index(..) => l_index(env, s, e),
        Expr::Method(..) => l_method(env, s, e),
        Expr::Func(_) => Err("nested function"@),
        Expr::Array(_) => Err("array literal"@),
        Expr::Entries(_) => Err("map literal"@),
        Expr::Range(..) => Err("range"@),
    }
}

/// A condition, which must be provably a boolean: compiled code has nothing
/// but numbers, and a zero is true.
pub open spec fn l_truthy(env: Env, s: Low, e: Expr) -> Lowered<Cond>
    decreases e, 2int, 0int,
{
    match e {
        Expr::Bool(b) => Ok((s, Cond::Lit(b))),
        Expr::Bin(op, a, b) => if flags::compares(op) {
            match l_expr(env, s, *a) {
                Ok((s1, x)) => match l_expr(env, s1, *b) {
                    Ok((s2, y)) => Ok((s2, Cond::Compare(op, Box::new(x), Box::new(y)))),
                    Err(m) => Err(m),
                },
                Err(m) => Err(m),
            }
        } else if op == BinOp::And || op == BinOp::Or {
            match l_truthy(env, s, *a) {
                Ok((s1, x)) => match l_truthy(env, s1, *b) {
                    Ok((s2, y)) => Ok(
                        (
                            s2,
                            if op == BinOp::And {
                                Cond::And(Box::new(x), Box::new(y))
                            } else {
                                Cond::Or(Box::new(x), Box::new(y))
                            },
                        ),
                    ),
                    Err(m) => Err(m),
                },
                Err(m) => Err(m),
            }
        } else {
            Err("a condition that is not a comparison"@)
        },
        Expr::Un(op, a) => if op == UnOp::Not {
            match l_truthy(env, s, *a) {
                Ok((s1, x)) => Ok((s1, Cond::Not(Box::new(x)))),
                Err(m) => Err(m),
            }
        } else {
            Err("a condition that is not provably a boolean"@)
        },
        Expr::Local(b, _) => if flag(s.flags, b.slot) && s.known.contains(b.slot) {
            Ok((s, Cond::Flag(b.slot)))
        } else {
            Err("a condition that is not provably a boolean"@)
        },
        _ => Err("a condition that is not provably a boolean"@),
    }
}

/// The arms of an `if` from `i` on.
pub open spec fn l_if(env: Env, s: Low, e: Expr, i: nat, want: bool) -> Lowered<IrIf>
    decreases
            e,
            1int,
            (match e {
                Expr::If(arms, _) => arms@.len() - i,
                _ => 0,
            }),
{
    match e {
        Expr::If(arms, els) => if i >= arms@.len() {
            Err("an `if` without arms"@)
        } else {
            match l_truthy(env, s, arms@[i as int].0) {
                Ok((s1, cond)) => match l_block(env, s1, arms@[i as int].1, want) {
                    Ok((s2, body)) => if i + 1 < arms@.len() {
                        match l_if(env, s2, e, i + 1, want) {
                            Ok((s3, rest)) => Ok(
                                (s3, IrIf { cond, body, rest: IrElse::If(Box::new(rest)) }),
                            ),
                            Err(m) => Err(m),
                        }
                    } else {
                        match els {
                            Some(b) => match l_block(env, s2, b, want) {
                                Ok((s3, rest)) => Ok(
                                    (
                                        s3,
                                        IrIf { cond, body, rest: IrElse::Block(Box::new(rest)) },
                                    ),
                                ),
                                Err(m) => Err(m),
                            },
                            None => if want {
                                Err("`if` without `else` used as a value"@)
                            } else {
                                Ok((s2, IrIf { cond, body, rest: IrElse::Nothing }))
                            },
                        }
                    },
                    Err(m) => Err(m),
                },
                Err(m) => Err(m),
            }
        },
        _ => Err(Seq::empty()),
    }
}

/// What the patterns of an arm test, and the slot they bind.
pub open spec fn l_patterns(env: Env, s: Low, ps: Seq<Pattern>) -> Lowered<
    (Option<u16>, Option<Cond>),
>
    decreases ps, 3int, 0int,
{
    if ps.len() == 0 {
        Ok((s, (None, None)))
    } else {
        match l_patterns(env, s, ps.drop_last()) {
            Ok((s1, (bind, test))) => match ps[ps.len() - 1] {
                Pattern::Wild => Ok((s1, (bind, None))),
                Pattern::Bind(name, binding) => match binding {
                    Some(b) => if b.cell {
                        Err("a match binding is captured by a closure"@)
                    } else {
                        Ok(
                            (
                                Low { known: s1.known.push(b.slot), ..s1 },
                                (Some(b.slot), test),
                            ),
                        )
                    },
                    None => Err(named("unresolved pattern `"@, name@, "`"@)),
                },
                Pattern::Lit(e) => match l_expr(env, s1, e) {
                    Ok((s2, x)) => Ok(
                        (
                            s2,
                            (
                                bind,
                                Some(
                                    match test {
                                        Some(t) => Cond::Or(
                                            Box::new(t),
                                            Box::new(Cond::Subject(Box::new(x))),
                                        ),
                                        None => Cond::Subject(Box::new(x)),
                                    },
                                ),
                            ),
                        ),
                    ),
                    Err(m) => Err(m),
                },
            },
            Err(m) => Err(m),
        }
    }
}

/// What an arm tests in all.
pub open spec fn arm_test(test: Option<Cond>, guard: Option<Cond>) -> Option<Cond> {
    match (test, guard) {
        (Some(t), Some(g)) => Some(Cond::And(Box::new(t), Box::new(g))),
        (Some(t), None) => Some(t),
        (None, g) => g,
    }
}

pub open spec fn l_guard(env: Env, s: Low, g: Option<Expr>) -> Lowered<Option<Cond>>
    decreases g, 3int, 0int,
{
    match g {
        Some(e) => match l_truthy(env, s, e) {
            Ok((s1, c)) => Ok((s1, Some(c))),
            Err(m) => Err(m),
        },
        None => Ok((s, None)),
    }
}

pub open spec fn no_catch_all() -> Seq<char> {
    "`match` in value position has no catch-all arm"@
}

/// The arms of a match, from the last up: what follows an arm is its `else`.
pub open spec fn l_arms(env: Env, s: Low, arms: Seq<Arm>, want: bool) -> Lowered<IrArms>
    decreases arms, 3int, 0int,
{
    if arms.len() == 0 {
        Ok((s, IrArms::End))
    } else {
        match l_arms(env, s, arms.drop_first(), want) {
            Ok((s1, rest)) => match l_patterns(env, s1, arms[0].patterns@) {
                Ok((s2, (bind, test))) => match l_block(env, s2, arms[0].body, want) {
                    Ok((s3, body)) => match l_guard(env, s3, arms[0].guard) {
                        Ok((s4, guard)) => match arm_test(test, guard) {
                            None => Ok((s4, IrArms::Always { bind, body: Box::new(body) })),
                            Some(c) => if want && rest is End {
                                Err(no_catch_all())
                            } else {
                                Ok(
                                    (
                                        s4,
                                        IrArms::Test {
                                            bind,
                                            cond: Box::new(c),
                                            body: Box::new(body),
                                            rest: Box::new(rest),
                                        },
                                    ),
                                )
                            },
                        },
                        Err(m) => Err(m),
                    },
                    Err(m) => Err(m),
                },
                Err(m) => Err(m),
            },
            Err(m) => Err(m),
        }
    }
}

/// A match over numbers.
pub open spec fn l_match(env: Env, s: Low, e: Expr, want: bool) -> Lowered<IrMatch>
    decreases e, 1int, 0int,
{
    match e {
        Expr::Match(subject, arms) => match l_expr(env, s, *subject) {
            Ok((s1, x)) => match l_arms(env, s1, arms@, want) {
                Ok((s2, chain)) => if want && chain is End {
                    Err(no_catch_all())
                } else {
                    Ok((s2, IrMatch { subject: x, arms: chain }))
                },
                Err(m) => Err(m),
            },
            Err(m) => Err(m),
        },
        _ => Err(Seq::empty()),
    }
}

// ---- statements ---------------------------------------------------------------------------------

/// An expression whose value nobody wants.
pub open spec fn l_unit(env: Env, s: Low, e: Expr) -> Lowered<IrStat>
    decreases e, 3int, 0int,
{
    match e {
        Expr::Do(b) => match l_block(env, s, b, false) {
            Ok((s1, x)) => Ok((s1, IrStat::Block(x))),
            Err(m) => Err(m),
        },
        Expr::If(_, _) => match l_if(env, s, e, 0, false) {
            Ok((s1, x)) => Ok((s1, IrStat::If(x))),
            Err(m) => Err(m),
        },
        Expr::Match(_, _) => match l_match(env, s, e, false) {
            Ok((s1, x)) => Ok((s1, IrStat::Match(x))),
            Err(m) => Err(m),
        },
        _ => match l_expr(env, s, e) {
            Ok((s1, x)) => Ok((s1, IrStat::Discard(x))),
            Err(m) => Err(m),
        },
    }
}

/// The statements of a block.
pub open spec fn l_stats(env: Env, s: Low, stats: Seq<Stat>) -> Lowered<IrStats>
    decreases stats, 3int, 0int,
{
    if stats.len() == 0 {
        Ok((s, IrStats::End))
    } else {
        match l_stat(env, s, stats[0]) {
            Ok((s1, x)) => match l_stats(env, s1, stats.drop_first()) {
                Ok((s2, rest)) => Ok((s2, IrStats::Then(Box::new(x), Box::new(rest)))),
                Err(m) => Err(m),
            },
            Err(m) => Err(m),
        }
    }
}

/// What a block ends in. Only the function's own block hands back a table.
pub open spec fn l_tail(env: Env, s: Low, b: Block, want: bool, ret: Option<u16>) -> Lowered<IrTail>
    decreases b, 2int, 0int,
{
    match b.tail {
        Some(e) => if want && ret is Some && walk::local_slot(*e) == ret {
            Ok((s, IrTail::Table(ret->Some_0)))
        } else if want {
            match l_expr(env, s, *e) {
                Ok((s1, x)) => Ok((s1, IrTail::Value(Box::new(x)))),
                Err(m) => Err(m),
            }
        } else {
            match l_unit(env, s, *e) {
                Ok((s1, x)) => Ok((s1, IrTail::Unit(Box::new(x)))),
                Err(m) => Err(m),
            }
        },
        None => if want && !lengths::ends_in_return(b) {
            Err("a value is needed but the block produces none"@)
        } else {
            Ok((s, IrTail::Nothing))
        },
    }
}

/// A block. What it brings into scope goes out of it at its end.
pub open spec fn l_block(env: Env, s: Low, b: Block, want: bool) -> Lowered<IrBlock>
    decreases b, 3int, 0int,
{
    match l_stats(env, Low { ret_slot: None, ..s }, b.stats@) {
        Ok((s1, stats)) => match l_tail(env, s1, b, want, s.ret_slot) {
            Ok((s2, tail)) => Ok(
                (Low { known: s.known, flags: s.flags, ..s2 }, IrBlock { stats, tail }),
            ),
            Err(m) => Err(m),
        },
        Err(m) => Err(m),
    }
}

/// `let b = t[i]` where the elements of `t` are tables.
pub open spec fn l_let_element(env: Env, s: Low, st: Stat) -> Lowered<IrStat>
    decreases st, 2int, 0int,
{
    match st {
        Stat::LetSlots(bs, es) => if bs@.len() == 0 {
            Err(Seq::empty())
        } else if bs@[0].cell {
            Err("an element of an array captured by a closure"@)
        } else if es@.len() == 0 {
            Err("an element binding with no index"@)
        } else {
            match es@[0] {
                Expr::Index(obj, key) => match table_slot(s, *obj) {
                    Ok(outer) => {
                        let (s1, ok) = proven(env, s, *key, outer);
                        if !ok {
                            Err("an unproven index into an array of arrays"@)
                        } else {
                            match l_expr(env, s1, *key) {
                                Ok((s2, x)) => Ok(
                                    (
                                        Low {
                                            known: s2.known.push(bs@[0].slot),
                                            spans: add_once(s2.spans, outer),
                                            ..s2
                                        },
                                        IrStat::LetElement {
                                            slot: bs@[0].slot,
                                            outer,
                                            key: x,
                                            min: match kind(env, outer) {
                                                Kind::Tables { checked, min } => min,
                                                _ => 0,
                                            },
                                        },
                                    ),
                                ),
                                Err(m) => Err(m),
                            }
                        }
                    },
                    Err(m) => Err(m),
                },
                _ => Err("an element binding with no index"@),
            }
        },
        _ => Err(Seq::empty()),
    }
}

/// `let t = [..]`: a table the code makes.
pub open spec fn l_let_table(env: Env, s: Low, st: Stat) -> Lowered<IrStat>
    decreases st, 2int, 0int,
{
    match st {
        Stat::LetSlots(bs, es) => if bs@.len() == 0 || es@.len() == 0 {
            Err(Seq::empty())
        } else if bs@[0].cell {
            Err("a table made here is captured by a closure"@)
        } else {
            match es@[0] {
                Expr::Array(items) => match l_exprs(env, s, items@) {
                    Ok((s1, xs)) => Ok(
                        (
                            Low { known: s1.known.push(bs@[0].slot), ..s1 },
                            IrStat::LetTable { slot: bs@[0].slot, items: xs },
                        ),
                    ),
                    Err(m) => Err(m),
                },
                _ => Err(Seq::empty()),
            }
        },
        _ => Err(Seq::empty()),
    }
}

/// The values of a `let`: a condition is held as a flag.
pub open spec fn l_values(env: Env, s: Low, es: Seq<Expr>) -> Lowered<IrValues>
    decreases es, 3int, 0int,
{
    if es.len() == 0 {
        Ok((s, IrValues::End))
    } else if flags::bool_like(es[0]) {
        match l_truthy(env, s, es[0]) {
            Ok((s1, c)) => match l_values(env, s1, es.drop_first()) {
                Ok((s2, rest)) => Ok((s2, IrValues::Flag(Box::new(c), Box::new(rest)))),
                Err(m) => Err(m),
            },
            Err(m) => Err(m),
        }
    } else {
        match l_expr(env, s, es[0]) {
            Ok((s1, x)) => match l_values(env, s1, es.drop_first()) {
                Ok((s2, rest)) => Ok((s2, IrValues::Num(Box::new(x), Box::new(rest)))),
                Err(m) => Err(m),
            },
            Err(m) => Err(m),
        }
    }
}

pub open spec fn slot_list(bs: Seq<Binding>) -> IrSlots
    decreases bs.len(),
{
    if bs.len() == 0 {
        IrSlots::End
    } else {
        IrSlots::Slot(bs[0].slot, Box::new(slot_list(bs.drop_first())))
    }
}

/// What each binding says of its slot.
pub open spec fn let_flags(bs: Seq<Binding>, es: Seq<Expr>) -> Seq<(u16, bool)> {
    Seq::new(bs.len(), |i: int| (bs[i].slot, i < es.len() && flags::bool_like(es[i])))
}

pub open spec fn l_let(env: Env, s: Low, st: Stat) -> Lowered<IrStat>
    decreases st, 2int, 0int,
{
    match st {
        Stat::LetSlots(bs, es) => if es@.len() > bs@.len() {
            Err("extra values in a `let`"@)
        } else if lengths::captures_param(bs@) {
            Err("a local captured by a closure"@)
        } else {
            match l_values(env, s, es@) {
                Ok((s1, values)) => if es@.len() < bs@.len() {
                    Err("a binding with no value (that is nil, not 0)"@)
                } else {
                    Ok(
                        (
                            Low {
                                known: s1.known + walk::slots_of(bs@),
                                flags: s1.flags + let_flags(bs@, es@),
                                ..s1
                            },
                            IrStat::Let { values, slots: slot_list(bs@) },
                        ),
                    )
                },
                Err(m) => Err(m),
            }
        },
        _ => Err(Seq::empty()),
    }
}

/// The slot behind an assignment target, if it is a plain local.
pub open spec fn plain_local(s: Low, t: Expr) -> Result<u16, Seq<char>> {
    match t {
        Expr::Local(b, name) => if !b.cell && s.known.contains(b.slot) {
            Ok(b.slot)
        } else {
            Err(named("assignment to `"@, name@, "`, which is not a plain local"@))
        },
        Expr::Upval(_, name) => Err(
            named("assignment to `"@, name@, "`, which is not a plain local"@),
        ),
        Expr::Global(name, _) => Err(
            named("assignment to `"@, name@, "`, which is not a plain local"@),
        ),
        _ => Err("assignment to a field"@),
    }
}

/// The values of an assignment: a flag takes a condition.
pub open spec fn l_assigned(env: Env, s: Low, ts: Seq<Expr>, es: Seq<Expr>) -> Lowered<IrValues>
    decreases es, 3int, 0int,
{
    if es.len() == 0 {
        Ok((s, IrValues::End))
    } else if (match walk::local_slot(ts[0]) {
        Some(slot) => flag(s.flags, slot),
        None => false,
    }) {
        match l_truthy(env, s, es[0]) {
            Ok((s1, c)) => match l_assigned(env, s1, ts.drop_first(), es.drop_first()) {
                Ok((s2, rest)) => Ok((s2, IrValues::Flag(Box::new(c), Box::new(rest)))),
                Err(m) => Err(m),
            },
            Err(m) => Err(m),
        }
    } else {
        match l_expr(env, s, es[0]) {
            Ok((s1, x)) => match l_assigned(env, s1, ts.drop_first(), es.drop_first()) {
                Ok((s2, rest)) => Ok((s2, IrValues::Num(Box::new(x), Box::new(rest)))),
                Err(m) => Err(m),
            },
            Err(m) => Err(m),
        }
    }
}

/// The slots of an assignment's targets, of which `n` have a value.
pub open spec fn target_list(s: Low, ts: Seq<Expr>, n: nat) -> Result<IrSlots, Seq<char>>
    decreases ts.len(),
{
    if ts.len() == 0 {
        Ok(IrSlots::End)
    } else {
        match plain_local(s, ts[0]) {
            Ok(slot) => if n == 0 {
                Err("an assignment with no value (that is nil, not 0)"@)
            } else {
                match target_list(s, ts.drop_first(), (n - 1) as nat) {
                    Ok(rest) => Ok(IrSlots::Slot(slot, Box::new(rest))),
                    Err(m) => Err(m),
                }
            },
            Err(m) => Err(m),
        }
    }
}

pub open spec fn l_assign(env: Env, s: Low, st: Stat) -> Lowered<IrStat>
    decreases st, 2int, 0int,
{
    match st {
        Stat::Assign(ts, es) => if es@.len() > ts@.len() {
            Err("extra values in an assignment"@)
        } else {
            match l_assigned(env, s, ts@, es@) {
                Ok((s1, values)) => match target_list(s1, ts@, es@.len()) {
                    Ok(slots) => Ok((s1, IrStat::Assign { values, slots })),
                    Err(m) => Err(m),
                },
                Err(m) => Err(m),
            }
        },
        _ => Err(Seq::empty()),
    }
}

/// How an element is written, once its index and value are there.
pub open spec fn stored(env: Env, s: Low, slot: u16, at: Expr, key: Ir, value: Ir) -> (
    Low,
    IrStat,
) {
    let (s1, ok) = proven(env, s, at, slot);
    (
        s1,
        IrStat::Write {
            slot,
            key,
            value,
            how: if ok {
                Store::Proven
            } else if env.mutable.contains(slot) {
                Store::Tested
            } else {
                Store::Asked
            },
        },
    )
}

/// `t[i] = v`.
pub open spec fn l_write(env: Env, s: Low, st: Stat) -> Lowered<IrStat>
    decreases st, 2int, 0int,
{
    match st {
        Stat::Assign(ts, es) => if ts@.len() == 0 || es@.len() == 0 {
            Err(Seq::empty())
        } else {
            match ts@[0] {
                Expr::Index(obj, key) => match table_slot(s, *obj) {
                    Ok(slot) => match l_expr(env, s, *key) {
                        Ok((s1, x)) => match l_expr(env, s1, es@[0]) {
                            Ok((s2, y)) => Ok(stored(env, s2, slot, *key, x, y)),
                            Err(m) => Err(m),
                        },
                        Err(m) => Err(m),
                    },
                    Err(m) => Err(m),
                },
                _ => Err(Seq::empty()),
            }
        },
        _ => Err(Seq::empty()),
    }
}

/// Is this an index that can be worked out twice?
pub open spec fn plain_index(e: Expr) -> bool {
    match e {
        Expr::Index(_, key) => *key is Local || *key is Num,
        _ => false,
    }
}

/// `t[i] -= v`: the read, the operation and the write.
pub open spec fn l_update_element(env: Env, s: Low, st: Stat) -> Lowered<IrStat>
    decreases st, 2int, 0int,
{
    match st {
        Stat::OpAssign(t, op, e) => match t {
            Expr::Index(obj, key) => match table_slot(s, *obj) {
                Ok(slot) => match l_expr(env, s, *key) {
                    Ok((s1, x)) => if !arithmetic(op) {
                        Err(no_number(op))
                    } else {
                        match l_expr(env, s1, t) {
                            Ok((s2, before)) => match l_expr(env, s2, e) {
                                Ok((s3, by)) => Ok(
                                    stored(
                                        env,
                                        s3,
                                        slot,
                                        *key,
                                        x,
                                        Ir::Bin(op, Box::new(before), Box::new(by)),
                                    ),
                                ),
                                Err(m) => Err(m),
                            },
                            Err(m) => Err(m),
                        }
                    },
                    Err(m) => Err(m),
                },
                Err(m) => Err(m),
            },
            _ => Err(Seq::empty()),
        },
        _ => Err(Seq::empty()),
    }
}

pub open spec fn l_update(env: Env, s: Low, st: Stat) -> Lowered<IrStat>
    decreases st, 2int, 0int,
{
    match st {
        Stat::OpAssign(t, op, e) => match plain_local(s, t) {
            Ok(slot) => match l_expr(env, s, e) {
                Ok((s1, x)) => if arithmetic(op) {
                    Ok((s1, IrStat::Update(op, slot, x)))
                } else {
                    Err("unsupported compound assignment"@)
                },
                Err(m) => Err(m),
            },
            Err(m) => Err(m),
        },
        _ => Err(Seq::empty()),
    }
}

/// The table a return hands back, if it is one the code made.
pub open spec fn returned_table(env: Env, s: Low, es: Seq<Expr>) -> Option<u16> {
    if env.returns_table && es.len() == 1 {
        match walk::local_slot(es[0]) {
            Some(slot) => if kind(env, slot) == Kind::New && s.known.contains(slot) {
                Some(slot)
            } else {
                None
            },
            None => None,
        }
    } else {
        None
    }
}

pub open spec fn l_return(env: Env, s: Low, st: Stat) -> Lowered<IrStat>
    decreases st, 2int, 0int,
{
    match st {
        Stat::Return(es) => match returned_table(env, s, es@) {
            Some(slot) => Ok((s, IrStat::ReturnTable(slot))),
            None => if es@.len() == 0 {
                Ok((s, IrStat::Return(None)))
            } else if es@.len() == 1 {
                match l_expr(env, s, es@[0]) {
                    Ok((s1, x)) => Ok((s1, IrStat::Return(Some(x)))),
                    Err(m) => Err(m),
                }
            } else {
                Err("multiple return values"@)
            },
        },
        _ => Err(Seq::empty()),
    }
}

/// The body of a loop, whose `continue` goes where `label` says.
pub open spec fn l_body(env: Env, s: Low, b: Block, label: Option<u32>) -> Lowered<IrBlock>
    decreases b, 4int, 0int,
{
    match l_block(env, Low { labels: s.labels.push(label), ..s }, b, false) {
        Ok((s1, body)) => Ok((Low { labels: s.labels, ..s1 }, body)),
        Err(m) => Err(m),
    }
}

pub open spec fn next_label(n: u32) -> u32 {
    if n == u32::MAX {
        0
    } else {
        (n + 1) as u32
    }
}

/// A counted loop.
pub open spec fn l_for(env: Env, s: Low, st: Stat) -> Lowered<IrStat>
    decreases st, 2int, 0int,
{
    match st {
        Stat::ForRange { id, var, binding, start, end, inclusive, body } => match binding {
            None => Err("unresolved `for` loop"@),
            Some(b) => if b.cell {
                Err("the loop variable is captured by a closure"@)
            } else {
                match l_expr(env, s, start) {
                    Ok((s1, x)) => match l_expr(env, s1, end) {
                        Ok((s2, y)) => {
                            let s3 = Low { known: s2.known.push(b.slot), ..s2 };
                            let fact = range_fact(env, b, start, end, inclusive, body);
                            let bound = hoistable(env, s3, b, start, end, inclusive, body);
                            let label = next_label(s2.n_labels);
                            let s4 = Low {
                                in_range: match fact {
                                    Some(f) => s3.in_range.push(f),
                                    None => s3.in_range,
                                },
                                bounded: match bound {
                                    Some(d) => s3.bounded.push((b.slot, d)),
                                    None => s3.bounded,
                                },
                                n_labels: label,
                                ..s3
                            };
                            match l_body(env, s4, body, Some(label)) {
                                Ok((s5, inner)) => Ok(
                                    (
                                        Low {
                                            known: s2.known,
                                            in_range: s2.in_range,
                                            bounded: s2.bounded,
                                            ..s5
                                        },
                                        IrStat::For {
                                            slot: b.slot,
                                            start: x,
                                            end: y,
                                            inclusive,
                                            label,
                                            body: inner,
                                        },
                                    ),
                                ),
                                Err(m) => Err(m),
                            }
                        },
                        Err(m) => Err(m),
                    },
                    Err(m) => Err(m),
                }
            },
        },
        _ => Err(Seq::empty()),
    }
}

/// One statement.
pub open spec fn l_stat(env: Env, s: Low, st: Stat) -> Lowered<IrStat>
    decreases st, 3int, 0int,
{
    match st {
        Stat::LetSlots(bs, es) => if bs@.len() == 1 && infer::outer_at(
            env.inner_of,
            bs@[0].slot,
        ) is Some {
            l_let_element(env, s, st)
        } else if bs@.len() == 1 && es@.len() == 1 && kind(env, bs@[0].slot) == Kind::New
            && es@[0] is Array {
            l_let_table(env, s, st)
        } else {
            l_let(env, s, st)
        },
        Stat::Assign(ts, es) => if ts@.len() == 1 && es@.len() == 1 && is_table_write(env, ts@[0]) {
            l_write(env, s, st)
        } else {
            l_assign(env, s, st)
        },
        Stat::OpAssign(t, op, e) => if is_table_write(env, t) && plain_index(t) {
            l_update_element(env, s, st)
        } else {
            l_update(env, s, st)
        },
        Stat::Return(_) => l_return(env, s, st),
        Stat::Break => Ok((s, IrStat::Break)),
        Stat::Continue => if s.labels.len() == 0 {
            Err("`continue` outside a loop"@)
        } else {
            match s.labels.last() {
                Some(l) => Ok((s, IrStat::Leave(l))),
                None => Ok((s, IrStat::Continue)),
            }
        },
        Stat::While(_, c, b) => match l_truthy(env, s, c) {
            Ok((s1, cond)) => match l_body(env, s1, b, None) {
                Ok((s2, body)) => Ok((s2, IrStat::While(cond, body))),
                Err(m) => Err(m),
            },
            Err(m) => Err(m),
        },
        Stat::Loop(_, b) => match l_body(env, s, b, None) {
            Ok((s1, body)) => Ok((s1, IrStat::Loop(body))),
            Err(m) => Err(m),
        },
        Stat::ForRange { .. } => l_for(env, s, st),
        Stat::Expr(e) => if e is If || e is Do {
            l_unit(env, s, e)
        } else {
            match l_expr(env, s, e) {
                Ok((s1, x)) => Ok((s1, IrStat::Discard(x))),
                Err(m) => Err(m),
            }
        },
        Stat::ForIn { .. } => Err("`for ... in` over an iterator"@),
        Stat::FnSlot(..) => Err("nested function"@),
        Stat::FnDecl(..) => Err("nested function"@),
        Stat::Let(..) => Err("unresolved `let`"@),
        Stat::TypeAlias(..) => Ok((s, IrStat::Skip)),
    }
}

} // verus!
