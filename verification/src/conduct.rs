//! How the machine behaves, said of what a script sees.
use crate::ast::UpvalSrc;
use crate::bytecode::{BinKind, Op, ParamSlot, Reg, MULTI};
use crate::machine;
use crate::machine::{Dest, IterView, Mach, Need, Out, Reply, Req, ONE};
use crate::num;
use crate::table;
use crate::text;
use crate::value;
use crate::value::{KeyVal, Val};
use vstd::prelude::*;

verus! {

// ---- methods and fields ------------------------------------------------------------------

/// What a table holds under a name.
pub open spec fn field(m: Mach, t: usize, name: Seq<char>) -> Val {
    table::t_get(m.tables[t as int], KeyVal::Str(name))
}

/// A field of its own that is not nil is a table's method of that name, whatever
/// the methods of tables are; only where there is none do they count.
pub proof fn lemma_own_method_first(m: Mach, t: usize, name: Seq<char>)
    requires
        t < m.tables.len(),
    ensures
        !(field(m, t, name) is Nil) ==> machine::method(m, Val::Table(t), name) == Ok::<
            Val,
            Seq<char>,
        >(field(m, t, name)),
        forall|lists: Option<usize>|
            !(field(m, t, name) is Nil) ==> machine::method(m, Val::Table(t), name)
                == #[trigger] machine::method(Mach { lists, ..m }, Val::Table(t), name),
        field(m, t, name) is Nil ==> match m.lists {
            Some(l) => l < m.tables.len() && !(field(m, l, name) is Nil) ==> machine::method(
                m,
                Val::Table(t),
                name,
            ) == Ok::<Val, Seq<char>>(field(m, l, name)),
            None => machine::method(m, Val::Table(t), name) is Err,
        },
{
}

/// What a script puts in a field of a table is what a call of the method of that
/// name finds, and what reading the field gives; other tables have what they had.
pub proof fn lemma_a_method_that_was_put_is_found(
    m: Mach,
    t: usize,
    name: Seq<char>,
    v: Val,
    o: usize,
    key: Val,
)
    requires
        t < m.tables.len(),
        table::t_wf(m.tables[t as int]),
        table::t_room(m.tables[t as int]),
        !(v is Nil),
    ensures
        ({
            let (m1, out) = machine::set_index(m, Val::Table(t), Val::Str(name), v);
            &&& out is Run
            &&& machine::method(m1, Val::Table(t), name) == Ok::<Val, Seq<char>>(v)
            &&& machine::index(m1, Val::Table(t), Val::Str(name)) == Ok::<Val, Seq<char>>(v)
            &&& o != t ==> machine::index(m1, Val::Table(o), key) == machine::index(
                m,
                Val::Table(o),
                key,
            )
        }),
{
    table::lemma_set(m.tables[t as int], KeyVal::Str(name), v, KeyVal::Str(name));
}

/// A method of a text or of a number is what the table of its type holds, and
/// where that holds none there is no such method.
pub proof fn lemma_methods_of_texts_and_numbers(m: Mach, name: Seq<char>, s: Seq<char>, b: u64)
    ensures
        match m.strings {
            Some(l) => l < m.tables.len() ==> if field(m, l, name) is Nil {
                machine::method(m, Val::Str(s), name) is Err
            } else {
                machine::method(m, Val::Str(s), name) == Ok::<Val, Seq<char>>(field(m, l, name))
            },
            None => machine::method(m, Val::Str(s), name) is Err,
        },
        match m.maths {
            Some(l) => l < m.tables.len() ==> if field(m, l, name) is Nil {
                machine::method(m, Val::Num(b), name) is Err
            } else {
                machine::method(m, Val::Num(b), name) == Ok::<Val, Seq<char>>(field(m, l, name))
            },
            None => machine::method(m, Val::Num(b), name) is Err,
        },
        machine::method(m, Val::Nil, name) is Err,
{
}

// ---- truth -------------------------------------------------------------------------------

/// A condition fails on `nil` and on `false` and on nothing else, not on zero or an
/// empty text either. A jump that is taken where it fails goes there exactly where
/// the other one goes on, and `not` gives the opposite.
pub proof fn lemma_conditions_decide(m: Mach, r: Reg, to: u32)
    requires
        m.base + r < m.stack.len(),
        0 <= m.base,
    ensures
        ({
            let v = machine::reg(m, r);
            let fails = v == Val::Nil || v == Val::Bool(false);
            let (a, _) = machine::exec_op(m, Op::JumpIfFalse { cond: r, to });
            let (b, _) = machine::exec_op(m, Op::JumpIfTrue { cond: r, to });
            let (c, _) = machine::exec_op(m, Op::Not { dst: r, a: r });
            &&& a.pc == if fails {
                to as int
            } else {
                m.pc + 1
            }
            &&& b.pc == if fails {
                m.pc + 1
            } else {
                to as int
            }
            &&& machine::reg(c, r) == Val::Bool(fails)
            &&& a == machine::go(m, a.pc)
            &&& b == machine::go(m, b.pc)
        }),
{
}

/// A jump on a comparison goes on where the comparison holds and jumps where it does
/// not.
pub proof fn lemma_comparisons_decide(m: Mach, kind: BinKind, a: Reg, b: Reg, to: u32)
    requires
        machine::binary(m, kind, machine::reg(m, a), machine::reg(m, b)) matches Need::Is(
            Val::Bool(_),
        ),
    ensures
        ({
            let holds = machine::binary(m, kind, machine::reg(m, a), machine::reg(m, b))
                == Need::Is(Val::Bool(true));
            machine::exec_op(m, Op::JumpIfNot { kind, a, b, to }) == (
                machine::go(
                    m,
                    if holds {
                        m.pc + 1
                    } else {
                        to as int
                    },
                ),
                Out::Run,
            )
        }),
{
}

// ---- equality and order ------------------------------------------------------------------

/// Is this a number that is not a number?
pub open spec fn odd(v: Val) -> bool {
    v is Num && num::is_nan(v->Num_0)
}

/// Whatever two values are, they can be compared for equality: each equals itself
/// (but for what is no number), one equals the other where the other equals it, values
/// of two kinds differ, texts are equal by their letters, and `!=` is the opposite.
pub proof fn lemma_equality(m: Mach, a: Val, b: Val)
    ensures
        machine::binary(m, BinKind::Eq, a, b) == Need::Is(Val::Bool(value::same_val(a, b))),
        machine::binary(m, BinKind::Ne, a, b) == Need::Is(Val::Bool(!value::same_val(a, b))),
        value::same_val(a, b) == value::same_val(b, a),
        value::same_val(a, a) == !odd(a),
        value::type_number(a) != value::type_number(b) ==> !value::same_val(a, b),
        value::same_val(a, b) && !(a is Num) ==> a == b,
        a is Num && b is Num ==> value::same_val(a, b) == num::equal(a->Num_0, b->Num_0),
{
    if value::same_val(a, b) {
        assert(value::type_number(a) == value::type_number(b));
    }
}

/// Can these two be put in order?
pub open spec fn in_one_row(a: Val, b: Val) -> bool {
    (a is Num && b is Num && !odd(a) && !odd(b)) || (a is Str && b is Str)
}

pub open spec fn holds(m: Mach, kind: BinKind, a: Val, b: Val) -> bool {
    machine::binary(m, kind, a, b) == Need::Is(Val::Bool(true))
}

/// Two numbers, or two texts, are in order: the one is less, or they are equal, or the
/// other is less, and no two of these; `<=` is less or equal, `>` and `>=` are `<` and
/// `<=` the other way round, and each comparison that is turned over is the opposite.
pub proof fn lemma_orders(m: Mach, a: Val, b: Val)
    requires
        in_one_row(a, b),
    ensures
        holds(m, BinKind::Lt, a, b) || holds(m, BinKind::Eq, a, b) || holds(m, BinKind::Lt, b, a),
        !(holds(m, BinKind::Lt, a, b) && holds(m, BinKind::Eq, a, b)),
        !(holds(m, BinKind::Lt, a, b) && holds(m, BinKind::Lt, b, a)),
        holds(m, BinKind::Le, a, b) == (holds(m, BinKind::Lt, a, b) || holds(
            m,
            BinKind::Eq,
            a,
            b,
        )),
        holds(m, BinKind::Gt, a, b) == holds(m, BinKind::Lt, b, a),
        holds(m, BinKind::Ge, a, b) == holds(m, BinKind::Le, b, a),
        holds(m, BinKind::NotLt, a, b) == !holds(m, BinKind::Lt, a, b),
        holds(m, BinKind::NotLe, a, b) == !holds(m, BinKind::Le, a, b),
        holds(m, BinKind::NotGt, a, b) == !holds(m, BinKind::Gt, a, b),
        holds(m, BinKind::NotGe, a, b) == !holds(m, BinKind::Ge, a, b),
{
    match (a, b) {
        (Val::Str(x), Val::Str(y)) => {
            assert(x.take(0) =~= y.take(0));
            text::lemma_before_total(x, y, 0);
            assert(value::same_val(a, b) == (x == y));
        },
        _ => {},
    }
}

/// Of texts, the one whose first other letter is less is less, and so is one that the
/// other goes on from.
pub proof fn lemma_texts_by_their_letters(m: Mach, a: Seq<char>, b: Seq<char>, i: int)
    requires
        0 <= i <= a.len(),
        i < b.len(),
        a.take(i) == b.take(i),
        i < a.len() ==> (a[i] as int) < (b[i] as int),
    ensures
        holds(m, BinKind::Lt, Val::Str(a), Val::Str(b)),
{
    lemma_before_from(a, b, i as nat, 0);
}

proof fn lemma_before_from(a: Seq<char>, b: Seq<char>, i: nat, j: nat)
    requires
        j <= i <= a.len(),
        i < b.len(),
        a.take(i as int) == b.take(i as int),
        i < a.len() ==> (a[i as int] as int) < (b[i as int] as int),
    ensures
        text::before(a, b, j),
    decreases i - j,
{
    if j < i {
        assert(a[j as int] == a.take(i as int)[j as int]);
        assert(b[j as int] == b.take(i as int)[j as int]);
        lemma_before_from(a, b, i, j + 1);
    }
}

/// Numbers that are greater stand higher: what is negated is turned round, and twice
/// negated is what it was.
pub proof fn lemma_negation(x: u64, y: u64)
    ensures
        num::negated(num::negated(x)) == x,
        num::less(x, y) == num::less(num::negated(y), num::negated(x)),
        num::equal(x, y) == num::equal(num::negated(x), num::negated(y)),
{
}

// ---- sums and texts ----------------------------------------------------------------------

pub open spec fn is_sum(kind: BinKind) -> bool {
    kind == BinKind::Add || kind == BinKind::Sub || kind == BinKind::Mul || kind == BinKind::Div
        || kind == BinKind::Rem
}

/// An instruction that adds, or the like, and of what it does so.
pub open spec fn sum_of(m: Mach, op: Op) -> Option<(BinKind, Val, Val, Reg)> {
    match op {
        Op::Bin { kind, dst, a, b } => Some((kind, machine::reg(m, a), machine::reg(m, b), dst)),
        Op::BinK { kind, dst, a, k } => Some((kind, machine::reg(m, a), machine::konst(m, k), dst)),
        Op::Add { dst, a, b } => Some((BinKind::Add, machine::reg(m, a), machine::reg(m, b), dst)),
        Op::Sub { dst, a, b } => Some((BinKind::Sub, machine::reg(m, a), machine::reg(m, b), dst)),
        Op::Mul { dst, a, b } => Some((BinKind::Mul, machine::reg(m, a), machine::reg(m, b), dst)),
        Op::Div { dst, a, b } => Some((BinKind::Div, machine::reg(m, a), machine::reg(m, b), dst)),
        Op::AddK { dst, a, k } => Some(
            (BinKind::Add, machine::reg(m, a), machine::konst(m, k), dst),
        ),
        Op::SubK { dst, a, k } => Some(
            (BinKind::Sub, machine::reg(m, a), machine::konst(m, k), dst),
        ),
        Op::MulK { dst, a, k } => Some(
            (BinKind::Mul, machine::reg(m, a), machine::konst(m, k), dst),
        ),
        _ => None,
    }
}

/// Two numbers are added, or the like, by the operator that is written, the left one
/// on its left; what comes of it is in the register that was named, and nothing else
/// has changed.
pub proof fn lemma_sums(m: Mach, op: Op, x: u64, y: u64, n: u64)
    requires
        sum_of(m, op) is Some,
        is_sum(sum_of(m, op)->Some_0.0),
        sum_of(m, op)->Some_0.1 == Val::Num(x),
        sum_of(m, op)->Some_0.2 == Val::Num(y),
        m.pending is Idle,
        0 <= m.base,
        m.base + sum_of(m, op)->Some_0.3 < m.stack.len(),
    ensures
        ({
            let (kind, _, _, dst) = sum_of(m, op)->Some_0;
            let (m1, out) = machine::exec_op(m, op);
            let (m2, out2) = machine::resume(m1, Reply::Number(n));
            &&& out == Out::Ask(Req::Compute { kind, x, y })
            &&& out2 is Run
            &&& machine::reg(m2, dst) == Val::Num(n)
            &&& m2.pc == m.pc + 1
            &&& m2 == machine::go(Mach { stack: m2.stack, ..m }, m2.pc)
            &&& forall|i: int|
                0 <= i < m.stack.len() && i != m.base + dst ==> m2.stack[i] == #[trigger] m.stack[i]
        }),
{
}

/// A text and a text are put together, the left one first; and so are the parts of a
/// text with values in it, in the order in which they stand.
pub proof fn lemma_texts_join(m: Mach, a: Seq<char>, b: Seq<char>, vals: Seq<Val>, s: Seq<char>)
    requires
        machine::all_text(m, vals) == Need::Is(s),
    ensures
        machine::binary(m, BinKind::Add, Val::Str(a), Val::Str(b)) == Need::Is(Val::Str(a + b)),
        machine::all_text(m, vals.push(Val::Str(b))) == Need::<Seq<char>>::Is(s + b),
        machine::all_text(m, vals.push(Val::Nil)) == Need::<Seq<char>>::Is(s + "nil"@),
        machine::all_text(m, vals.push(Val::Bool(true))) == Need::<Seq<char>>::Is(s + "true"@),
        machine::all_text(m, vals.push(Val::Bool(false))) == Need::<Seq<char>>::Is(s + "false"@),
{
    let e = Seq::<Val>::empty();
    let one = seq![Val::Str(a)];
    let two = seq![Val::Str(a), Val::Str(b)];
    assert(two.drop_last() =~= one);
    assert(one.drop_last() =~= e);
    assert(machine::all_text(m, e) == Need::<Seq<char>>::Is(Seq::empty()));
    assert(machine::all_text(m, one) == Need::<Seq<char>>::Is(Seq::<char>::empty() + a));
    assert(Seq::<char>::empty() + a =~= a);
    assert(machine::all_text(m, two) == Need::<Seq<char>>::Is(a + b));
    assert(vals.push(Val::Str(b)).drop_last() =~= vals);
    assert(vals.push(Val::Nil).drop_last() =~= vals);
    assert(vals.push(Val::Bool(true)).drop_last() =~= vals);
    assert(vals.push(Val::Bool(false)).drop_last() =~= vals);
}

/// A text and a number are put together by the text of the number, on the side on
/// which it stands.
pub proof fn lemma_texts_and_numbers(m: Mach, a: Seq<char>, x: u64, s: Seq<char>)
    requires
        machine::num_text(m, x) == Need::Is(s),
    ensures
        machine::binary(m, BinKind::Add, Val::Str(a), Val::Num(x)) == Need::Is(Val::Str(a + s)),
        machine::binary(m, BinKind::Add, Val::Num(x), Val::Str(a)) == Need::Is(Val::Str(s + a)),
{
    let e = Seq::<Val>::empty();
    let p = seq![Val::Str(a)];
    let q = seq![Val::Num(x)];
    let u = seq![Val::Str(a), Val::Num(x)];
    let w = seq![Val::Num(x), Val::Str(a)];
    assert(u.drop_last() =~= p);
    assert(w.drop_last() =~= q);
    assert(p.drop_last() =~= e);
    assert(q.drop_last() =~= e);
    assert(machine::all_text(m, e) == Need::<Seq<char>>::Is(Seq::empty()));
    assert(machine::all_text(m, p) == Need::<Seq<char>>::Is(Seq::<char>::empty() + a));
    assert(machine::all_text(m, q) == Need::<Seq<char>>::Is(Seq::<char>::empty() + s));
    assert(Seq::<char>::empty() + a =~= a);
    assert(Seq::<char>::empty() + s =~= s);
}

// ---- tables ------------------------------------------------------------------------------

/// What is put in a table under a key is what is read under it, whatever the key is;
/// under every other key, and in every other table, there is what there was.
pub proof fn lemma_what_is_put_is_read(m: Mach, t: usize, k: Val, v: Val, o: usize, other: Val)
    requires
        t < m.tables.len(),
        table::t_wf(m.tables[t as int]),
        table::t_room(m.tables[t as int]),
        value::key_of(k) is Some,
        value::key_of(other) is Some,
    ensures
        ({
            let (m1, out) = machine::set_index(m, Val::Table(t), k, v);
            &&& out is Run
            &&& m1.pc == m.pc + 1
            &&& m1 == machine::go(Mach { tables: m1.tables, ..m }, m1.pc)
            &&& machine::index(m1, Val::Table(t), k) == Ok::<Val, Seq<char>>(v)
            &&& o != t || !table::same_place(
                value::key_of(k)->Some_0,
                value::key_of(other)->Some_0,
            ) ==> machine::index(m1, Val::Table(o), other) == machine::index(
                m,
                Val::Table(o),
                other,
            )
        }),
{
    table::lemma_set(
        m.tables[t as int],
        value::key_of(k)->Some_0,
        v,
        value::key_of(other)->Some_0,
    );
}

/// A key that is nil is refused, to read and to write, and so is anything that has no
/// keys.
pub proof fn lemma_no_such_place(m: Mach, t: usize, k: Val, v: Val, o: Val)
    requires
        !(o is Table),
    ensures
        machine::index(m, Val::Table(t), Val::Nil) is Err,
        t < m.tables.len() ==> machine::set_index(m, Val::Table(t), Val::Nil, v).1 is Fail,
        machine::set_index(m, o, k, v).1 is Fail,
        !(o is Str) && !(o is Num) ==> machine::index(m, o, k) is Err,
{
}

/// A table that was just made is empty, and no other is touched.
pub proof fn lemma_new_table(m: Mach, dst: Reg, k: Val)
    requires
        0 <= m.base,
        m.base + dst < m.stack.len(),
        m.tables.len() < usize::MAX,
        value::key_of(k) is Some,
    ensures
        ({
            let (m1, _) = machine::exec_op(m, Op::NewTable { dst });
            &&& machine::index(m1, machine::reg(m1, dst), k) == Ok::<Val, Seq<char>>(Val::Nil)
            &&& forall|t: usize| #![trigger m.tables[t as int]]
                t < m.tables.len() ==> m1.tables[t as int] == m.tables[t as int]
                    && machine::reg(m1, dst) != Val::Table(t)
        }),
{
    let empty = machine::exec_op(m, Op::NewTable { dst }).0.tables[m.tables.len() as int];
    assert(table::find_key(empty.pairs, value::key_of(k)->Some_0, 0) == 0);
}

// ---- calls -------------------------------------------------------------------------------

/// The parameters of a function stand in registers of their own.
pub open spec fn apart(params: Seq<ParamSlot>) -> bool {
    forall|i: int, j: int|
        0 <= i < j < params.len() ==> (#[trigger] params[i]).reg != (#[trigger] params[j]).reg
}

/// What a local holds, in a cell or not.
pub open spec fn held(stack: Seq<Val>, cells: Seq<Val>, base: int, p: ParamSlot) -> Val {
    if p.cell {
        match stack[base + p.reg] {
            Val::Cell(c) => cells[c as int],
            _ => Val::Nil,
        }
    } else {
        stack[base + p.reg]
    }
}

proof fn lemma_bound(
    stack: Seq<Val>,
    cells: Seq<Val>,
    base: int,
    params: Seq<ParamSlot>,
    args: Seq<Val>,
    i: nat,
    j: int,
)
    requires
        apart(params),
        0 <= base,
        0 <= j < params.len(),
        i <= params.len(),
        forall|k: int|
            0 <= k < params.len() ==> base + (#[trigger] params[k]).reg < stack.len(),
        cells.len() + (params.len() - i) < usize::MAX,
        j < i ==> held(stack, cells, base, params[j]) == machine::nth(args, j),
        j < i && params[j].cell ==> (stack[base + params[j].reg] matches Val::Cell(c) && c
            < cells.len()),
    ensures
        ({
            let (s1, c1) = machine::bound(stack, cells, base, params, args, i);
            &&& held(s1, c1, base, params[j]) == machine::nth(args, j)
            &&& s1.len() == stack.len()
        }),
    decreases params.len() - i,
{
    if i < params.len() {
        let v = machine::nth(args, i as int);
        let at = base + params[i as int].reg;
        if params[i as int].cell {
            let s2 = stack.update(at, Val::Cell(cells.len() as usize));
            let c2 = cells.push(v);
            if j < i {
                assert(params[j].reg != params[i as int].reg);
            }
            lemma_bound(s2, c2, base, params, args, i + 1, j);
        } else {
            if j < i {
                assert(params[j].reg != params[i as int].reg);
            }
            lemma_bound(stack.update(at, v), cells, base, params, args, i + 1, j);
        }
    }
}

/// A function that is called finds each argument in the parameter of its place, and
/// nil where there is none; one argument more than it has parameters is nothing to it.
pub proof fn lemma_arguments_in_place(m: Mach, f: usize, args: Seq<Val>, dest: Dest, j: int)
    requires
        0 <= m.top,
        apart(machine::proto_at(m, f).params),
        0 <= j < machine::proto_at(m, f).params.len(),
        forall|k: int|
            0 <= k < machine::proto_at(m, f).params.len() ==> (#[trigger] machine::proto_at(
                m,
                f,
            ).params[k]).reg < machine::proto_at(m, f).n_regs,
        m.cells.len() + machine::proto_at(m, f).params.len() < usize::MAX,
    ensures
        ({
            let p = machine::proto_at(m, f).params;
            let m1 = machine::enter(m, f, args, dest, true);
            held(m1.stack, m1.cells, m1.base, p[j]) == if j < args.len() {
                args[j]
            } else {
                Val::Nil
            }
        }),
{
    let p = machine::proto_at(m, f);
    let end = m.top + p.n_regs;
    lemma_bound(machine::grown(m.stack, end), m.cells, m.top, p.params, args, 0, j);
}

/// What a function returns is in the registers its caller named, in order, and nil in
/// those that are left over; the caller's other registers are as they were.
pub proof fn lemma_results_in_place(m: Mach, from: Reg, n: u16, j: int, i: int)
    requires
        m.frames.len() > 0,
        n != MULTI,
        0 <= m.base,
        m.base + from + n <= m.stack.len(),
        m.frames.last().dest is Regs,
        0 < m.frames.last().dest->Regs_nres,
        m.frames.last().dest->Regs_nres != MULTI,
        m.frames.last().base + m.frames.last().dest->Regs_dst
            + m.frames.last().dest->Regs_nres <= m.frames.last().top,
        m.frames.last().top <= m.top <= m.stack.len(),
        0 <= j < m.frames.last().dest->Regs_nres,
        0 <= i < m.frames.last().top,
        !(m.frames.last().base + m.frames.last().dest->Regs_dst <= i < m.frames.last().base
            + m.frames.last().dest->Regs_dst + m.frames.last().dest->Regs_nres),
    ensures
        ({
            let f = m.frames.last();
            let (m1, out) = machine::exec_op(m, Op::Ret { base: from, n });
            &&& out is Run
            &&& m1.stack[f.base + f.dest->Regs_dst + j] == if j < n {
                m.stack[m.base + from + j]
            } else {
                Val::Nil
            }
            &&& m1.stack[i] == m.stack[i]
            &&& m1.base == f.base
            &&& m1.func == f.func
            &&& m1.pc == f.pc + 1
        }),
{
}

/// What fails, fails with the line it is on and the calls it is in.
pub proof fn lemma_failures_say_where(m: Mach, message: Seq<char>)
    ensures
        machine::bad(m, message).1 matches Out::Fail(e) && e.message == message && e.line
            == machine::cur(m).lines[m.pc] && e.trace == m.trace && e.located,
{
}

/// Only what can be called is called.
pub proof fn lemma_only_functions_are_called(m: Mach, v: Val, args: Seq<Val>, dest: Dest)
    requires
        !(v is Func) && !(v is Native) && !(v is Iter),
    ensures
        machine::call(m, v, args, dest, false).1 is Fail,
{
}

/// Calls within calls come to an end: at the limit a call fails, and one below it
/// counts.
pub proof fn lemma_calls_are_counted(m: Mach, f: usize, args: Seq<Val>, dest: Dest)
    requires
        f < m.funcs.len(),
    ensures
        m.depth >= machine::MAX_DEPTH ==> machine::call(m, Val::Func(f), args, dest, false).1 is Fail,
        machine::call(m, Val::Func(f), args, dest, false).1 is Run ==> machine::call(
            m,
            Val::Func(f),
            args,
            dest,
            false,
        ).0.depth == m.depth + 1,
{
}

// ---- captured variables --------------------------------------------------------------------

proof fn lemma_captured(
    m: Mach,
    srcs: Seq<UpvalSrc>,
    i: nat,
    cells: Seq<Val>,
    found: Seq<usize>,
    j: int,
    c: usize,
)
    requires
        i <= srcs.len(),
        found.len() == i,
        0 <= j < srcs.len(),
        j < i ==> found[j] == c,
        match srcs[j] {
            UpvalSrc::ParentLocal(slot) => machine::reg(m, slot) == Val::Cell(c) && c < m.cells.len(),
            UpvalSrc::ParentUpval(u) => m.funcs[m.func as int].upvals[u as int] == c,
        },
    ensures
        ({
            let (c1, f1) = machine::captured(m, srcs, i, cells, found);
            &&& f1.len() == srcs.len()
            &&& f1[j] == c
            &&& c1.len() >= cells.len()
            &&& forall|k: int| 0 <= k < cells.len() ==> c1[k] == #[trigger] cells[k]
        }),
    decreases srcs.len() - i,
{
    if i < srcs.len() {
        match srcs[i as int] {
            UpvalSrc::ParentLocal(slot) => match machine::reg(m, slot) {
                Val::Cell(d) if d < m.cells.len() => {
                    lemma_captured(m, srcs, i + 1, cells, found.push(d), j, c);
                },
                other => {
                    let c2 = cells.push(other);
                    lemma_captured(m, srcs, i + 1, c2, found.push(cells.len() as usize), j, c);
                    let (c1, f1) = machine::captured(
                        m,
                        srcs,
                        i + 1,
                        c2,
                        found.push(cells.len() as usize),
                    );
                    assert forall|k: int| 0 <= k < cells.len() implies c1[k]
                        == #[trigger] cells[k] by {
                        assert(c1[k] == c2[k]);
                    }
                },
            },
            UpvalSrc::ParentUpval(u) => {
                lemma_captured(
                    m,
                    srcs,
                    i + 1,
                    cells,
                    found.push(m.funcs[m.func as int].upvals[u as int]),
                    j,
                    c,
                );
            },
        }
    }
}

/// A function that captures a variable shares it with the one it was made in: both
/// have the one cell, so that what either sets is what the other reads.
pub proof fn lemma_captured_is_shared(m: Mach, dst: Reg, proto: u16, j: int, c: usize)
    requires
        0 <= m.base,
        m.base + dst < m.stack.len(),
        m.funcs.len() < usize::MAX,
        0 <= j < machine::cur(m).protos[proto as int].upvals.len(),
        match machine::cur(m).protos[proto as int].upvals[j] {
            UpvalSrc::ParentLocal(slot) => machine::reg(m, slot) == Val::Cell(c) && c < m.cells.len(),
            UpvalSrc::ParentUpval(u) => m.funcs[m.func as int].upvals[u as int] == c,
        },
    ensures
        ({
            let (m1, _) = machine::exec_op(m, Op::Closure { dst, proto });
            &&& machine::reg(m1, dst) == Val::Func(m.funcs.len() as usize)
            &&& m1.funcs[m.funcs.len() as int].upvals[j] == c
            &&& m1.funcs[m.funcs.len() as int].proto == machine::cur(m).protos[proto as int]
            &&& forall|k: int| 0 <= k < m.cells.len() ==> m1.cells[k] == #[trigger] m.cells[k]
        }),
{
    let p = machine::cur(m).protos[proto as int];
    lemma_captured(m, p.upvals, 0, m.cells, Seq::empty(), j, c);
}

/// What is set in a captured variable is what is read from it, by the function it
/// belongs to and by the one that captured it, and no other variable changes.
pub proof fn lemma_set_is_read(m: Mach, slot: Reg, idx: u16, src: Reg, dst: Reg, c: usize)
    requires
        0 <= m.base,
        m.base + slot < m.stack.len(),
        m.base + src < m.stack.len(),
        m.base + dst < m.stack.len(),
        machine::reg(m, slot) == Val::Cell(c),
        machine::upval_cell(m, idx) == c,
        c < m.cells.len(),
    ensures
        ({
            let v = machine::reg(m, src);
            let (by_slot, _) = machine::exec_op(m, Op::SetCell { slot, src });
            let (by_idx, _) = machine::exec_op(m, Op::SetUpval { idx, src });
            &&& machine::reg(machine::exec_op(by_slot, Op::GetUpval { dst, idx }).0, dst) == v
            &&& machine::reg(machine::exec_op(by_idx, Op::GetCell { dst, slot }).0, dst) == v
            &&& machine::reg(machine::exec_op(by_slot, Op::GetCell { dst, slot }).0, dst) == v
            &&& machine::reg(machine::exec_op(by_idx, Op::GetUpval { dst, idx }).0, dst) == v
            &&& forall|k: int|
                0 <= k < m.cells.len() && k != c ==> by_slot.cells[k] == #[trigger] m.cells[k]
                    && by_idx.cells[k] == m.cells[k]
        }),
{
}

// ---- ranges and tables gone through --------------------------------------------------------

/// A range gives a number that is less than its end, and its end too where it is
/// inclusive; beyond that it gives nothing.
pub proof fn lemma_range_values(at: u64, end: u64, inclusive: bool)
    requires
        !num::is_nan(at),
        !num::is_nan(end),
    ensures
        num::less(at, end) ==> machine::range_value(at, end, inclusive) == Val::Num(at),
        num::less(end, at) ==> machine::range_value(at, end, inclusive) is Nil,
        num::equal(at, end) ==> machine::range_value(at, end, inclusive) == if inclusive {
            Val::Num(at)
        } else {
            Val::Nil
        },
{
}

/// A range starts where it says, and goes on by one from where it stands.
pub proof fn lemma_range_turns(m: Mach, dst: Reg, x: u64, y: u64, inclusive: bool, n: u64)
    requires
        0 <= m.base,
        m.base + dst < m.stack.len(),
        m.iters.len() < usize::MAX,
        m.pending is Idle,
    ensures
        ({
            let (m1, _) = machine::range(m, dst, Val::Num(x), Val::Num(y), inclusive);
            let i = m.iters.len() as usize;
            let (m2, first) = machine::turn(m1, i, Dest::Host);
            let (m3, ask) = machine::turn(m2, i, Dest::Host);
            let (m4, then_) = machine::resume(m3, Reply::Number(n));
            &&& machine::reg(m1, dst) == Val::Iter(i)
            &&& first == Out::Done(seq![machine::range_value(x, y, inclusive)])
            &&& ask == Out::Ask(Req::Compute { kind: BinKind::Add, x, y: ONE })
            &&& then_ == Out::Done(seq![machine::range_value(n, y, inclusive)])
            &&& m4.iters[i as int] == IterView::Range {
                at: n,
                fresh: false,
                end: y,
                inclusive,
            }
        }),
{
}

/// A table is gone through by its keys, in order: each turn gives what the table then
/// holds under the next of them, and after the last one there is no more.
pub proof fn lemma_table_turns(m: Mach, i: usize, t: usize, keys: Seq<KeyVal>, seen: int)
    requires
        i < m.iters.len(),
        t < m.tables.len(),
        0 <= seen <= keys.len(),
        m.iters[i as int] == (IterView::Values { table: t, keys, seen }),
    ensures
        ({
            let (m1, out) = machine::turn(m, i, Dest::Host);
            if seen < keys.len() {
                &&& out == Out::Done(seq![table::t_get(m.tables[t as int], keys[seen])])
                &&& m1.iters[i as int] == IterView::Values { table: t, keys, seen: seen + 1 }
            } else {
                out == Out::Done(seq![Val::Nil])
            }
        }),
{
}

/// The keys a table is gone through by: its array first, from zero up, and then its
/// other keys, as they came; under each is what the table holds there.
pub proof fn lemma_keys_in_order(m: Mach, dst: Reg, t: usize, i: int)
    requires
        0 <= m.base,
        m.base + dst < m.stack.len(),
        t < m.tables.len(),
        m.iters.len() < usize::MAX,
        0 <= i < m.tables[t as int].arr.len() + m.tables[t as int].pairs.len(),
    ensures
        ({
            let x = m.tables[t as int];
            let m1 = machine::iter_init(m, dst, Val::Table(t));
            match m1.iters[m.iters.len() as int] {
                IterView::Values { table, keys, seen } => {
                    &&& table == t
                    &&& seen == 0
                    &&& keys.len() == x.arr.len() + x.pairs.len()
                    &&& keys[i] == if i < x.arr.len() {
                        table::index_key(i as nat)
                    } else {
                        x.pairs[i - x.arr.len()].0
                    }
                },
                _ => false,
            }
        }),
{
}

/// Types are told apart by their names.
pub proof fn lemma_types_have_names(a: Val, b: Val)
    ensures
        (value::type_text(a) == value::type_text(b)) == (value::type_number(a)
            == value::type_number(b)),
        value::type_text(Val::Nil) == "nil"@,
        a is Bool ==> value::type_text(a) == "boolean"@,
        a is Num ==> value::type_text(a) == "number"@,
        a is Str ==> value::type_text(a) == "string"@,
        a is Table ==> value::type_text(a) == "table"@,
        a is Func || a is Native || a is Iter ==> value::type_text(a) == "function"@,
{
    reveal_strlit("nil");
    reveal_strlit("boolean");
    reveal_strlit("number");
    reveal_strlit("string");
    reveal_strlit("table");
    reveal_strlit("function");
    reveal_strlit("cdata");
    reveal_strlit("cell");
    let x = value::type_text(a);
    let y = value::type_text(b);
    if value::type_number(a) != value::type_number(b) {
        assert(x.len() != y.len() || x[0] != y[0]);
    }
}

// ---- what is called, and with what ----------------------------------------------------------

/// A builtin is handed what stands in the registers after it, in order.
pub proof fn lemma_builtins_get_their_arguments(m: Mach, base: Reg, nargs: u16, nres: u16, dst: Reg, id: usize)
    requires
        0 <= m.base,
        m.base + base + 1 + nargs <= m.stack.len(),
        machine::reg(m, base) == Val::Native(id),
        0 <= m.depth,
    ensures
        machine::exec_op(m, Op::Call { base, nargs, nres, dst }).1 matches Out::Ask(Req::Native {
            id: called,
            args,
        }) && called == id && args.len() == nargs && forall|j: int|
            0 <= j < nargs ==> #[trigger] args[j] == m.stack[m.base + base + 1 + j],
{
}

/// A method is handed what it is called on before everything else.
pub proof fn lemma_methods_get_their_receiver(
    m: Mach,
    base: Reg,
    name: Seq<char>,
    nargs: u16,
    dest: Dest,
    id: usize,
)
    requires
        0 <= m.base,
        m.base + base + 2 + nargs <= m.stack.len(),
        machine::method(m, m.stack[m.base + base + 1], name) == Ok::<Val, Seq<char>>(
            Val::Native(id),
        ),
        0 <= m.depth,
    ensures
        machine::method_op(m, base, name, nargs, dest).1 matches Out::Ask(Req::Native {
            id: called,
            args,
        }) && called == id && args.len() == nargs + 1 && args[0] == m.stack[m.base + base + 1]
            && forall|j: int|
            0 <= j < nargs ==> #[trigger] args[j + 1] == m.stack[m.base + base + 2 + j],
{
}

/// Where the last argument is a call, all that it gave is handed on, after what stands
/// before it.
pub proof fn lemma_calls_spread(m: Mach, base: Reg, nargs: u16, nres: u16, id: usize)
    requires
        0 <= m.base,
        m.base + base + 1 + nargs <= m.stack.len(),
        0 <= m.depth < machine::MAX_DEPTH,
    ensures
        machine::spread_call(m, Val::Native(id), base, nargs, nres).1 matches Out::Ask(Req::Native {
            id: called,
            args,
        }) && called == id && args.len() == nargs + m.multi.len() && (forall|j: int|
            0 <= j < nargs ==> #[trigger] args[j] == m.stack[m.base + base + 1 + j]) && (forall|
            j: int,
        |
            0 <= j < m.multi.len() ==> args[nargs + j] == #[trigger] m.multi[j]),
{
}

/// Several values that are wanted all at once are all kept, and the first of them is
/// where one would be.
pub proof fn lemma_all_values_are_kept(m: Mach, base: Reg, dst: Reg, vals: Seq<Val>)
    requires
        0 <= m.base,
        m.base + base < m.stack.len(),
    ensures
        ({
            let (m1, out) = machine::deliver(m, Dest::Regs { base, nres: MULTI, dst }, vals);
            &&& out is Run
            &&& m1.multi == vals
            &&& machine::reg(m1, base) == if vals.len() > 0 {
                vals[0]
            } else {
                Val::Nil
            }
        }),
{
}

/// A loop over what a function gives ends where it gives nil first, and otherwise each
/// of its names has the value of its place.
pub proof fn lemma_loops_end_at_nil(m: Mach, base: Reg, count: u16, exit: u32, vals: Seq<Val>, j: int)
    requires
        0 <= m.base,
        m.base + base + count <= m.stack.len(),
        0 <= j < count,
    ensures
        ({
            let (m1, out) = machine::deliver(m, Dest::Iter { base, count, exit }, vals);
            if vals.len() == 0 || vals[0] is Nil {
                m1.pc == exit
            } else {
                &&& m1.pc == m.pc + 1
                &&& m1.stack[m.base + base + j] == if j < vals.len() {
                    vals[j]
                } else {
                    Val::Nil
                }
            }
        }),
{
}

} // verus!
