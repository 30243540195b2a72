//! Whole functions and whole loops, lowered: what is fetched and checked on
//! the way in, what the body does, and what it assumes of the globals.
use super::agree;
use super::calls;
use super::dead;
use super::exits;
use super::flags;
use super::infer;
use super::infer::Kinds;
use super::ir::{Bound, Ir, IrBlock, IrStat};
use super::kinds::{Callable, Kind};
use super::lengths;
use super::lower;
use super::lower::{Scene, State};
use super::lowering;
use super::lowering::{Env, Low};
use super::slots;
use super::usage;
use super::usage::TableUse;
use super::walk;
use super::writes;
use crate::ast::{Binding, Block, Expr, FuncDef, Stat};
use crate::text;
use vstd::prelude::*;

verus! {

/// How a function can refer to itself, and the compiled globals it can call,
/// as they stand just before it is compiled.
pub struct SelfRef {
    /// The upvalue that holds this function, for a local one.
    pub upval: Option<u16>,
    /// The global that holds this function, for a top level one.
    pub global: Option<String>,
    pub compiled_globals: Vec<Callable>,
}

/// What is fetched into a slot on the way in.
#[derive(Clone, Copy, Debug, PartialEq, Eq, Structural)]
pub enum Load {
    Num(u16),
    /// A table that is appended to: the runtime is told.
    Append(u16),
    /// A table that is read, and written through its view if `mutable`.
    Table { slot: u16, mutable: bool },
    /// An array of arrays: its length, and every element's view if `spans`.
    Tables { slot: u16, spans: bool, mutable: bool },
}

/// A length compared with a bound on the way in.
#[derive(Clone, Copy, Debug, PartialEq, Eq, Structural)]
pub enum Check {
    /// Of the view in this slot.
    Len(u16, Bound),
    /// Of the list of views in this slot.
    Spans(u16, Bound),
    /// Of every element of this array of arrays.
    Elements(u16, Bound),
}

/// The code of one function.
#[verifier::ext_equal]
pub struct CodeView {
    pub loads: Seq<Load>,
    pub checks: Seq<Check>,
    /// Does it call anything, and so have to count how deep it is?
    pub calls: bool,
    pub body: IrBlock,
    /// It has no value: what it hands back means nothing.
    pub returns_nil: bool,
}

/// A function, lowered, and what it assumes.
#[verifier::ext_equal]
pub struct UnitView {
    pub code: CodeView,
    /// Globals whose current value is called directly.
    pub inlined: Seq<Seq<char>>,
    /// Small callees compiled beside it, by the function they come from.
    pub beside: Seq<(usize, CodeView)>,
    /// What each parameter has to be.
    pub param_kinds: Seq<Kind>,
    /// Its value is a table it made.
    pub returns_table: bool,
}

/// What a loop does, entered at its back edge.
pub enum LoopBody {
    /// A counted loop whose variable already holds its current value.
    Count { slot: u16, end: Ir, inclusive: bool, label: u32, body: IrBlock },
    Whole(IrStat),
}

/// A loop, lowered over the slots it touches.
#[verifier::ext_equal]
pub struct LoopView {
    pub slots: Seq<u16>,
    /// What each slot has to hold.
    pub kinds: Seq<Kind>,
    pub loads: Seq<Load>,
    pub checks: Seq<Check>,
    pub body: LoopBody,
    /// The slots that travel back.
    pub stores: Seq<u16>,
    pub inlined: Seq<Seq<char>>,
    pub beside: Seq<(usize, CodeView)>,
}

// ---- the parts ---------------------------------------------------------------------------

/// Tables written through a view: those written, but for the ones appended to.
pub open spec fn written_views(uses: Seq<TableUse>, ks: Seq<(u16, Kind)>) -> Seq<u16>
    decreases uses.len(),
{
    if uses.len() == 0 {
        Seq::empty()
    } else {
        let r = written_views(uses.drop_last(), ks);
        match uses.last() {
            TableUse::Written(slot) => match infer::kind_at(ks, slot) {
                Some(Kind::TableOut) => r,
                Some(Kind::New) => r,
                _ => r.push(slot),
            },
            _ => r,
        }
    }
}

/// Arrays of arrays one of whose elements is written.
pub open spec fn written_outers(inner: Seq<(u16, u16)>, uses: Seq<TableUse>) -> Seq<u16>
    decreases inner.len(),
{
    if inner.len() == 0 {
        Seq::empty()
    } else {
        let r = written_outers(inner.drop_last(), uses);
        if uses.contains(TableUse::Written(inner.last().0)) {
            r.push(inner.last().1)
        } else {
            r
        }
    }
}

pub open spec fn mutable_views(
    uses: Seq<TableUse>,
    inner: Seq<(u16, u16)>,
    ks: Seq<(u16, Kind)>,
) -> Seq<u16> {
    written_views(uses, ks) + written_outers(inner, uses)
}

/// Those of some slots that are not written.
pub open spec fn unwritten(s: Seq<u16>, ws: Seq<u16>) -> Seq<u16>
    decreases s.len(),
{
    if s.len() == 0 {
        Seq::empty()
    } else if ws.contains(s.last()) {
        unwritten(s.drop_last(), ws)
    } else {
        unwritten(s.drop_last(), ws).push(s.last())
    }
}

pub open spec fn marked(s: Seq<u16>) -> Seq<(u16, bool)> {
    Seq::new(s.len(), |i: int| (s[i], true))
}

/// Nothing learnt yet.
pub open spec fn start(known: Seq<u16>, flag_slots: Seq<u16>, ret_slot: Option<u16>) -> Low {
    Low {
        known,
        flags: marked(flag_slots),
        spans: Seq::empty(),
        beside: Seq::empty(),
        inlined: Seq::empty(),
        calls: false,
        in_range: Seq::empty(),
        bounded: Seq::empty(),
        hoisted: Seq::empty(),
        labels: Seq::empty(),
        n_labels: 0,
        ret_slot,
    }
}

pub open spec fn load_of(slot: u16, k: Kind, mutable: Seq<u16>, spans: Seq<u16>) -> Load {
    match k {
        Kind::TableOut => Load::Append(slot),
        Kind::Table => Load::Table { slot, mutable: mutable.contains(slot) },
        Kind::Tables { checked, min } => Load::Tables {
            slot,
            spans: spans.contains(slot),
            mutable: mutable.contains(slot),
        },
        _ => Load::Num(slot),
    }
}

pub open spec fn loads_of(
    s: Seq<u16>,
    ks: Seq<Kind>,
    mutable: Seq<u16>,
    spans: Seq<u16>,
) -> Seq<Load> {
    Seq::new(s.len(), |i: int| load_of(s[i], ks[i], mutable, spans))
}

/// The length a table is compared by.
pub open spec fn length_check(env: Env, spans: Seq<u16>, slot: u16, bound: Bound) -> Check {
    match infer::kind_at(env.kinds, slot) {
        Some(Kind::Tables { checked, min }) => if spans.contains(slot) {
            Check::Spans(slot, bound)
        } else {
            Check::Len(slot, bound)
        },
        _ => Check::Len(slot, bound),
    }
}

/// An element bound in the body has no length on the way in, so the demand is
/// made of every element at once.
pub open spec fn entry_check(env: Env, spans: Seq<u16>, slot: u16, bound: Bound) -> Check {
    match infer::outer_at(env.inner_of, slot) {
        Some(outer) => Check::Elements(outer, bound),
        None => length_check(env, spans, slot, bound),
    }
}

/// Is a table held in a slot that is neither a parameter nor an element?
pub open spec fn holds_table(
    ks: Seq<(u16, Kind)>,
    inner: Seq<(u16, u16)>,
    params: Seq<Binding>,
) -> bool {
    exists|i: int|
        0 <= i < ks.len() && ((#[trigger] ks[i]).1 is Table || ks[i].1 is Tables)
            && infer::outer_at(inner, ks[i].0) is None && !walk::slots_of(params).contains(ks[i].0)
}

pub open spec fn kinds_at(ks: Seq<(u16, Kind)>, s: Seq<u16>) -> Seq<Kind> {
    Seq::new(
        s.len(),
        |i: int|
            match infer::kind_at(ks, s[i]) {
                Some(k) => k,
                None => Kind::Num,
            },
    )
}

/// The local a body ends in: its tail, or the one value of its last return.
pub open spec fn last_local(b: Block) -> Option<u16> {
    match b.tail {
        Some(e) => match *e {
            Expr::Local(lb, _) => Some(lb.slot),
            _ => None,
        },
        None => if lengths::ends_in_return(b) {
            match b.stats@[b.stats@.len() - 1] {
                Stat::Return(es) => match es@[0] {
                    Expr::Local(lb, _) => Some(lb.slot),
                    _ => None,
                },
                _ => None,
            }
        } else {
            None
        },
    }
}

/// The slot of the table a function hands back, if every exit agrees on it.
pub open spec fn result_slot(b: Block, ks: Seq<(u16, Kind)>) -> Option<u16> {
    match last_local(b) {
        Some(slot) => if infer::kind_at(ks, slot) == Some(Kind::New)
            && !agree::agree_of_block(slot, b).contains(false) {
            Some(slot)
        } else {
            None
        },
        None => None,
    }
}

// ---- a function --------------------------------------------------------------------------

pub open spec fn function_env(
    def: FuncDef,
    upval: Option<u16>,
    global: Option<Seq<char>>,
    cs: Seq<Callable>,
) -> Env {
    let (ks, inner, _) = infer::inferred(def.body, cs);
    let uses = usage::uses_of_block(def.body);
    let kinds = infer::relaxed(ks);
    let params = walk::slots_of(def.param_bindings@);
    Env {
        kinds,
        inner_of: inner,
        len_of: lengths::lengths(def.body, def.body.stats@.len()),
        mutable: mutable_views(uses, inner, ks),
        stable: unwritten(params, writes::writes_of_block(def.body)),
        self_upval: upval,
        self_global: global,
        callables: cs,
        arity: Some(def.params.len()),
        params: kinds_at(kinds, params),
        returns_table: result_slot(def.body, kinds) is Some,
    }
}

pub open spec fn function_start(def: FuncDef, env: Env) -> Low {
    let params = walk::slots_of(def.param_bindings@);
    let fs = flags::flags_of_block(def.body);
    start(
        params,
        flags::flag_slots(fs, params, fs.len()),
        result_slot(def.body, env.kinds),
    )
}

/// Why a function is left alone before its body is looked at.
pub open spec fn refused(def: FuncDef, cs: Seq<Callable>) -> Option<Seq<char>> {
    let (ks, inner, bad) = infer::inferred(def.body, cs);
    let kinds = infer::relaxed(ks);
    if lengths::captures_param(def.param_bindings@) {
        Some("a parameter is captured by a closure"@)
    } else if bad is Some {
        bad
    } else if holds_table(kinds, inner, def.param_bindings@) {
        Some("a table is held in a local, not a parameter"@)
    } else if kinds_at(kinds, walk::slots_of(def.param_bindings@)).contains(Kind::New) {
        Some("a parameter shares a slot with a table made here"@)
    } else {
        None
    }
}

/// The code of a function, with what was learnt on the way.
pub open spec fn function_code(
    def: FuncDef,
    upval: Option<u16>,
    global: Option<Seq<char>>,
    cs: Seq<Callable>,
    returns_nil: bool,
) -> Result<(Low, CodeView), Seq<char>> {
    let env = function_env(def, upval, global, cs);
    match refused(def, cs) {
        Some(e) => Err(e),
        None => match lowering::l_block(env, function_start(def, env), def.body, !returns_nil) {
            Ok((s, body)) => Ok(
                (
                    s,
                    CodeView {
                        loads: loads_of(
                            walk::slots_of(def.param_bindings@),
                            env.params,
                            env.mutable,
                            s.spans,
                        ),
                        checks: Seq::new(
                            s.hoisted.len(),
                            |i: int|
                                entry_check(env, s.spans, s.hoisted[i].0, s.hoisted[i].1),
                        ),
                        calls: s.calls,
                        body,
                        returns_nil,
                    },
                ),
            ),
            Err(e) => Err(e),
        },
    }
}

/// Does a function have no value: no tail, and no return of one at the end?
pub open spec fn valueless(b: Block) -> bool {
    b.tail is None && !lengths::ends_in_return(b)
}

/// The syntax a compiled global came from.
pub open spec fn definition(cs: Seq<Callable>, at: usize) -> Option<std::rc::Rc<FuncDef>> {
    if at < cs.len() {
        cs[at as int].def
    } else {
        None
    }
}

/// The callees compiled beside some code, the first refusal counting.
pub open spec fn besides(cs: Seq<Callable>, at: Seq<usize>) -> Result<
    Seq<(usize, CodeView)>,
    Seq<char>,
>
    decreases at.len(),
{
    if at.len() == 0 {
        Ok(Seq::empty())
    } else {
        match besides(cs, at.drop_last()) {
            Ok(r) => match definition(cs, at.last()) {
                Some(d) => match function_code(
                    *d,
                    None,
                    None,
                    Seq::empty(),
                    valueless(d.body),
                ) {
                    Ok((_, code)) => Ok(r.push((d.id, code))),
                    Err(e) => Err(e),
                },
                None => Ok(r),
            },
            Err(e) => Err(e),
        }
    }
}

/// A whole function. It produces one number on every path, or nothing on any.
pub open spec fn unit_of(
    def: FuncDef,
    upval: Option<u16>,
    global: Option<Seq<char>>,
    cs: Seq<Callable>,
) -> Result<UnitView, Seq<char>> {
    if def.params@.len() > 16 {
        Err("more than 16 parameters"@)
    } else if valueless(def.body) && exits::exits_of_block(def.body).contains(true) {
        Err("some paths return a value and some do not"@)
    } else {
        let env = function_env(def, upval, global, cs);
        match function_code(def, upval, global, cs, valueless(def.body)) {
            Ok((s, code)) => match besides(cs, s.beside) {
                Ok(beside) => Ok(
                    UnitView {
                        code,
                        inlined: s.inlined,
                        beside,
                        param_kinds: env.params,
                        returns_table: env.returns_table,
                    },
                ),
                Err(e) => Err(e),
            },
            Err(e) => Err(e),
        }
    }
}

// ---- a loop ------------------------------------------------------------------------------

/// The loop's own variable is live at its back edge, however the body reads it.
pub open spec fn own_counter(st: Stat) -> Option<u16> {
    match st {
        Stat::ForRange { id, var, binding, start, end, inclusive, body } => match binding {
            Some(b) => Some(b.slot),
            None => None,
        },
        _ => None,
    }
}

/// What a slot of a loop has to hold: one bound before it is read, or one that
/// only ever holds a flag, is not the plain number it looks like.
pub open spec fn loop_kind(st: Stat, ks: Seq<(u16, Kind)>, bools: Seq<u16>, slot: u16) -> Kind {
    let k = match infer::kind_at(ks, slot) {
        Some(k) => k,
        None => Kind::Num,
    };
    if k != Kind::Num {
        k
    } else if dead::is_dead(dead::first_of_stat(st), slot) && own_counter(st) != Some(slot) {
        Kind::Dead
    } else if bools.contains(slot) {
        Kind::Bool
    } else {
        Kind::Num
    }
}

pub open spec fn loop_flags(st: Stat) -> Seq<u16> {
    flags::flag_slots(flags::flags_of_stat(st), Seq::empty(), flags::flags_of_stat(st).len())
}

pub open spec fn loop_env(
    st: Stat,
    upval: Option<u16>,
    global: Option<Seq<char>>,
    cs: Seq<Callable>,
) -> Env {
    let (ks, inner, _) = infer::inferred_in(st, cs);
    Env {
        kinds: infer::relaxed(ks),
        inner_of: inner,
        len_of: Seq::empty(),
        mutable: mutable_views(usage::uses_of_stat(st), inner, ks),
        stable: unwritten(slots::slot_seq(st), writes::writes_of_stat(st)),
        self_upval: upval,
        self_global: global,
        callables: cs,
        arity: None,
        params: Seq::empty(),
        returns_table: false,
    }
}

pub open spec fn loop_kinds(st: Stat, env: Env) -> Seq<Kind> {
    Seq::new(
        slots::slot_seq(st).len(),
        |i: int| loop_kind(st, env.kinds, loop_flags(st), slots::slot_seq(st)[i]),
    )
}

/// The local a loop's bound depends on, with its name.
pub open spec fn bound_local(end: Expr) -> Option<(u16, Seq<char>)> {
    match end {
        Expr::Local(b, name) => Some((b.slot, name@)),
        Expr::Method(obj, _, _) => match *obj {
            Expr::Local(b, name) => Some((b.slot, name@)),
            _ => None,
        },
        _ => None,
    }
}

pub open spec fn bound_moves(end: Expr, body: Block) -> Option<Seq<char>> {
    match bound_local(end) {
        Some(p) => if writes::writes(body, p.0) {
            Some(lowering::named("the loop bound `"@, p.1, "` changes in the body"@))
        } else {
            None
        },
        None => None,
    }
}

/// The body of a loop. A counted loop is entered with its variable at its
/// current value, so its bound must not depend on what the body changes.
pub open spec fn loop_body(st: Stat, env: Env, s: Low) -> Result<(Low, LoopBody), Seq<char>> {
    match st {
        Stat::ForRange { id, var, binding, start, end, inclusive, body } => match binding {
            None => Err("unresolved `for`"@),
            Some(b) => match bound_moves(end, body) {
                Some(e) => Err(e),
                None => match lowering::l_expr(env, s, end) {
                    Err(e) => Err(e),
                    Ok((s1, x)) => {
                        let fact = lowering::range_fact(env, b, start, end, inclusive, body);
                        let label = lowering::next_label(s1.n_labels);
                        let s2 = Low {
                            in_range: match fact {
                                Some(f) => s1.in_range.push(f),
                                None => s1.in_range,
                            },
                            n_labels: label,
                            ..s1
                        };
                        match lowering::l_body(env, s2, body, Some(label)) {
                            Ok((s3, inner)) => Ok(
                                (
                                    s3,
                                    LoopBody::Count {
                                        slot: b.slot,
                                        end: x,
                                        inclusive,
                                        label,
                                        body: inner,
                                    },
                                ),
                            ),
                            Err(e) => Err(e),
                        }
                    },
                },
            },
        },
        _ => match lowering::l_stat(env, Low { labels: s.labels.push(None), ..s }, st) {
            Ok((s1, x)) => Ok((s1, LoopBody::Whole(x))),
            Err(e) => Err(e),
        },
    }
}

/// The slots that travel back: a table is changed in place.
pub open spec fn carried(s: Seq<u16>, ks: Seq<Kind>) -> Seq<u16>
    decreases s.len(),
{
    if s.len() == 0 {
        Seq::empty()
    } else {
        let r = carried(s.drop_last(), ks);
        if lowering::holds_number(ks[s.len() - 1]) {
            r.push(s.last())
        } else {
            r
        }
    }
}

/// A whole loop.
pub open spec fn loop_of(
    st: Stat,
    upval: Option<u16>,
    global: Option<Seq<char>>,
    cs: Seq<Callable>,
) -> Result<LoopView, Seq<char>> {
    let env = loop_env(st, upval, global, cs);
    let s = slots::slot_seq(st);
    let bad = slots::last_bad(slots::slots_of_stat(st));
    let unsettled = infer::inferred_in(st, cs).2;
    let kinds = loop_kinds(st, env);
    if exits::exits_of_stat(st).len() > 0 {
        Err("the loop returns from its function"@)
    } else if bad is Some {
        Err(bad->Some_0)
    } else if s.len() == 0 {
        Err("the loop touches no locals"@)
    } else if unsettled is Some {
        Err(unsettled->Some_0)
    } else if kinds.contains(Kind::New) {
        Err("the loop makes a table of its own"@)
    } else {
        match loop_body(st, env, start(s, loop_flags(st), None)) {
            Err(e) => Err(e),
            Ok((low, body)) => match besides(cs, low.beside) {
                Err(e) => Err(e),
                Ok(beside) => Ok(
                    LoopView {
                        slots: s,
                        kinds,
                        loads: loads_of(s, kinds, env.mutable, low.spans),
                        checks: Seq::new(
                            low.hoisted.len(),
                            |i: int|
                                length_check(
                                    env,
                                    low.spans,
                                    low.hoisted[i].0,
                                    low.hoisted[i].1,
                                ),
                        ),
                        body,
                        stores: carried(s, kinds),
                        inlined: low.inlined,
                        beside,
                    },
                ),
            },
        }
    }
}

// ---- the same, executed ------------------------------------------------------------------

pub struct Code {
    pub loads: Vec<Load>,
    pub checks: Vec<Check>,
    pub calls: bool,
    pub body: IrBlock,
    pub returns_nil: bool,
}

impl View for Code {
    type V = CodeView;

    open spec fn view(&self) -> CodeView {
        CodeView {
            loads: self.loads@,
            checks: self.checks@,
            calls: self.calls,
            body: self.body,
            returns_nil: self.returns_nil,
        }
    }
}

/// The code of some callees, each with the function it comes from.
pub open spec fn codes(s: Seq<(usize, Code)>) -> Seq<(usize, CodeView)> {
    Seq::new(s.len(), |i: int| (s[i].0, s[i].1@))
}

pub struct Unit {
    pub code: Code,
    pub inlined: Vec<String>,
    pub beside: Vec<(usize, Code)>,
    pub param_kinds: Vec<Kind>,
    pub returns_table: bool,
}

impl View for Unit {
    type V = UnitView;

    open spec fn view(&self) -> UnitView {
        UnitView {
            code: self.code@,
            inlined: calls::texts(self.inlined@),
            beside: codes(self.beside@),
            param_kinds: self.param_kinds@,
            returns_table: self.returns_table,
        }
    }
}

pub struct LoopUnit {
    pub slots: Vec<u16>,
    pub kinds: Vec<Kind>,
    pub loads: Vec<Load>,
    pub checks: Vec<Check>,
    pub body: LoopBody,
    pub stores: Vec<u16>,
    pub inlined: Vec<String>,
    pub beside: Vec<(usize, Code)>,
}

impl View for LoopUnit {
    type V = LoopView;

    open spec fn view(&self) -> LoopView {
        LoopView {
            slots: self.slots@,
            kinds: self.kinds@,
            loads: self.loads@,
            checks: self.checks@,
            body: self.body,
            stores: self.stores@,
            inlined: calls::texts(self.inlined@),
            beside: codes(self.beside@),
        }
    }
}

fn mutable_slots(uses: &Vec<TableUse>, inner: &Vec<(u16, u16)>, ks: &Vec<(u16, Kind)>) -> (r: Vec<
    u16,
>)
    ensures
        r@ == mutable_views(uses@, inner@, ks@),
{
    let mut out: Vec<u16> = Vec::new();
    let mut i: usize = 0;
    while i < uses.len()
        invariant
            i <= uses@.len(),
            out@ == written_views(uses@.take(i as int), ks@),
        decreases uses@.len() - i,
    {
        assert(uses@.take(i as int + 1).drop_last() =~= uses@.take(i as int));
        assert(uses@.take(i as int + 1).last() == uses@[i as int]);
        match uses[i] {
            TableUse::Written(slot) => match infer::kind_of(ks, slot) {
                Some(Kind::TableOut) => {},
                Some(Kind::New) => {},
                _ => out.push(slot),
            },
            _ => {},
        }
        i = i + 1;
    }
    assert(uses@.take(uses@.len() as int) =~= uses@);
    let ghost a = out@;
    let mut j: usize = 0;
    assert(out@ =~= a + written_outers(inner@.take(0), uses@));
    while j < inner.len()
        invariant
            j <= inner@.len(),
            out@ == a + written_outers(inner@.take(j as int), uses@),
        decreases inner@.len() - j,
    {
        assert(inner@.take(j as int + 1).drop_last() =~= inner@.take(j as int));
        assert(inner@.take(j as int + 1).last() == inner@[j as int]);
        if usage::is_written(uses, inner[j].0) {
            out.push(inner[j].1);
        }
        assert(out@ =~= a + written_outers(inner@.take(j as int + 1), uses@));
        j = j + 1;
    }
    assert(inner@.take(inner@.len() as int) =~= inner@);
    out
}

fn stable_slots(s: &Vec<u16>, ws: &Vec<u16>) -> (r: Vec<u16>)
    ensures
        r@ == unwritten(s@, ws@),
{
    let mut out: Vec<u16> = Vec::new();
    let mut i: usize = 0;
    while i < s.len()
        invariant
            i <= s@.len(),
            out@ == unwritten(s@.take(i as int), ws@),
        decreases s@.len() - i,
    {
        assert(s@.take(i as int + 1).drop_last() =~= s@.take(i as int));
        assert(s@.take(i as int + 1).last() == s@[i as int]);
        if !walk::has(ws, s[i]) {
            out.push(s[i]);
        }
        i = i + 1;
    }
    assert(s@.take(s@.len() as int) =~= s@);
    out
}

fn copied(s: &Vec<u16>) -> (r: Vec<u16>)
    ensures
        r@ == s@,
{
    let mut out: Vec<u16> = Vec::new();
    let mut i: usize = 0;
    while i < s.len()
        invariant
            i <= s@.len(),
            out@ == s@.take(i as int),
        decreases s@.len() - i,
    {
        out.push(s[i]);
        assert(out@ =~= s@.take(i as int + 1));
        i = i + 1;
    }
    assert(out@ =~= s@);
    out
}

fn fresh(known: Vec<u16>, flag_slots: &Vec<u16>, ret_slot: Option<u16>) -> (r: State)
    ensures
        r@ == start(known@, flag_slots@, ret_slot),
{
    let mut marks: Vec<(u16, bool)> = Vec::new();
    let mut i: usize = 0;
    while i < flag_slots.len()
        invariant
            i <= flag_slots@.len(),
            marks@ == marked(flag_slots@).take(i as int),
        decreases flag_slots@.len() - i,
    {
        marks.push((flag_slots[i], true));
        assert(marks@ =~= marked(flag_slots@).take(i as int + 1));
        i = i + 1;
    }
    assert(marks@ =~= marked(flag_slots@));
    let s = State {
        known,
        flags: marks,
        spans: Vec::new(),
        beside: Vec::new(),
        inlined: Vec::new(),
        calls: false,
        in_range: Vec::new(),
        bounded: Vec::new(),
        hoisted: Vec::new(),
        labels: Vec::new(),
        n_labels: 0,
        ret_slot,
    };
    assert(s@ =~= start(s.known@, flag_slots@, ret_slot));
    s
}

fn make_loads(s: &Vec<u16>, ks: &Vec<Kind>, mutable: &Vec<u16>, spans: &Vec<u16>) -> (r: Vec<Load>)
    requires
        s@.len() == ks@.len(),
    ensures
        r@ == loads_of(s@, ks@, mutable@, spans@),
{
    let mut out: Vec<Load> = Vec::new();
    let mut i: usize = 0;
    while i < s.len()
        invariant
            i <= s@.len() == ks@.len(),
            out@ == loads_of(s@, ks@, mutable@, spans@).take(i as int),
        decreases s@.len() - i,
    {
        let slot: u16 = s[i];
        let l: Load = match ks[i] {
            Kind::TableOut => Load::Append(slot),
            Kind::Table => Load::Table { slot, mutable: walk::has(mutable, slot) },
            Kind::Tables { checked, min } => Load::Tables {
                slot,
                spans: walk::has(spans, slot),
                mutable: walk::has(mutable, slot),
            },
            _ => Load::Num(slot),
        };
        out.push(l);
        assert(out@ =~= loads_of(s@, ks@, mutable@, spans@).take(i as int + 1));
        i = i + 1;
    }
    assert(out@ =~= loads_of(s@, ks@, mutable@, spans@));
    out
}

fn check_length(env: &Scene, spans: &Vec<u16>, slot: u16, bound: Bound) -> (r: Check)
    ensures
        r == length_check(env@, spans@, slot, bound),
{
    match infer::kind_of(&env.kinds, slot) {
        Some(Kind::Tables { checked, min }) => if walk::has(spans, slot) {
            Check::Spans(slot, bound)
        } else {
            Check::Len(slot, bound)
        },
        _ => Check::Len(slot, bound),
    }
}

fn entry_checks(env: &Scene, low: &State) -> (r: Vec<Check>)
    ensures
        r@.len() == low@.hoisted.len(),
        forall|i: int|
            0 <= i < r@.len() ==> #[trigger] r@[i] == entry_check(
                env@,
                low@.spans,
                low@.hoisted[i].0,
                low@.hoisted[i].1,
            ),
{
    let mut out: Vec<Check> = Vec::new();
    let mut i: usize = 0;
    while i < low.hoisted.len()
        invariant
            i <= low.hoisted@.len(),
            out@.len() == i,
            forall|k: int|
                0 <= k < i ==> #[trigger] out@[k] == entry_check(
                    env@,
                    low@.spans,
                    low@.hoisted[k].0,
                    low@.hoisted[k].1,
                ),
        decreases low.hoisted@.len() - i,
    {
        let (slot, bound): (u16, Bound) = low.hoisted[i];
        let c: Check = match infer::outer_of(&env.inner_of, slot) {
            Some(outer) => Check::Elements(outer, bound),
            None => check_length(env, &low.spans, slot, bound),
        };
        out.push(c);
        i = i + 1;
    }
    out
}

fn loop_checks(env: &Scene, low: &State) -> (r: Vec<Check>)
    ensures
        r@.len() == low@.hoisted.len(),
        forall|i: int|
            0 <= i < r@.len() ==> #[trigger] r@[i] == length_check(
                env@,
                low@.spans,
                low@.hoisted[i].0,
                low@.hoisted[i].1,
            ),
{
    let mut out: Vec<Check> = Vec::new();
    let mut i: usize = 0;
    while i < low.hoisted.len()
        invariant
            i <= low.hoisted@.len(),
            out@.len() == i,
            forall|k: int|
                0 <= k < i ==> #[trigger] out@[k] == length_check(
                    env@,
                    low@.spans,
                    low@.hoisted[k].0,
                    low@.hoisted[k].1,
                ),
        decreases low.hoisted@.len() - i,
    {
        let (slot, bound): (u16, Bound) = low.hoisted[i];
        out.push(check_length(env, &low.spans, slot, bound));
        i = i + 1;
    }
    out
}

fn table_in_local(ks: &Vec<(u16, Kind)>, inner: &Vec<(u16, u16)>, params: &Vec<u16>) -> (r: bool)
    ensures
        r == (exists|i: int|
            0 <= i < ks@.len() && ((#[trigger] ks@[i]).1 is Table || ks@[i].1 is Tables)
                && infer::outer_at(inner@, ks@[i].0) is None && !params@.contains(ks@[i].0)),
{
    let mut i: usize = 0;
    while i < ks.len()
        invariant
            i <= ks@.len(),
            forall|k: int|
                0 <= k < i ==> !(((#[trigger] ks@[k]).1 is Table || ks@[k].1 is Tables)
                    && infer::outer_at(inner@, ks@[k].0) is None && !params@.contains(ks@[k].0)),
        decreases ks@.len() - i,
    {
        let (slot, k): (u16, Kind) = ks[i];
        if lower::is_read(k) && infer::outer_of(inner, slot).is_none() && !walk::has(params, slot) {
            assert(ks@[i as int].0 == slot);
            return true;
        }
        i = i + 1;
    }
    false
}

fn has_new(ks: &Vec<Kind>) -> (r: bool)
    ensures
        r == ks@.contains(Kind::New),
{
    let mut i: usize = 0;
    while i < ks.len()
        invariant
            i <= ks@.len(),
            forall|k: int| 0 <= k < i ==> #[trigger] ks@[k] != Kind::New,
        decreases ks@.len() - i,
    {
        if ks[i] == Kind::New {
            assert(ks@[i as int] == Kind::New);
            return true;
        }
        i = i + 1;
    }
    false
}

fn slot_kinds(ks: &Vec<(u16, Kind)>, s: &Vec<u16>) -> (r: Vec<Kind>)
    ensures
        r@ == kinds_at(ks@, s@),
{
    let mut out: Vec<Kind> = Vec::new();
    let mut i: usize = 0;
    while i < s.len()
        invariant
            i <= s@.len(),
            out@ == kinds_at(ks@, s@).take(i as int),
        decreases s@.len() - i,
    {
        let k: Kind = match infer::kind_of(ks, s[i]) {
            Some(k) => k,
            None => Kind::Num,
        };
        out.push(k);
        assert(out@ =~= kinds_at(ks@, s@).take(i as int + 1));
        i = i + 1;
    }
    assert(out@ =~= kinds_at(ks@, s@));
    out
}

fn ends_in_local(b: &Block) -> (r: Option<u16>)
    ensures
        r == last_local(*b),
{
    match &b.tail {
        Some(e) => match &**e {
            Expr::Local(lb, _) => Some(lb.slot),
            _ => None,
        },
        None => {
            let n: usize = b.stats.len();
            if n == 0 {
                return None;
            }
            match &b.stats[n - 1] {
                Stat::Return(es) => {
                    if es.len() != 1 {
                        return None;
                    }
                    match &es[0] {
                        Expr::Local(lb, _) => Some(lb.slot),
                        _ => None,
                    }
                },
                _ => None,
            }
        },
    }
}

fn find_result(b: &Block, ks: &Vec<(u16, Kind)>) -> (r: Option<u16>)
    ensures
        r == result_slot(*b, ks@),
{
    match ends_in_local(b) {
        Some(slot) => {
            if infer::kind_of(ks, slot) == Some(Kind::New) && agree::returns_only(b, slot) {
                Some(slot)
            } else {
                None
            }
        },
        None => None,
    }
}

fn lacks_value(b: &Block) -> (r: bool)
    ensures
        r == valueless(*b),
{
    b.tail.is_none() && !lengths::ends_with_return(b)
}

pub open spec fn name_of(g: Option<String>) -> Option<Seq<char>> {
    match g {
        Some(s) => Some(s@),
        None => None,
    }
}

/// What lowering one function gives.
struct Lowered {
    low: State,
    code: Code,
    callables: Vec<Callable>,
    params: Vec<Kind>,
    returns_table: bool,
}

/// Lower one function. The compiled globals are lent, and come back.
fn lower_function(
    def: &FuncDef,
    upval: Option<u16>,
    global: Option<String>,
    cs: Vec<Callable>,
    returns_nil: bool,
) -> (r: Result<Lowered, String>)
    ensures
        match r {
            Ok(x) => {
                &&& function_code(*def, upval, name_of(global), cs@, returns_nil) == Ok::<
                    (Low, CodeView),
                    Seq<char>,
                >((x.low@, x.code@))
                &&& x.callables@ == cs@
                &&& x.params@ == function_env(*def, upval, name_of(global), cs@).params
                &&& x.returns_table == function_env(
                    *def,
                    upval,
                    name_of(global),
                    cs@,
                ).returns_table
            },
            Err(e) => function_code(*def, upval, name_of(global), cs@, returns_nil) == Err::<
                (Low, CodeView),
                Seq<char>,
            >(e@),
        },
{
    if lengths::any_cell(&def.param_bindings) {
        return Err(text::owned("a parameter is captured by a closure"));
    }
    let Kinds { kinds: ks, inner_of } = match infer::infer_kinds(&def.body, &cs) {
        Ok(k) => k,
        Err(e) => {
            return Err(e);
        },
    };
    let mut params: Vec<u16> = Vec::new();
    walk::push_slots(&def.param_bindings, &mut params);
    assert(params@ =~= walk::slots_of(def.param_bindings@));
    let flag_slots = flags::boolean_locals(&def.body, &params);
    let uses = usage::table_usage(&def.body);
    let mutable = mutable_slots(&uses, &inner_of, &ks);
    let kinds = infer::relax_checks(&ks);
    if table_in_local(&kinds, &inner_of, &params) {
        return Err(text::owned("a table is held in a local, not a parameter"));
    }
    let param_kinds = slot_kinds(&kinds, &params);
    if has_new(&param_kinds) {
        return Err(text::owned("a parameter shares a slot with a table made here"));
    }
    let ret_slot: Option<u16> = find_result(&def.body, &kinds);
    let mut ws: Vec<u16> = Vec::new();
    writes::writes_block(&def.body, &mut ws);
    assert(ws@ =~= writes::writes_of_block(def.body));
    let ghost want = function_env(*def, upval, name_of(global), cs@);
    let env = Scene {
        kinds,
        inner_of,
        len_of: lengths::length_locals(&def.body),
        mutable,
        stable: stable_slots(&params, &ws),
        self_upval: upval,
        self_global: global,
        callables: cs,
        arity: Some(def.params.len()),
        params: param_kinds,
        returns_table: ret_slot.is_some(),
    };
    assert(env@ =~= want);
    let mut low = fresh(copied(&params), &flag_slots, ret_slot);
    assert(low@ == function_start(*def, want));
    let body = match lower::block(&env, &mut low, &def.body, !returns_nil) {
        Ok(b) => b,
        Err(e) => {
            return Err(e);
        },
    };
    let loads = make_loads(&params, &env.params, &env.mutable, &low.spans);
    let checks = entry_checks(&env, &low);
    let code = Code { loads, checks, calls: low.calls, body, returns_nil };
    assert(code.checks@ =~= Seq::new(
        low@.hoisted.len(),
        |i: int| entry_check(env@, low@.spans, low@.hoisted[i].0, low@.hoisted[i].1),
    ));
    let returns_table: bool = env.returns_table;
    let Scene { callables, params: kinds_out, .. } = env;
    Ok(Lowered { low, code, callables, params: kinds_out, returns_table })
}

/// Lower the callees compiled beside some code.
fn lower_beside(cs: &Vec<Callable>, at: &Vec<usize>) -> (r: Result<Vec<(usize, Code)>, String>)
    ensures
        match r {
            Ok(v) => besides(cs@, at@) == Ok::<Seq<(usize, CodeView)>, Seq<char>>(codes(v@)),
            Err(e) => besides(cs@, at@) == Err::<Seq<(usize, CodeView)>, Seq<char>>(e@),
        },
{
    let mut out: Vec<(usize, Code)> = Vec::new();
    let mut i: usize = 0;
    assert(codes(out@) =~= Seq::empty());
    while i < at.len()
        invariant
            i <= at@.len(),
            besides(cs@, at@.take(i as int)) == Ok::<Seq<(usize, CodeView)>, Seq<char>>(
                codes(out@),
            ),
        decreases at@.len() - i,
    {
        assert(at@.take(i as int + 1).drop_last() =~= at@.take(i as int));
        assert(at@.take(i as int + 1).last() == at@[i as int]);
        let ghost before = codes(out@);
        if at[i] >= cs.len() {
            i = i + 1;
            continue;
        }
        match &cs[at[i]].def {
            Some(d) => {
                let leaf: Vec<Callable> = Vec::new();
                assert(leaf@ =~= Seq::empty());
                match lower_function(d, None, None, leaf, lacks_value(&d.body)) {
                    Ok(x) => {
                        out.push((d.id, x.code));
                        assert(codes(out@) =~= before.push((d.id, x.code@)));
                    },
                    Err(e) => {
                        proof {
                            lemma_beside_stop(cs@, at@, i as int + 1);
                        }
                        return Err(e);
                    },
                }
            },
            None => {},
        }
        i = i + 1;
    }
    assert(at@.take(at@.len() as int) =~= at@);
    Ok(out)
}

/// A refusal among the callees is the refusal of them all.
proof fn lemma_beside_stop(cs: Seq<Callable>, at: Seq<usize>, i: int)
    requires
        0 <= i <= at.len(),
        besides(cs, at.take(i)) is Err,
    ensures
        besides(cs, at) == besides(cs, at.take(i)),
    decreases at.len() - i,
{
    if i < at.len() {
        assert(at.take(i + 1).drop_last() =~= at.take(i));
        lemma_beside_stop(cs, at, i + 1);
    } else {
        assert(at.take(i) =~= at);
    }
}

/// Lower a whole function, or say why it stays interpreted.
pub fn lower_unit(def: &FuncDef, self_ref: SelfRef) -> (r: Result<Unit, String>)
    ensures
        match r {
            Ok(u) => unit_of(
                *def,
                self_ref.upval,
                name_of(self_ref.global),
                self_ref.compiled_globals@,
            ) == Ok::<UnitView, Seq<char>>(u@),
            Err(e) => unit_of(
                *def,
                self_ref.upval,
                name_of(self_ref.global),
                self_ref.compiled_globals@,
            ) == Err::<UnitView, Seq<char>>(e@),
        },
{
    if def.params.len() > 16 {
        return Err(text::owned("more than 16 parameters"));
    }
    let returns_nil: bool = lacks_value(&def.body);
    if returns_nil && exits::returns_a_value(&def.body) {
        return Err(text::owned("some paths return a value and some do not"));
    }
    let SelfRef { upval, global, compiled_globals } = self_ref;
    match lower_function(def, upval, global, compiled_globals, returns_nil) {
        Ok(x) => {
            let Lowered { low, code, callables, params, returns_table } = x;
            match lower_beside(&callables, &low.beside) {
                Ok(beside) => {
                    let State { inlined, .. } = low;
                    Ok(Unit { code, inlined, beside, param_kinds: params, returns_table })
                },
                Err(e) => Err(e),
            }
        },
        Err(e) => Err(e),
    }
}

fn counter_of(st: &Stat) -> (r: Option<u16>)
    ensures
        r == own_counter(*st),
{
    match st {
        Stat::ForRange { id, var, binding, start, end, inclusive, body } => match binding {
            Some(b) => Some(b.slot),
            None => None,
        },
        _ => None,
    }
}

fn kinds_of_loop(st: &Stat, s: &Vec<u16>, ks: &Vec<(u16, Kind)>, bools: &Vec<u16>) -> (r: Vec<Kind>)
    ensures
        r@.len() == s@.len(),
        forall|i: int|
            0 <= i < r@.len() ==> #[trigger] r@[i] == loop_kind(*st, ks@, bools@, s@[i]),
{
    let gone = dead::dead_on_entry(st, s);
    let own: Option<u16> = counter_of(st);
    let mut out: Vec<Kind> = Vec::new();
    let mut i: usize = 0;
    while i < s.len()
        invariant
            i <= s@.len(),
            out@.len() == i,
            gone@.len() == s@.len(),
            own == own_counter(*st),
            forall|k: int|
                0 <= k < gone@.len() ==> #[trigger] gone@[k] == dead::is_dead(
                    dead::first_of_stat(*st),
                    s@[k],
                ),
            forall|k: int|
                0 <= k < i ==> #[trigger] out@[k] == loop_kind(*st, ks@, bools@, s@[k]),
        decreases s@.len() - i,
    {
        let slot: u16 = s[i];
        let k: Kind = match infer::kind_of(ks, slot) {
            Some(k) => k,
            None => Kind::Num,
        };
        let counts: bool = match own {
            Some(c) => c == slot,
            None => false,
        };
        assert(gone@[i as int] == dead::is_dead(dead::first_of_stat(*st), s@[i as int]));
        if k != Kind::Num {
            out.push(k);
        } else if gone[i] && !counts {
            out.push(Kind::Dead);
        } else if walk::has(bools, slot) {
            out.push(Kind::Bool);
        } else {
            out.push(Kind::Num);
        }
        i = i + 1;
    }
    out
}

fn moving_bound(end: &Expr, body: &Block) -> (r: Option<String>)
    ensures
        match r {
            Some(e) => bound_moves(*end, *body) == Some(e@),
            None => bound_moves(*end, *body) is None,
        },
{
    match end {
        Expr::Local(b, name) => {
            if writes::writes_slot(body, b.slot) {
                return Some(
                    lower::say("the loop bound `", name.as_str(), "` changes in the body"),
                );
            }
            None
        },
        Expr::Method(obj, _, _) => match &**obj {
            Expr::Local(b, name) => {
                if writes::writes_slot(body, b.slot) {
                    return Some(
                        lower::say("the loop bound `", name.as_str(), "` changes in the body"),
                    );
                }
                None
            },
            _ => None,
        },
        _ => None,
    }
}

fn lower_loop_body(st: &Stat, env: &Scene, low: &mut State) -> (r: Result<LoopBody, String>)
    ensures
        lower::agrees(r, final(low)@, loop_body(*st, env@, old(low)@)),
{
    match st {
        Stat::ForRange { id, var, binding, start, end, inclusive, body } => {
            let b: Binding = match binding {
                Some(b) => *b,
                None => {
                    return Err(text::owned("unresolved `for`"));
                },
            };
            match moving_bound(end, body) {
                Some(e) => {
                    return Err(e);
                },
                None => {},
            }
            let x = match lower::expr(env, low, end) {
                Ok(x) => x,
                Err(e) => {
                    return Err(e);
                },
            };
            let ghost s1 = low@;
            match lower::range_fact(env, b, start, end, *inclusive, body) {
                Some(f) => low.in_range.push(f),
                None => {},
            }
            let label: u32 = lower::bump(low.n_labels);
            low.n_labels = label;
            let ghost s2 = Low {
                in_range: match lowering::range_fact(env@, b, *start, *end, *inclusive, *body) {
                    Some(f) => s1.in_range.push(f),
                    None => s1.in_range,
                },
                n_labels: label,
                ..s1
            };
            assert(low@ =~= s2);
            match lower::body_of(env, low, body, Some(label)) {
                Ok(inner) => Ok(
                    LoopBody::Count {
                        slot: b.slot,
                        end: x,
                        inclusive: *inclusive,
                        label,
                        body: inner,
                    },
                ),
                Err(e) => Err(e),
            }
        },
        _ => {
            let ghost was = low@;
            low.labels.push(None);
            assert(low@ =~= (Low { labels: was.labels.push(None), ..was }));
            match lower::stat(env, low, st) {
                Ok(x) => Ok(LoopBody::Whole(x)),
                Err(e) => Err(e),
            }
        },
    }
}

fn carried_slots(s: &Vec<u16>, ks: &Vec<Kind>) -> (r: Vec<u16>)
    requires
        s@.len() == ks@.len(),
    ensures
        r@ == carried(s@, ks@),
{
    let mut out: Vec<u16> = Vec::new();
    let mut i: usize = 0;
    while i < s.len()
        invariant
            i <= s@.len() == ks@.len(),
            out@ == carried(s@.take(i as int), ks@),
        decreases s@.len() - i,
    {
        assert(s@.take(i as int + 1).drop_last() =~= s@.take(i as int));
        assert(s@.take(i as int + 1).last() == s@[i as int]);
        if lower::holds_number(ks[i]) {
            out.push(s[i]);
        }
        i = i + 1;
    }
    assert(s@.take(s@.len() as int) =~= s@);
    out
}

/// Lower a loop over the slots it touches, or say why it stays interpreted.
/// Its code tests the condition again, so the interpreter can hand over at
/// any back edge.
pub fn lower_loop(st: &Stat, self_ref: SelfRef) -> (r: Result<LoopUnit, String>)
    ensures
        match r {
            Ok(u) => loop_of(
                *st,
                self_ref.upval,
                name_of(self_ref.global),
                self_ref.compiled_globals@,
            ) == Ok::<LoopView, Seq<char>>(u@),
            Err(e) => loop_of(
                *st,
                self_ref.upval,
                name_of(self_ref.global),
                self_ref.compiled_globals@,
            ) == Err::<LoopView, Seq<char>>(e@),
        },
{
    if exits::contains_return(st) {
        return Err(text::owned("the loop returns from its function"));
    }
    let s = match slots::loop_slots(st) {
        Ok(s) => s,
        Err(e) => {
            return Err(e);
        },
    };
    if s.len() == 0 {
        return Err(text::owned("the loop touches no locals"));
    }
    let SelfRef { upval, global, compiled_globals: cs } = self_ref;
    let Kinds { kinds: ks, inner_of } = match infer::infer_kinds_in(st, &cs) {
        Ok(k) => k,
        Err(e) => {
            return Err(e);
        },
    };
    let bools = flags::boolean_locals_in(st);
    let uses = usage::table_usage_in(st);
    let mutable = mutable_slots(&uses, &inner_of, &ks);
    let kinds = infer::relax_checks(&ks);
    let mut ws: Vec<u16> = Vec::new();
    writes::writes_stat(st, &mut ws);
    assert(ws@ =~= writes::writes_of_stat(*st));
    let kind_list = kinds_of_loop(st, &s, &kinds, &bools);
    let ghost want = loop_env(*st, upval, name_of(global), cs@);
    assert(kind_list@ =~= loop_kinds(*st, want));
    if has_new(&kind_list) {
        return Err(text::owned("the loop makes a table of its own"));
    }
    let env = Scene {
        kinds,
        inner_of,
        len_of: Vec::new(),
        mutable,
        stable: stable_slots(&s, &ws),
        self_upval: upval,
        self_global: global,
        callables: cs,
        arity: None,
        params: Vec::new(),
        returns_table: false,
    };
    assert(env@ =~= want);
    let mut low = fresh(copied(&s), &bools, None);
    let body = match lower_loop_body(st, &env, &mut low) {
        Ok(b) => b,
        Err(e) => {
            return Err(e);
        },
    };
    let beside = match lower_beside(&env.callables, &low.beside) {
        Ok(b) => b,
        Err(e) => {
            return Err(e);
        },
    };
    let loads = make_loads(&s, &kind_list, &env.mutable, &low.spans);
    let checks = loop_checks(&env, &low);
    assert(checks@ =~= Seq::new(
        low@.hoisted.len(),
        |i: int| length_check(env@, low@.spans, low@.hoisted[i].0, low@.hoisted[i].1),
    ));
    let stores = carried_slots(&s, &kind_list);
    let State { inlined, .. } = low;
    Ok(LoopUnit { slots: s, kinds: kind_list, loads, checks, body, stores, inlined, beside })
}

} // verus!
