//! The Rust file a unit is compiled from: what every such file begins with,
//! the entry point, and the callees beside it.
use super::emit;
use super::ir::Bound;
use super::session;
use super::unit::{Check, Code, CodeView, Load, LoopBody, LoopUnit, LoopView, Unit, UnitView};
use crate::text;
use vstd::prelude::*;

verus! {

/// What every generated file needs before its entry point: the types it shares
/// with the runtime, the helpers for arithmetic, and the calls back.
pub const PREAMBLE: &'static str = r#"#![allow(
    unused_mut,
    unused_parens,
    unused_variables,
    unused_assignments,
    unreachable_code,
    unused_labels,
    dead_code
)]

use std::ffi::c_void;

#[repr(C)]
#[derive(Clone, Copy)]
pub struct RtArg {
    pub num: f64,
    pub table: *mut c_void,
}

#[repr(C)]
#[derive(Clone, Copy)]
pub struct RtSpan {
    pub ptr: *mut f64,
    pub len: usize,
}

#[repr(C)]
#[derive(Clone, Copy)]
pub struct Callee {
    pub entry: usize,
    pub ctx: *const RtCtx,
}

#[repr(C)]
pub struct RtCtx {
    pub len: usize,
    pub get: usize,
    pub span: usize,
    pub push: usize,
    pub set: usize,
    pub inner: usize,
    pub span_mut: usize,
    pub inner_mut: usize,
    pub spans: usize,
    pub spans_mut: usize,
    pub note_append: usize,
    pub new_table: usize,
    pub push_table: usize,
    pub callees: *const Callee,
    pub depth: *mut i64,
    pub max_depth: i64,
}

#[inline(always)]
fn rua_rem(a: f64, b: f64) -> f64 {
    a - (a / b).floor() * b
}

#[inline(always)]
fn rua_bool(b: bool) -> f64 {
    if b { 1.0 } else { 0.0 }
}

/// A float index whose range is already settled, turned into an
/// offset.
///
/// `as usize` on an `f64` saturates, and saturating is ten
/// instructions of compare-and-move that the inner loop of every
/// benchmark paid on every element. Every caller here has just
/// proved — or just checked — that the value is a whole number in
/// `0..len`, so the plain truncation is all that is wanted.
///
/// A float truncated towards zero, with whatever the machine says
/// for the values that do not fit.
///
/// `as i64` in Rust saturates, which is six instructions of
/// compare-and-move around the one that does the work. Every caller
/// here goes on to reject the result unless it lands inside a view,
/// and `i64::MIN` — which is what x86 hands back for a NaN, an
/// infinity or anything too large — never does. So the raw
/// instruction answers the question the saturating cast was answering
/// more slowly.
#[cfg(target_arch = "x86_64")]
#[inline(always)]
fn rua_trunc(i: f64) -> i64 {
    unsafe {
        std::arch::x86_64::_mm_cvttsd_si64(std::arch::x86_64::_mm_set_sd(i))
    }
}

#[cfg(not(target_arch = "x86_64"))]
#[inline(always)]
fn rua_trunc(i: f64) -> i64 {
    i as i64
}

/// A float index whose range is already settled, turned into an
/// offset.
#[inline(always)]
fn rua_idx(i: f64) -> usize {
    rua_trunc(i) as usize
}

/// # Safety
/// `t` is a live table pointer, and `rt` the context we were called
/// with.
#[inline(always)]
unsafe fn rua_len(rt: *const RtCtx, t: *mut c_void, ok: *mut i32) -> f64 {
    let f: unsafe extern "C" fn(*mut c_void, *mut i32) -> f64 =
        std::mem::transmute((*rt).len as *const ());
    f(t, ok)
}

/// # Safety
/// As `rua_len`.
#[inline(always)]
unsafe fn rua_get(rt: *const RtCtx, t: *mut c_void, i: f64, ok: *mut i32) -> f64 {
    let f: unsafe extern "C" fn(*mut c_void, f64, *mut i32) -> f64 =
        std::mem::transmute((*rt).get as *const ());
    f(t, i, ok)
}

/// # Safety
/// `t` is a live table pointer, and `rt` the context we were called
/// with.
#[inline(always)]
unsafe fn rua_push(rt: *const RtCtx, t: *mut c_void, v: f64) {
    let f: unsafe extern "C" fn(*mut c_void, f64) =
        std::mem::transmute((*rt).push as *const ());
    f(t, v)
}

/// # Safety
/// `t` is a live table pointer. Said once, on the way in, rather than
/// at every append.
#[inline(always)]
unsafe fn rua_note_append(rt: *const RtCtx, t: *mut c_void, ok: *mut i32) {
    let f: unsafe extern "C" fn(*mut c_void, *mut i32) =
        std::mem::transmute((*rt).note_append as *const ());
    f(t, ok)
}

/// # Safety
/// `rt` is the context we were called with. The table it hands back is
/// the runtime's until this call ends.
#[inline(always)]
unsafe fn rua_new_table(rt: *const RtCtx) -> *mut c_void {
    let f: unsafe extern "C" fn() -> *mut c_void =
        std::mem::transmute((*rt).new_table as *const ());
    f()
}

/// # Safety
/// `t` and `e` are live table pointers, and `e` is one this code was
/// given or made.
#[inline(always)]
unsafe fn rua_push_table(rt: *const RtCtx, t: *mut c_void, e: *mut c_void) {
    let f: unsafe extern "C" fn(*mut c_void, *mut c_void) =
        std::mem::transmute((*rt).push_table as *const ());
    f(t, e)
}

/// # Safety
/// `t` is a live table pointer, `i` an index inside its array part.
#[inline(always)]
unsafe fn rua_set(rt: *const RtCtx, t: *mut c_void, i: f64, v: f64, ok: *mut i32) {
    let f: unsafe extern "C" fn(*mut c_void, f64, f64, *mut i32) =
        std::mem::transmute((*rt).set as *const ());
    f(t, i, v, ok)
}

/// # Safety
/// As `rua_span`, for every element of an array of arrays at once.
/// The array the runtime hands back lives until this call ends.
#[inline(always)]
unsafe fn rua_spans(
    rt: *const RtCtx,
    t: *mut c_void,
    len: *mut usize,
    ok: *mut i32,
) -> *const RtSpan {
    let f: unsafe extern "C" fn(*mut c_void, *mut usize, *mut i32) -> *const RtSpan =
        std::mem::transmute((*rt).spans as *const ());
    f(t, len, ok)
}

/// # Safety
/// As `rua_spans`, for code that writes through the views.
#[inline(always)]
unsafe fn rua_spans_mut(
    rt: *const RtCtx,
    t: *mut c_void,
    len: *mut usize,
    ok: *mut i32,
) -> *const RtSpan {
    let f: unsafe extern "C" fn(*mut c_void, *mut usize, *mut i32) -> *const RtSpan =
        std::mem::transmute((*rt).spans_mut as *const ());
    f(t, len, ok)
}

/// # Safety
/// As `rua_span`. What is written through this view is kept, or
/// thrown away, when the call that fetched it ends.
#[inline(always)]
unsafe fn rua_span_mut(
    rt: *const RtCtx,
    t: *mut c_void,
    len: *mut usize,
    ok: *mut i32,
) -> *mut f64 {
    let f: unsafe extern "C" fn(*mut c_void, *mut usize, *mut i32) -> *mut f64 =
        std::mem::transmute((*rt).span_mut as *const ());
    f(t, len, ok)
}

/// # Safety
/// As `rua_inner`, for code that writes to the element.
#[inline(always)]
unsafe fn rua_inner_mut(
    rt: *const RtCtx,
    t: *mut c_void,
    i: f64,
    ptr: *mut *mut f64,
    len: *mut usize,
    ok: *mut i32,
) -> *mut c_void {
    let f: unsafe extern "C" fn(
        *mut c_void,
        f64,
        *mut *mut f64,
        *mut usize,
        *mut i32,
    ) -> *mut c_void = std::mem::transmute((*rt).inner_mut as *const ());
    f(t, i, ptr, len, ok)
}

/// # Safety
/// `t` is a live table of tables and `i` an index inside it. The
/// element's view stays valid for the same reason a top level one
/// does: nothing reshapes it while this code runs.
#[inline(always)]
unsafe fn rua_inner(
    rt: *const RtCtx,
    t: *mut c_void,
    i: f64,
    ptr: *mut *const f64,
    len: *mut usize,
    ok: *mut i32,
) -> *mut c_void {
    let f: unsafe extern "C" fn(
        *mut c_void,
        f64,
        *mut *const f64,
        *mut usize,
        *mut i32,
    ) -> *mut c_void = std::mem::transmute((*rt).inner as *const ());
    f(t, i, ptr, len, ok)
}

/// # Safety
/// As `rua_len`. The view a read table hands out stays valid as long as
/// nothing writes to *that* table, which the runtime checks before it
/// uses this code.
#[inline(always)]
unsafe fn rua_span(
    rt: *const RtCtx,
    t: *mut c_void,
    len: *mut usize,
    ok: *mut i32,
) -> *const f64 {
    let f: unsafe extern "C" fn(*mut c_void, *mut usize, *mut i32) -> *const f64 =
        std::mem::transmute((*rt).span as *const ());
    f(t, len, ok)
}
"#;

// ---- the way in --------------------------------------------------------------------------

/// What a length is compared with.
pub open spec fn bound_text(b: Bound) -> Seq<char> {
    match b {
        Bound::Num(n) => emit::number_text(n),
        Bound::Local(slot) => "v"@ + text::decimal(slot as nat),
        Bound::Len(slot) => "(n"@ + text::decimal(slot as nat) + " as f64)"@,
    }
}

fn write_bound(b: Bound) -> (r: String)
    ensures
        r@ == bound_text(b),
{
    match b {
        Bound::Num(n) => emit::write_number(n),
        Bound::Local(slot) => {
            let mut s = text::owned("v");
            text::push_decimal(&mut s, slot as u64);
            s
        },
        Bound::Len(slot) => {
            let mut s = text::owned("(n");
            text::push_decimal(&mut s, slot as u64);
            s.append(" as f64)");
            s
        },
    }
}

/// Fetch what came in at place `at` of an array.
pub open spec fn load_text(x: Load, at: nat, array: Seq<char>, trap: Seq<char>) -> Seq<char> {
    match x {
        Load::Num(slot) => "let mut v"@ + text::decimal(slot as nat) + ": f64 = (*"@ + array + ".add("@
            + text::decimal(at as nat) + "usize)).num; "@,
        Load::Append(slot) => "let v"@ + text::decimal(slot as nat) + ": *mut c_void = (*"@ + array + ".add("@
            + text::decimal(at as nat) + "usize)).table; rua_note_append(rt, v"@
            + text::decimal(slot as nat) + ", ok); if *ok == 0 { "@ + trap + " } "@,
        Load::Table { slot, mutable } => if mutable {
            "let v"@ + text::decimal(slot as nat) + ": *mut c_void = (*"@ + array + ".add("@
            + text::decimal(at as nat) + "usize)).table; let mut n"@
            + text::decimal(slot as nat) + ": usize = 0; let p"@
            + text::decimal(slot as nat) + ": *mut f64 = rua_span_mut(rt, v"@
            + text::decimal(slot as nat) + ", &mut n"@ + text::decimal(slot as nat)
            + ", ok); if *ok == 0 { "@ + trap + " } "@
        } else {
            "let v"@ + text::decimal(slot as nat) + ": *mut c_void = (*"@ + array + ".add("@
            + text::decimal(at as nat) + "usize)).table; let mut n"@
            + text::decimal(slot as nat) + ": usize = 0; let p"@
            + text::decimal(slot as nat) + ": *const f64 = rua_span(rt, v"@
            + text::decimal(slot as nat) + ", &mut n"@ + text::decimal(slot as nat)
            + ", ok); if *ok == 0 { "@ + trap + " } "@
        },
        Load::Tables { slot, spans, mutable } => if !spans {
            "let v"@ + text::decimal(slot as nat) + ": *mut c_void = (*"@ + array + ".add("@
            + text::decimal(at as nat) + "usize)).table; let n"@
            + text::decimal(slot as nat) + ": usize = { let n = rua_len(rt, v"@
            + text::decimal(slot as nat) + ", ok); if *ok == 0 { "@ + trap
            + " } n as usize }; "@
        } else if mutable {
            "let v"@ + text::decimal(slot as nat) + ": *mut c_void = (*"@ + array + ".add("@
            + text::decimal(at as nat) + "usize)).table; let n"@
            + text::decimal(slot as nat) + ": usize = { let n = rua_len(rt, v"@
            + text::decimal(slot as nat) + ", ok); if *ok == 0 { "@ + trap
            + " } n as usize }; let mut __spn"@ + text::decimal(slot as nat)
            + ": usize = 0; let __sp"@ + text::decimal(slot as nat)
            + ": *const RtSpan = rua_spans_mut(rt, v"@ + text::decimal(slot as nat)
            + ", &mut __spn"@ + text::decimal(slot as nat) + ", ok); if *ok == 0 { "@ + trap
            + " } "@
        } else {
            "let v"@ + text::decimal(slot as nat) + ": *mut c_void = (*"@ + array + ".add("@
            + text::decimal(at as nat) + "usize)).table; let n"@
            + text::decimal(slot as nat) + ": usize = { let n = rua_len(rt, v"@
            + text::decimal(slot as nat) + ", ok); if *ok == 0 { "@ + trap
            + " } n as usize }; let mut __spn"@ + text::decimal(slot as nat)
            + ": usize = 0; let __sp"@ + text::decimal(slot as nat)
            + ": *const RtSpan = rua_spans(rt, v"@ + text::decimal(slot as nat)
            + ", &mut __spn"@ + text::decimal(slot as nat) + ", ok); if *ok == 0 { "@ + trap
            + " } "@
        },
    }
}

fn write_load(x: Load, at: usize, array: &str, trap: &str) -> (r: String)
    ensures
        r@ == load_text(x, at as nat, array@, trap@),
{
    match x {
        Load::Num(slot) => {
            let mut s = text::owned("let mut v");
            text::push_decimal(&mut s, slot as u64);
            s.append(": f64 = (*");
            s.append(array);
            s.append(".add(");
            text::push_decimal(&mut s, at as u64);
            s.append("usize)).num; ");
            s
        },
        Load::Append(slot) => {
            let mut s = text::owned("let v");
            text::push_decimal(&mut s, slot as u64);
            s.append(": *mut c_void = (*");
            s.append(array);
            s.append(".add(");
            text::push_decimal(&mut s, at as u64);
            s.append("usize)).table; rua_note_append(rt, v");
            text::push_decimal(&mut s, slot as u64);
            s.append(", ok); if *ok == 0 { ");
            s.append(trap);
            s.append(" } ");
            s
        },
        Load::Table { slot, mutable } => {
            if mutable {
                let mut s = text::owned("let v");
                text::push_decimal(&mut s, slot as u64);
                s.append(": *mut c_void = (*");
                s.append(array);
                s.append(".add(");
                text::push_decimal(&mut s, at as u64);
                s.append("usize)).table; let mut n");
                text::push_decimal(&mut s, slot as u64);
                s.append(": usize = 0; let p");
                text::push_decimal(&mut s, slot as u64);
                s.append(": *mut f64 = rua_span_mut(rt, v");
                text::push_decimal(&mut s, slot as u64);
                s.append(", &mut n");
                text::push_decimal(&mut s, slot as u64);
                s.append(", ok); if *ok == 0 { ");
                s.append(trap);
                s.append(" } ");
                s
            } else {
                let mut s = text::owned("let v");
                text::push_decimal(&mut s, slot as u64);
                s.append(": *mut c_void = (*");
                s.append(array);
                s.append(".add(");
                text::push_decimal(&mut s, at as u64);
                s.append("usize)).table; let mut n");
                text::push_decimal(&mut s, slot as u64);
                s.append(": usize = 0; let p");
                text::push_decimal(&mut s, slot as u64);
                s.append(": *const f64 = rua_span(rt, v");
                text::push_decimal(&mut s, slot as u64);
                s.append(", &mut n");
                text::push_decimal(&mut s, slot as u64);
                s.append(", ok); if *ok == 0 { ");
                s.append(trap);
                s.append(" } ");
                s
            }
        },
        Load::Tables { slot, spans, mutable } => {
            if !spans {
                let mut s = text::owned("let v");
                text::push_decimal(&mut s, slot as u64);
                s.append(": *mut c_void = (*");
                s.append(array);
                s.append(".add(");
                text::push_decimal(&mut s, at as u64);
                s.append("usize)).table; let n");
                text::push_decimal(&mut s, slot as u64);
                s.append(": usize = { let n = rua_len(rt, v");
                text::push_decimal(&mut s, slot as u64);
                s.append(", ok); if *ok == 0 { ");
                s.append(trap);
                s.append(" } n as usize }; ");
                s
            } else if mutable {
                let mut s = text::owned("let v");
                text::push_decimal(&mut s, slot as u64);
                s.append(": *mut c_void = (*");
                s.append(array);
                s.append(".add(");
                text::push_decimal(&mut s, at as u64);
                s.append("usize)).table; let n");
                text::push_decimal(&mut s, slot as u64);
                s.append(": usize = { let n = rua_len(rt, v");
                text::push_decimal(&mut s, slot as u64);
                s.append(", ok); if *ok == 0 { ");
                s.append(trap);
                s.append(" } n as usize }; let mut __spn");
                text::push_decimal(&mut s, slot as u64);
                s.append(": usize = 0; let __sp");
                text::push_decimal(&mut s, slot as u64);
                s.append(": *const RtSpan = rua_spans_mut(rt, v");
                text::push_decimal(&mut s, slot as u64);
                s.append(", &mut __spn");
                text::push_decimal(&mut s, slot as u64);
                s.append(", ok); if *ok == 0 { ");
                s.append(trap);
                s.append(" } ");
                s
            } else {
                let mut s = text::owned("let v");
                text::push_decimal(&mut s, slot as u64);
                s.append(": *mut c_void = (*");
                s.append(array);
                s.append(".add(");
                text::push_decimal(&mut s, at as u64);
                s.append("usize)).table; let n");
                text::push_decimal(&mut s, slot as u64);
                s.append(": usize = { let n = rua_len(rt, v");
                text::push_decimal(&mut s, slot as u64);
                s.append(", ok); if *ok == 0 { ");
                s.append(trap);
                s.append(" } n as usize }; let mut __spn");
                text::push_decimal(&mut s, slot as u64);
                s.append(": usize = 0; let __sp");
                text::push_decimal(&mut s, slot as u64);
                s.append(": *const RtSpan = rua_spans(rt, v");
                text::push_decimal(&mut s, slot as u64);
                s.append(", &mut __spn");
                text::push_decimal(&mut s, slot as u64);
                s.append(", ok); if *ok == 0 { ");
                s.append(trap);
                s.append(" } ");
                s
            }
        },
    }
}

/// Compare a length with its bound, and leave if it is too short.
pub open spec fn check_text(x: Check, trap: Seq<char>) -> Seq<char> {
    match x {
        Check::Len(slot, bound) => "if ("@ + bound_text(bound) + ").ceil() > (n"@ + text::decimal(slot as nat)
            + " as f64) { *ok = 0; "@ + trap + " } "@,
        Check::Spans(slot, bound) => "if ("@ + bound_text(bound) + ").ceil() > (__spn"@ + text::decimal(slot as nat)
            + " as f64) { *ok = 0; "@ + trap + " } "@,
        Check::Elements(outer, bound) => "{ let __need = ("@ + bound_text(bound)
            + ").ceil(); let mut __at = 0usize; while __at < __spn"@
            + text::decimal(outer as nat) + " { if __need > ((*__sp"@
            + text::decimal(outer as nat) + ".add(__at)).len as f64) { *ok = 0; "@ + trap
            + " } __at += 1; } } "@,
    }
}

fn write_check(x: Check, trap: &str) -> (r: String)
    ensures
        r@ == check_text(x, trap@),
{
    match x {
        Check::Len(slot, bound) => {
            let mut s = text::owned("if (");
            s.append(write_bound(bound).as_str());
            s.append(").ceil() > (n");
            text::push_decimal(&mut s, slot as u64);
            s.append(" as f64) { *ok = 0; ");
            s.append(trap);
            s.append(" } ");
            s
        },
        Check::Spans(slot, bound) => {
            let mut s = text::owned("if (");
            s.append(write_bound(bound).as_str());
            s.append(").ceil() > (__spn");
            text::push_decimal(&mut s, slot as u64);
            s.append(" as f64) { *ok = 0; ");
            s.append(trap);
            s.append(" } ");
            s
        },
        Check::Elements(outer, bound) => {
            let mut s = text::owned("{ let __need = (");
            s.append(write_bound(bound).as_str());
            s.append(").ceil(); let mut __at = 0usize; while __at < __spn");
            text::push_decimal(&mut s, outer as u64);
            s.append(" { if __need > ((*__sp");
            text::push_decimal(&mut s, outer as u64);
            s.append(".add(__at)).len as f64) { *ok = 0; ");
            s.append(trap);
            s.append(" } __at += 1; } } ");
            s
        },
    }
}

/// Everything fetched on the way in, in order.
pub open spec fn loads_text(xs: Seq<Load>, array: Seq<char>, trap: Seq<char>) -> Seq<char>
    decreases xs.len(),
{
    if xs.len() == 0 {
        ""@
    } else {
        loads_text(xs.drop_last(), array, trap) + load_text(xs.last(), (xs.len() - 1) as nat, array, trap)
    }
}

fn write_loads(xs: &Vec<Load>, array: &str, trap: &str) -> (r: String)
    ensures
        r@ == loads_text(xs@, array@, trap@),
{
    let mut s = text::owned("");
    let mut i: usize = 0;
    while i < xs.len()
        invariant
            i <= xs@.len(),
            s@ == loads_text(xs@.take(i as int), array@, trap@),
        decreases xs@.len() - i,
    {
        s.append(write_load(xs[i], i, array, trap).as_str());
        assert(xs@.take(i as int + 1).drop_last() =~= xs@.take(i as int));
        i = i + 1;
    }
    assert(xs@.take(i as int) =~= xs@);
    s
}

/// Every length compared on the way in.
pub open spec fn checks_text(xs: Seq<Check>, trap: Seq<char>) -> Seq<char>
    decreases xs.len(),
{
    if xs.len() == 0 {
        ""@
    } else {
        checks_text(xs.drop_last(), trap) + check_text(xs.last(), trap)
    }
}

fn write_checks(xs: &Vec<Check>, trap: &str) -> (r: String)
    ensures
        r@ == checks_text(xs@, trap@),
{
    let mut s = text::owned("");
    let mut i: usize = 0;
    while i < xs.len()
        invariant
            i <= xs@.len(),
            s@ == checks_text(xs@.take(i as int), trap@),
        decreases xs@.len() - i,
    {
        s.append(write_check(xs[i], trap).as_str());
        assert(xs@.take(i as int + 1).drop_last() =~= xs@.take(i as int));
        i = i + 1;
    }
    assert(xs@.take(i as int) =~= xs@);
    s
}

/// Put a number back at place `at`.
pub open spec fn store_text(slot: u16, at: nat) -> Seq<char> {
    "(*regs.add("@ + text::decimal(at) + "usize)).num = v"@ + text::decimal(slot as nat) + "; "@
}

/// The place of a slot among the slots a loop touches.
pub open spec fn place_of(slots: Seq<u16>, slot: u16, i: nat) -> nat
    decreases slots.len() - i,
{
    if i < slots.len() && slots[i as int] != slot {
        place_of(slots, slot, i + 1)
    } else {
        i
    }
}

fn find_place(slots: &Vec<u16>, slot: u16) -> (r: usize)
    ensures
        r == place_of(slots@, slot, 0),
{
    let mut i: usize = 0;
    while i < slots.len() && slots[i] != slot
        invariant
            i <= slots@.len(),
            place_of(slots@, slot, 0) == place_of(slots@, slot, i as nat),
        decreases slots@.len() - i,
    {
        i = i + 1;
    }
    i
}

/// The numbers that travel back, each to the place it came from.
pub open spec fn stores_text(xs: Seq<u16>, slots: Seq<u16>) -> Seq<char>
    decreases xs.len(),
{
    if xs.len() == 0 {
        ""@
    } else {
        stores_text(xs.drop_last(), slots) + store_text(xs.last(), place_of(slots, xs.last(), 0))
    }
}

fn write_stores(xs: &Vec<u16>, slots: &Vec<u16>) -> (r: String)
    ensures
        r@ == stores_text(xs@, slots@),
{
    let mut s = text::owned("");
    let mut i: usize = 0;
    while i < xs.len()
        invariant
            i <= xs@.len(),
            s@ == stores_text(xs@.take(i as int), slots@),
        decreases xs@.len() - i,
    {
        s.append("(*regs.add(");
        text::push_decimal(&mut s, find_place(slots, xs[i]) as u64);
        s.append("usize)).num = v");
        text::push_decimal(&mut s, xs[i] as u64);
        s.append("; ");
        proof {
            let n = place_of(slots@, xs@[i as int], 0);
            assert(s@ =~= stores_text(xs@.take(i as int), slots@) + store_text(xs@[i as int], n));
        }
        assert(xs@.take(i as int + 1).drop_last() =~= xs@.take(i as int));
        i = i + 1;
    }
    assert(xs@.take(i as int) =~= xs@);
    s
}

// ---- entry points ------------------------------------------------------------------------

/// What a function does once it is in.
pub open spec fn inside_text(symbol: Seq<char>, code: CodeView) -> Seq<char> {
    let trap = "return 0.0;"@;
    let body = emit::block_text(code.body, symbol, trap);
    "(|| -> f64 { "@ + loads_text(code.loads, "args"@, trap) + checks_text(code.checks, trap) + (
    if code.returns_nil {
        "{ "@ + body + " 0.0 }"@
    } else {
        body
    }) + " })()"@
}

fn write_inside(symbol: &str, code: &Code) -> (r: String)
    ensures
        r@ == inside_text(symbol@, code@),
{
    let trap = "return 0.0;";
    let body = emit::write_block(&code.body, symbol, trap);
    let mut s = text::owned("(|| -> f64 { ");
    s.append(write_loads(&code.loads, "args", trap).as_str());
    s.append(write_checks(&code.checks, trap).as_str());
    if code.returns_nil {
        let mut whole = text::owned("{ ");
        whole.append(body.as_str());
        whole.append(" 0.0 }");
        s.append(whole.as_str());
    } else {
        s.append(body.as_str());
    }
    s.append(" })()");
    s
}

/// The entry point of a function. One that calls something counts how deep it
/// is, before anything is written, so that leaving there is safe.
pub open spec fn function_text(symbol: Seq<char>, code: CodeView) -> Seq<char> {
    if code.calls {
        "/// # Safety\n/// `args` points at one `RtArg` per parameter, `rt` at the\n/// context built for this function, `ok` at an `i32` that\n/// starts non-zero, and `__ret` at a table pointer this code\n/// writes only if its value is a table it made.\n#[no_mangle]\npub unsafe extern \"C\" fn "@
            + symbol
            + "(args: *const RtArg, rt: *const RtCtx, ok: *mut i32, __ret: *mut *mut c_void) -> f64 { let __depth = (*rt).depth; *__depth += 1; if *__depth > (*rt).max_depth { *__depth -= 1; *ok = 0; return 0.0; } let __out = "@
            + inside_text(symbol, code) + "; *__depth -= 1; __out }\n"@
    } else {
        "/// # Safety\n/// As above, for a function that calls nothing and so cannot\n/// recurse.\n#[no_mangle]\npub unsafe extern \"C\" fn "@
            + symbol
            + "(args: *const RtArg, rt: *const RtCtx, ok: *mut i32, __ret: *mut *mut c_void) -> f64 { "@
            + inside_text(symbol, code) + " }\n"@
    }
}

fn write_function(symbol: &str, code: &Code) -> (r: String)
    ensures
        r@ == function_text(symbol@, code@),
{
    if code.calls {
        let mut s = text::owned(
            "/// # Safety\n/// `args` points at one `RtArg` per parameter, `rt` at the\n/// context built for this function, `ok` at an `i32` that\n/// starts non-zero, and `__ret` at a table pointer this code\n/// writes only if its value is a table it made.\n#[no_mangle]\npub unsafe extern \"C\" fn ",
        );
        s.append(symbol);
        s.append(
            "(args: *const RtArg, rt: *const RtCtx, ok: *mut i32, __ret: *mut *mut c_void) -> f64 { let __depth = (*rt).depth; *__depth += 1; if *__depth > (*rt).max_depth { *__depth -= 1; *ok = 0; return 0.0; } let __out = ",
        );
        s.append(write_inside(symbol, code).as_str());
        s.append("; *__depth -= 1; __out }\n");
        s
    } else {
        let mut s = text::owned(
            "/// # Safety\n/// As above, for a function that calls nothing and so cannot\n/// recurse.\n#[no_mangle]\npub unsafe extern \"C\" fn ",
        );
        s.append(symbol);
        s.append(
            "(args: *const RtArg, rt: *const RtCtx, ok: *mut i32, __ret: *mut *mut c_void) -> f64 { ",
        );
        s.append(write_inside(symbol, code).as_str());
        s.append(" }\n");
        s
    }
}

/// What a loop does, entered at its back edge: a counted one already has its
/// counter, so it is the `while` without the start.
pub open spec fn loop_body_text(x: LoopBody) -> Seq<char> {
    let symbol = ""@;
    let trap = "return;"@;
    match x {
        LoopBody::Count { slot, end, inclusive, label, body } => "let __end: f64 = "@
            + emit::ir_text(end, symbol, trap) + "; while v"@ + text::decimal(slot as nat)
            + emit::until_text(inclusive) + "__end { 'body"@ + text::decimal(label as nat) + ": "@
            + emit::block_text(body, symbol, trap) + " v"@ + text::decimal(slot as nat)
            + " += 1.0; } "@,
        LoopBody::Whole(st) => emit::stat_text(st, symbol, trap),
    }
}

fn write_loop_body(x: &LoopBody) -> (r: String)
    ensures
        r@ == loop_body_text(*x),
{
    let symbol = "";
    let trap = "return;";
    match x {
        LoopBody::Count { slot, end, inclusive, label, body } => {
            let mut s = text::owned("let __end: f64 = ");
            s.append(emit::write_ir(end, symbol, trap).as_str());
            s.append("; while v");
            text::push_decimal(&mut s, *slot as u64);
            s.append(emit::write_until(*inclusive).as_str());
            s.append("__end { 'body");
            text::push_decimal(&mut s, *label as u64);
            s.append(": ");
            s.append(emit::write_block(body, symbol, trap).as_str());
            s.append(" v");
            text::push_decimal(&mut s, *slot as u64);
            s.append(" += 1.0; } ");
            s
        },
        LoopBody::Whole(st) => emit::write_stat(st, symbol, trap),
    }
}

/// The entry point of a loop.
pub open spec fn loop_text(symbol: Seq<char>, unit: LoopView) -> Seq<char> {
    let trap = "return;"@;
    "/// # Safety\n/// `regs` points at one `RtArg` per local this loop uses, `rt` at\n/// the context built for it, and `ok` at an `i32` that starts\n/// non-zero.\n#[no_mangle]\npub unsafe extern \"C\" fn "@
        + symbol + "(regs: *mut RtArg, rt: *const RtCtx, ok: *mut i32) { "@ + loads_text(
        unit.loads,
        "regs"@,
        trap,
    ) + checks_text(unit.checks, trap) + loop_body_text(unit.body) + " "@ + stores_text(
        unit.stores,
        unit.slots,
    ) + "}\n"@
}

fn write_loop(symbol: &str, unit: &LoopUnit) -> (r: String)
    ensures
        r@ == loop_text(symbol@, unit@),
{
    let trap = "return;";
    let mut s = text::owned(
        "/// # Safety\n/// `regs` points at one `RtArg` per local this loop uses, `rt` at\n/// the context built for it, and `ok` at an `i32` that starts\n/// non-zero.\n#[no_mangle]\npub unsafe extern \"C\" fn ",
    );
    s.append(symbol);
    s.append("(regs: *mut RtArg, rt: *const RtCtx, ok: *mut i32) { ");
    s.append(write_loads(&unit.loads, "regs", trap).as_str());
    s.append(write_checks(&unit.checks, trap).as_str());
    s.append(write_loop_body(&unit.body).as_str());
    s.append(" ");
    s.append(write_stores(&unit.stores, &unit.slots).as_str());
    s.append("}\n");
    s
}

// ---- files -------------------------------------------------------------------------------

/// May this stand as the name of a function?
pub open spec fn is_symbol(s: Seq<char>) -> bool {
    &&& s.len() > 0
    &&& (s[0] == '_' || 'a' <= s[0] <= 'z')
    &&& forall|i: int|
        0 <= i < s.len() ==> (#[trigger] s[i] == '_' || 'a' <= s[i] <= 'z' || '0' <= s[i] <= '9')
}

/// Is this a file that was written here: what every file begins with, and one
/// entry point?
pub open spec fn is_written(src: Seq<char>) -> bool {
    ||| exists|symbol: Seq<char>, code: CodeView|
        is_symbol(symbol) && src == PREAMBLE@ + #[trigger] function_text(symbol, code)
    ||| exists|symbol: Seq<char>, unit: LoopView|
        is_symbol(symbol) && src == PREAMBLE@ + #[trigger] loop_text(symbol, unit)
}

/// A Rust file laid out anew, or why it does not parse.
pub uninterp spec fn laid_out(src: Seq<char>) -> Result<Seq<char>, Seq<char>>;

/// `prettyplease::unparse` of the file `syn::parse_file` reads, or the text of
/// the error it reports. Both depend on the text alone. Only files written
/// here are handed over: of an arbitrary file `unparse` may meet syntax that it
/// has no layout for.
#[verifier::external_body]
fn lay_out(src: &str) -> (r: Result<String, String>)
    requires
        is_written(src@),
    ensures
        match r {
            Ok(t) => laid_out(src@) == Ok::<Seq<char>, Seq<char>>(t@),
            Err(e) => laid_out(src@) == Err::<Seq<char>, Seq<char>>(e@),
        },
{
    match syn::parse_file(src) {
        Ok(file) => Ok(prettyplease::unparse(&file)),
        Err(e) => Err(e.to_string()),
    }
}

/// What is made of a file that was laid out, or not.
pub open spec fn file_result(r: Result<Seq<char>, Seq<char>>) -> Result<Seq<char>, Seq<char>> {
    match r {
        Ok(t) => Ok(t),
        Err(e) => Err("generated Rust did not parse: "@ + e),
    }
}

/// The two results of making a text.
pub open spec fn said(r: Result<String, String>) -> Result<Seq<char>, Seq<char>> {
    match r {
        Ok(t) => Ok(t@),
        Err(e) => Err(e@),
    }
}

/// What is made of a file that was laid out, or not.
pub fn take_file(r: Result<String, String>) -> (out: Result<String, String>)
    ensures
        said(out) == file_result(said(r)),
{
    match r {
        Ok(t) => Ok(t),
        Err(e) => Err(text::joined("generated Rust did not parse: ", e.as_str())),
    }
}

/// The file of one function.
pub open spec fn function_file(symbol: Seq<char>, code: CodeView) -> Result<Seq<char>, Seq<char>> {
    file_result(laid_out(PREAMBLE@ + function_text(symbol, code)))
}

fn make_function(symbol: &str, code: &Code) -> (r: Result<String, String>)
    requires
        is_symbol(symbol@),
    ensures
        said(r) == function_file(symbol@, code@),
{
    let src = text::joined(PREAMBLE, write_function(symbol, code).as_str());
    assert(src@ == PREAMBLE@ + function_text(symbol@, code@));
    take_file(lay_out(src.as_str()))
}

/// The name a callee has in the file of its caller.
pub open spec fn beside_symbol(id: usize) -> Seq<char> {
    "rua_inl_"@ + text::decimal(id as nat)
}

proof fn lemma_digits(n: nat)
    ensures
        forall|i: int|
            0 <= i < text::decimal(n).len() ==> '0' <= #[trigger] text::decimal(n)[i] <= '9',
    decreases n,
{
    if n >= 10 {
        lemma_digits(n / 10);
        let d = text::digit(n % 10);
        assert(text::decimal(n) == text::decimal(n / 10).push(d));
        assert('0' <= d <= '9');
        assert forall|i: int| 0 <= i < text::decimal(n).len() implies '0' <= #[trigger] text::decimal(n)[i] <= '9' by {
            if i < text::decimal(n / 10).len() {
                assert(text::decimal(n)[i] == text::decimal(n / 10)[i]);
            }
        }
    } else {
        assert(text::decimal(n) == seq![text::digit(n)]);
    }
}

/// A number put behind a name leaves a name.
pub proof fn lemma_numbered(head: Seq<char>, n: nat)
    requires
        is_symbol(head),
    ensures
        is_symbol(head + text::decimal(n)),
{
    lemma_digits(n);
    let s = head + text::decimal(n);
    assert(s[0] == head[0]);
    assert forall|i: int| 0 <= i < s.len() implies (#[trigger] s[i] == '_' || 'a' <= s[i] <= 'z' || '0'
        <= s[i] <= '9') by {
        if i < head.len() {
            assert(s[i] == head[i]);
        } else {
            assert(s[i] == text::decimal(n)[i - head.len()]);
        }
    }
}

/// The entry points of the callees, without what every file begins with; the
/// first that fails counts.
pub open spec fn besides_text(xs: Seq<(usize, CodeView)>) -> Result<Seq<char>, Seq<char>>
    decreases xs.len(),
{
    if xs.len() == 0 {
        Ok(""@)
    } else {
        match besides_text(xs.drop_last()) {
            Err(e) => Err(e),
            Ok(front) => {
                let symbol = beside_symbol(xs.last().0);
                match function_file(symbol, xs.last().1) {
                    Err(e) => Err(e),
                    Ok(src) => Ok(front + src.skip(session::item_place(src, symbol) as int)),
                }
            },
        }
    }
}

proof fn lemma_besides_stop(xs: Seq<(usize, CodeView)>, i: int)
    requires
        0 <= i <= xs.len(),
        besides_text(xs.take(i)) is Err,
    ensures
        besides_text(xs) == besides_text(xs.take(i)),
    decreases xs.len() - i,
{
    if i < xs.len() {
        assert(xs.take(i + 1).drop_last() =~= xs.take(i));
        lemma_besides_stop(xs, i + 1);
    } else {
        assert(xs.take(i) =~= xs);
    }
}

fn make_besides(xs: &Vec<(usize, Code)>) -> (r: Result<String, String>)
    ensures
        said(r) == besides_text(super::unit::codes(xs@)),
{
    let ghost all = super::unit::codes(xs@);
    let mut out = text::owned("");
    let mut i: usize = 0;
    assert(all.take(0) =~= Seq::empty());
    while i < xs.len()
        invariant
            i <= xs@.len(),
            all == super::unit::codes(xs@),
            besides_text(all.take(i as int)) == Ok::<Seq<char>, Seq<char>>(out@),
        decreases xs@.len() - i,
    {
        let mut symbol = text::owned("rua_inl_");
        text::push_decimal(&mut symbol, xs[i].0 as u64);
        assert(symbol@ == beside_symbol(xs@[i as int].0));
        proof {
            reveal_strlit("rua_inl_");
            lemma_numbered("rua_inl_"@, xs@[i as int].0 as nat);
            assert(all.take(i as int + 1).drop_last() =~= all.take(i as int));
            assert(all.take(i as int + 1).last() == (xs@[i as int].0, xs@[i as int].1@));
        }
        match make_function(symbol.as_str(), &xs[i].1) {
            Ok(src) => {
                out.append(session::item_of(src.as_str(), symbol.as_str()).as_str());
            },
            Err(e) => {
                proof {
                    lemma_besides_stop(all, i as int + 1);
                }
                return Err(e);
            },
        }
        i = i + 1;
    }
    assert(all.take(i as int) =~= all);
    Ok(out)
}

/// A file with the callees just above its entry point.
pub open spec fn with_besides(
    file: Result<Seq<char>, Seq<char>>,
    symbol: Seq<char>,
    beside: Seq<(usize, CodeView)>,
) -> Result<Seq<char>, Seq<char>> {
    match file {
        Err(e) => Err(e),
        Ok(src) => match besides_text(beside) {
            Err(e) => Err(e),
            Ok(extra) => {
                let at = session::item_place(src, symbol) as int;
                Ok(src.take(at) + extra + src.skip(at))
            },
        },
    }
}

fn put_besides(file: Result<String, String>, symbol: &str, beside: &Vec<(usize, Code)>) -> (r:
    Result<String, String>)
    ensures
        said(r) == with_besides(said(file), symbol@, super::unit::codes(beside@)),
{
    match file {
        Err(e) => Err(e),
        Ok(src) => match make_besides(beside) {
            Err(e) => Err(e),
            Ok(extra) => Ok(session::splice_inlined(src.as_str(), symbol, extra.as_str())),
        },
    }
}

/// The file a function is compiled from.
pub open spec fn unit_file(symbol: Seq<char>, unit: UnitView) -> Result<Seq<char>, Seq<char>> {
    with_besides(function_file(symbol, unit.code), symbol, unit.beside)
}

/// The file a function is compiled from, or why there is none.
pub fn function_source(symbol: &str, unit: &Unit) -> (r: Result<String, String>)
    requires
        is_symbol(symbol@),
    ensures
        said(r) == unit_file(symbol@, unit@),
{
    put_besides(make_function(symbol, &unit.code), symbol, &unit.beside)
}

/// A file with no callees beside its entry point is that file alone.
pub proof fn lemma_nothing_beside(file: Result<Seq<char>, Seq<char>>, symbol: Seq<char>)
    ensures
        with_besides(file, symbol, Seq::empty()) == file,
{
    match file {
        Ok(src) => {
            session::lemma_item_place(src, symbol);
            let at = session::item_place(src, symbol) as int;
            reveal_strlit("");
            assert(src.take(at) + ""@ + src.skip(at) =~= src);
        },
        Err(_) => {},
    }
}

/// The file a loop is compiled from.
pub open spec fn loop_file(symbol: Seq<char>, unit: LoopView) -> Result<Seq<char>, Seq<char>> {
    with_besides(
        file_result(laid_out(PREAMBLE@ + loop_text(symbol, unit))),
        symbol,
        unit.beside,
    )
}

/// The file a loop is compiled from, or why there is none.
pub fn loop_source(symbol: &str, unit: &LoopUnit) -> (r: Result<String, String>)
    requires
        is_symbol(symbol@),
    ensures
        said(r) == loop_file(symbol@, unit@),
{
    let src = text::joined(PREAMBLE, write_loop(symbol, unit).as_str());
    assert(src@ == PREAMBLE@ + loop_text(symbol@, unit@));
    put_besides(take_file(lay_out(src.as_str())), symbol, &unit.beside)
}

} // verus!
