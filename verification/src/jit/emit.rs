//! Lowered code, written down as Rust.
//!
//! A local is named after its slot: `v` and the slot for what it holds, `p`
//! and `n` for the view of a table's numbers, `__sp` and `__spn` for the views
//! of an array's elements. A number is written by its bits, so that what is
//! read back is the very same one.
use super::calls;
use super::ir::{
    Cond, Ir, IrArgs, IrArms, IrBlock, IrElse, IrIf, IrList, IrMatch, IrSlots, IrStat,
    IrStats, IrTail, IrValues, MathFn, Store,
};
use crate::ast::BinOp;
use crate::text;
use vstd::prelude::*;

verus! {

// ---- words -------------------------------------------------------------------------------

/// An operator between its operands.
pub open spec fn op_text(x: BinOp) -> Seq<char> {
    match x {
        BinOp::Add => " + "@,
        BinOp::Sub => " - "@,
        BinOp::Mul => " * "@,
        BinOp::Div => " / "@,
        BinOp::Rem => " % "@,
        BinOp::Eq => " == "@,
        BinOp::Ne => " != "@,
        BinOp::Lt => " < "@,
        BinOp::Le => " <= "@,
        BinOp::Gt => " > "@,
        BinOp::Ge => " >= "@,
        BinOp::And => " && "@,
        BinOp::Or => " || "@,
    }
}

fn write_op(x: BinOp) -> (r: String)
    ensures
        r@ == op_text(x),
{
    match x {
        BinOp::Add => text::owned(" + "),
        BinOp::Sub => text::owned(" - "),
        BinOp::Mul => text::owned(" * "),
        BinOp::Div => text::owned(" / "),
        BinOp::Rem => text::owned(" % "),
        BinOp::Eq => text::owned(" == "),
        BinOp::Ne => text::owned(" != "),
        BinOp::Lt => text::owned(" < "),
        BinOp::Le => text::owned(" <= "),
        BinOp::Gt => text::owned(" > "),
        BinOp::Ge => text::owned(" >= "),
        BinOp::And => text::owned(" && "),
        BinOp::Or => text::owned(" || "),
    }
}

/// An operator that updates what is on its left.
pub open spec fn update_text(x: BinOp) -> Seq<char> {
    match x {
        BinOp::Add => " += "@,
        BinOp::Sub => " -= "@,
        BinOp::Mul => " *= "@,
        _ => " /= "@,
    }
}

fn write_update(x: BinOp) -> (r: String)
    ensures
        r@ == update_text(x),
{
    match x {
        BinOp::Add => text::owned(" += "),
        BinOp::Sub => text::owned(" -= "),
        BinOp::Mul => text::owned(" *= "),
        _ => text::owned(" /= "),
    }
}

/// The method that computes a function.
pub open spec fn math_text(x: MathFn) -> Seq<char> {
    match x {
        MathFn::Floor => "floor"@,
        MathFn::Ceil => "ceil"@,
        MathFn::Abs => "abs"@,
        MathFn::Sqrt => "sqrt"@,
        MathFn::Sin => "sin"@,
        MathFn::Cos => "cos"@,
        MathFn::Tan => "tan"@,
        MathFn::Exp => "exp"@,
        MathFn::Ln => "ln"@,
        MathFn::Round => "round"@,
        MathFn::Max => "max"@,
        MathFn::Min => "min"@,
        MathFn::Powf => "powf"@,
    }
}

fn write_math(x: MathFn) -> (r: String)
    ensures
        r@ == math_text(x),
{
    match x {
        MathFn::Floor => text::owned("floor"),
        MathFn::Ceil => text::owned("ceil"),
        MathFn::Abs => text::owned("abs"),
        MathFn::Sqrt => text::owned("sqrt"),
        MathFn::Sin => text::owned("sin"),
        MathFn::Cos => text::owned("cos"),
        MathFn::Tan => text::owned("tan"),
        MathFn::Exp => text::owned("exp"),
        MathFn::Ln => text::owned("ln"),
        MathFn::Round => text::owned("round"),
        MathFn::Max => text::owned("max"),
        MathFn::Min => text::owned("min"),
        MathFn::Powf => text::owned("powf"),
    }
}

/// How the counter of a loop is compared with its end.
pub open spec fn until_text(x: bool) -> Seq<char> {
    match x {
        true => " <= "@,
        false => " < "@,
    }
}

pub fn write_until(x: bool) -> (r: String)
    ensures
        r@ == until_text(x),
{
    match x {
        true => text::owned(" <= "),
        false => text::owned(" < "),
    }
}

/// A number, by its bits.
pub open spec fn number_text(b: u64) -> Seq<char> {
    "f64::from_bits("@ + text::decimal(b as nat) + "u64)"@
}

pub fn write_number(b: u64) -> (r: String)
    ensures
        r@ == number_text(b),
{
    let mut s = text::owned("f64::from_bits(");
    text::push_decimal(&mut s, b);
    s.append("u64)");
    s
}

/// The binding of a match's subject, where an arm has one.
pub open spec fn bind_text(x: Option<u16>) -> Seq<char> {
    match x {
        Some(slot) => "let v"@ + text::decimal(slot as nat) + ": f64 = __m; "@,
        None => ""@,
    }
}

fn write_bind(x: Option<u16>) -> (r: String)
    ensures
        r@ == bind_text(x),
{
    match x {
        Some(slot) => {
            let mut s = text::owned("let v");
            text::push_decimal(&mut s, slot as u64);
            s.append(": f64 = __m; ");
            s
        },
        None => text::owned(""),
    }
}

fn is_end(x: &IrArms) -> (r: bool)
    ensures
        r == (*x is End),
{
    match x {
        IrArms::End => true,
        _ => false,
    }
}

// ---- several values at once --------------------------------------------------------------

/// The slots in order.
pub open spec fn slots_of(x: IrSlots) -> Seq<u16>
    decreases x,
{
    match x {
        IrSlots::End => Seq::empty(),
        IrSlots::Slot(slot, rest) => seq![slot] + slots_of(*rest),
    }
}

fn push_slots(x: &IrSlots, out: &mut Vec<u16>)
    ensures
        final(out)@ == old(out)@ + slots_of(*x),
    decreases x,
{
    match x {
        IrSlots::End => {
            assert(out@ =~= old(out)@ + slots_of(*x));
        },
        IrSlots::Slot(slot, rest) => {
            out.push(*slot);
            push_slots(rest, out);
            assert(out@ =~= old(out)@ + slots_of(*x));
        },
    }
}

fn slot_list(x: &IrSlots) -> (r: Vec<u16>)
    ensures
        r@ == slots_of(*x),
{
    let mut out: Vec<u16> = Vec::new();
    push_slots(x, &mut out);
    assert(out@ =~= slots_of(*x));
    out
}

/// Each value in a local of its own, in order, before anything is bound.
pub open spec fn temps_text(head: Seq<char>, values: Seq<Seq<char>>) -> Seq<char>
    decreases values.len(),
{
    if values.len() == 0 {
        ""@
    } else {
        temps_text(head, values.drop_last()) + head + text::decimal(
            (values.len() - 1) as nat,
        ) + ": f64 = "@ + values.last() + "; "@
    }
}

fn write_temps(head: &str, values: &Vec<String>) -> (r: String)
    ensures
        r@ == temps_text(head@, calls::texts(values@)),
{
    let mut s = text::owned("");
    let mut i: usize = 0;
    while i < values.len()
        invariant
            i <= values@.len(),
            s@ == temps_text(head@, calls::texts(values@).take(i as int)),
        decreases values@.len() - i,
    {
        s.append(head);
        text::push_decimal(&mut s, i as u64);
        s.append(": f64 = ");
        s.append(values[i].as_str());
        s.append("; ");
        proof {
            let all = calls::texts(values@);
            assert(all.take(i as int + 1).drop_last() =~= all.take(i as int));
        }
        i = i + 1;
    }
    assert(calls::texts(values@).take(i as int) =~= calls::texts(values@));
    s
}

/// The locals bound by a `let`, each to the value in its place.
pub open spec fn lets_text(slots: Seq<u16>) -> Seq<char>
    decreases slots.len(),
{
    if slots.len() == 0 {
        ""@
    } else {
        lets_text(slots.drop_last()) + "let mut v"@ + text::decimal(slots.last() as nat)
            + ": f64 = __t"@ + text::decimal((slots.len() - 1) as nat) + "; "@
    }
}

fn write_lets(slots: &Vec<u16>) -> (r: String)
    ensures
        r@ == lets_text(slots@),
{
    let mut s = text::owned("");
    let mut i: usize = 0;
    while i < slots.len()
        invariant
            i <= slots@.len(),
            s@ == lets_text(slots@.take(i as int)),
        decreases slots@.len() - i,
    {
        s.append("let mut v");
        text::push_decimal(&mut s, slots[i] as u64);
        s.append(": f64 = __t");
        text::push_decimal(&mut s, i as u64);
        s.append("; ");
        assert(slots@.take(i as int + 1).drop_last() =~= slots@.take(i as int));
        i = i + 1;
    }
    assert(slots@.take(i as int) =~= slots@);
    s
}

/// The locals an assignment stores to, each the value in its place.
pub open spec fn sets_text(slots: Seq<u16>) -> Seq<char>
    decreases slots.len(),
{
    if slots.len() == 0 {
        ""@
    } else {
        sets_text(slots.drop_last()) + "v"@ + text::decimal(slots.last() as nat) + " = __a"@
            + text::decimal((slots.len() - 1) as nat) + "; "@
    }
}

fn write_sets(slots: &Vec<u16>) -> (r: String)
    ensures
        r@ == sets_text(slots@),
{
    let mut s = text::owned("");
    let mut i: usize = 0;
    while i < slots.len()
        invariant
            i <= slots@.len(),
            s@ == sets_text(slots@.take(i as int)),
        decreases slots@.len() - i,
    {
        s.append("v");
        text::push_decimal(&mut s, slots[i] as u64);
        s.append(" = __a");
        text::push_decimal(&mut s, i as u64);
        s.append("; ");
        assert(slots@.take(i as int + 1).drop_last() =~= slots@.take(i as int));
        i = i + 1;
    }
    assert(slots@.take(i as int) =~= slots@);
    s
}

/// Values in order, conditions held as zero or one.
pub open spec fn value_texts(x: IrValues, symbol: Seq<char>, trap: Seq<char>) -> Seq<Seq<char>>
    decreases x,
{
    match x {
        IrValues::End => Seq::empty(),
        IrValues::Num(a, rest) => seq![ir_text(*a, symbol, trap)] + value_texts(
            *rest,
            symbol,
            trap,
        ),
        IrValues::Flag(c, rest) => seq!["rua_bool("@ + cond_text(*c, symbol, trap) + ")"@]
            + value_texts(*rest, symbol, trap),
    }
}

fn write_values(x: &IrValues, symbol: &str, trap: &str, out: &mut Vec<String>)
    ensures
        calls::texts(final(out)@) == calls::texts(old(out)@) + value_texts(*x, symbol@, trap@),
    decreases x,
{
    let ghost before = calls::texts(out@);
    match x {
        IrValues::End => {
            assert(calls::texts(out@) =~= before + value_texts(*x, symbol@, trap@));
        },
        IrValues::Num(a, rest) => {
            let one = write_ir(a, symbol, trap);
            out.push(one);
            assert(calls::texts(out@) =~= before.push(one@));
            write_values(rest, symbol, trap, out);
            assert(calls::texts(out@) =~= before + value_texts(*x, symbol@, trap@));
        },
        IrValues::Flag(c, rest) => {
            let mut one = text::owned("rua_bool(");
            one.append(write_cond(c, symbol, trap).as_str());
            one.append(")");
            out.push(one);
            assert(calls::texts(out@) =~= before.push(one@));
            write_values(rest, symbol, trap, out);
            assert(calls::texts(out@) =~= before + value_texts(*x, symbol@, trap@));
        },
    }
}

/// A new table filled item by item.
pub open spec fn fill_text(x: IrList, slot: u16, symbol: Seq<char>, trap: Seq<char>) -> Seq<char>
    decreases x,
{
    match x {
        IrList::End => ""@,
        IrList::Item(a, rest) => "unsafe { rua_push(rt, v"@ + text::decimal(slot as nat) + ", "@
            + ir_text(*a, symbol, trap) + ") }; "@ + fill_text(*rest, slot, symbol, trap),
    }
}

fn write_fill(x: &IrList, slot: u16, symbol: &str, trap: &str) -> (r: String)
    ensures
        r@ == fill_text(*x, slot, symbol@, trap@),
    decreases x,
{
    match x {
        IrList::End => text::owned(""),
        IrList::Item(a, rest) => {
            let mut s = text::owned("unsafe { rua_push(rt, v");
            text::push_decimal(&mut s, slot as u64);
            s.append(", ");
            s.append(write_ir(a, symbol, trap).as_str());
            s.append(") }; ");
            s.append(write_fill(rest, slot, symbol, trap).as_str());
            s
        },
    }
}

// ---- code --------------------------------------------------------------------------------

/// A number, as an expression.
pub open spec fn ir_text(x: Ir, symbol: Seq<char>, trap: Seq<char>) -> Seq<char>
    decreases x,
{
    match x {
        Ir::Num(b) => number_text(b),
        Ir::Local(slot) => "v"@ + text::decimal(slot as nat),
        Ir::Neg(a) => "(-("@ + ir_text(*a, symbol, trap) + "))"@,
        Ir::Bin(op, a, b) => if op == BinOp::Rem {
            "rua_rem("@ + ir_text(*a, symbol, trap) + ", "@ + ir_text(*b, symbol, trap)
            + ")"@
        } else {
            "("@ + ir_text(*a, symbol, trap) + op_text(op) + ir_text(*b, symbol, trap)
            + ")"@
        },
        Ir::Math(f, a, rest) => "("@ + ir_text(*a, symbol, trap) + ")."@ + math_text(f) + "("@
            + list_text(*rest, symbol, trap) + ")"@,
        Ir::Block(b) => block_text(*b, symbol, trap),
        Ir::If(i) => if_text(*i, symbol, trap),
        Ir::Match(m) => match_text(*m, symbol, trap),
        Ir::Read { slot, key, proven } => if proven {
            "unsafe { *p"@ + text::decimal(slot as nat) + ".add(rua_idx("@
            + ir_text(*key, symbol, trap) + ")) }"@
        } else {
            "{ let __i = "@ + ir_text(*key, symbol, trap)
            + "; let __k = rua_trunc(__i); let __u = __k as usize; if __u >= n"@
            + text::decimal(slot as nat) + " || (__k as f64) != __i { unsafe { *ok = 0; } "@
            + trap + " } unsafe { *p"@ + text::decimal(slot as nat) + ".add(__u) } }"@
        },
        Ir::Element { slot, key, proven, inner } => if proven {
            "{ let __e = unsafe { *__sp"@ + text::decimal(slot as nat) + ".add(rua_idx("@
            + ir_text(*key, symbol, trap) + ")) }; let __j = "@
            + ir_text(*inner, symbol, trap)
            + "; let __jk = rua_trunc(__j); let __u = __jk as usize; if __u >= __e.len || (__jk as f64) != __j { unsafe { *ok = 0; } "@
            + trap + " } unsafe { *__e.ptr.add(__u) } }"@
        } else {
            "{ let __k = "@ + ir_text(*key, symbol, trap)
            + "; let __kk = rua_trunc(__k); let __ku = __kk as usize; if __ku >= __spn"@
            + text::decimal(slot as nat)
            + " || (__kk as f64) != __k { unsafe { *ok = 0; } "@ + trap
            + " } let __e = unsafe { *__sp"@ + text::decimal(slot as nat)
            + ".add(__ku) }; let __j = "@ + ir_text(*inner, symbol, trap)
            + "; let __jk = rua_trunc(__j); let __u = __jk as usize; if __u >= __e.len || (__jk as f64) != __j { unsafe { *ok = 0; } "@
            + trap + " } unsafe { *__e.ptr.add(__u) } }"@
        },
        Ir::Len(slot) => "(n"@ + text::decimal(slot as nat) + " as f64)"@,
        Ir::AskLen(slot) => "{ let __v = unsafe { rua_len(rt, v"@ + text::decimal(slot as nat)
            + ", ok) }; if unsafe { *ok } == 0 { "@ + trap + " } __v }"@,
        Ir::Push(slot, a) => "{ unsafe { rua_push(rt, v"@ + text::decimal(slot as nat) + ", "@
            + ir_text(*a, symbol, trap) + ") }; 0.0 }"@,
        Ir::PushTable(slot, e) => "{ unsafe { rua_push_table(rt, v"@ + text::decimal(slot as nat) + ", v"@
            + text::decimal(e as nat) + ") }; 0.0 }"@,
        Ir::CallSelf(a) => "{ let __args = ["@ + args_text(*a, symbol, trap) + "]; let __r = unsafe { "@
            + symbol
            + "(__args.as_ptr(), rt, ok, std::ptr::null_mut()) }; if unsafe { *ok } == 0 { "@
            + trap + " } __r }"@,
        Ir::CallBeside(id, a) => "{ let __args = ["@ + args_text(*a, symbol, trap)
            + "]; let __r = unsafe { rua_inl_"@ + text::decimal(id as nat)
            + "(__args.as_ptr(), rt, ok, std::ptr::null_mut()) }; if unsafe { *ok } == 0 { "@
            + trap + " } __r }"@,
        Ir::CallThrough(at, a) => "{ let __c = unsafe { *(*rt).callees.add("@ + text::decimal(at as nat)
            + "usize) }; let __f: unsafe extern \"C\" fn(*const RtArg, *const RtCtx, *mut i32, *mut *mut c_void) -> f64 = unsafe { std::mem::transmute(__c.entry as *const ()) }; let __args = ["@
            + args_text(*a, symbol, trap)
            + "]; let __r = unsafe { __f(__args.as_ptr(), __c.ctx, ok, std::ptr::null_mut()) }; if unsafe { *ok } == 0 { "@
            + trap + " } __r }"@,
    }
}

pub fn write_ir(x: &Ir, symbol: &str, trap: &str) -> (r: String)
    ensures
        r@ == ir_text(*x, symbol@, trap@),
    decreases x,
{
    match x {
        Ir::Num(b) => {
            write_number(*b)
        },
        Ir::Local(slot) => {
            let mut s = text::owned("v");
            text::push_decimal(&mut s, *slot as u64);
            s
        },
        Ir::Neg(a) => {
            let mut s = text::owned("(-(");
            s.append(write_ir(a, symbol, trap).as_str());
            s.append("))");
            s
        },
        Ir::Bin(op, a, b) => {
            if *op == BinOp::Rem {
                let mut s = text::owned("rua_rem(");
                s.append(write_ir(a, symbol, trap).as_str());
                s.append(", ");
                s.append(write_ir(b, symbol, trap).as_str());
                s.append(")");
                s
            } else {
                let mut s = text::owned("(");
                s.append(write_ir(a, symbol, trap).as_str());
                s.append(write_op(*op).as_str());
                s.append(write_ir(b, symbol, trap).as_str());
                s.append(")");
                s
            }
        },
        Ir::Math(f, a, rest) => {
            let mut s = text::owned("(");
            s.append(write_ir(a, symbol, trap).as_str());
            s.append(").");
            s.append(write_math(*f).as_str());
            s.append("(");
            s.append(write_list(rest, symbol, trap).as_str());
            s.append(")");
            s
        },
        Ir::Block(b) => {
            write_block(b, symbol, trap)
        },
        Ir::If(i) => {
            write_if(i, symbol, trap)
        },
        Ir::Match(m) => {
            write_match(m, symbol, trap)
        },
        Ir::Read { slot, key, proven } => {
            if *proven {
                let mut s = text::owned("unsafe { *p");
                text::push_decimal(&mut s, *slot as u64);
                s.append(".add(rua_idx(");
                s.append(write_ir(key, symbol, trap).as_str());
                s.append(")) }");
                s
            } else {
                let mut s = text::owned("{ let __i = ");
                s.append(write_ir(key, symbol, trap).as_str());
                s.append("; let __k = rua_trunc(__i); let __u = __k as usize; if __u >= n");
                text::push_decimal(&mut s, *slot as u64);
                s.append(" || (__k as f64) != __i { unsafe { *ok = 0; } ");
                s.append(trap);
                s.append(" } unsafe { *p");
                text::push_decimal(&mut s, *slot as u64);
                s.append(".add(__u) } }");
                s
            }
        },
        Ir::Element { slot, key, proven, inner } => {
            if *proven {
                let mut s = text::owned("{ let __e = unsafe { *__sp");
                text::push_decimal(&mut s, *slot as u64);
                s.append(".add(rua_idx(");
                s.append(write_ir(key, symbol, trap).as_str());
                s.append(")) }; let __j = ");
                s.append(write_ir(inner, symbol, trap).as_str());
                s.append("; let __jk = rua_trunc(__j); let __u = __jk as usize; if __u >= __e.len || (__jk as f64) != __j { unsafe { *ok = 0; } ");
                s.append(trap);
                s.append(" } unsafe { *__e.ptr.add(__u) } }");
                s
            } else {
                let mut s = text::owned("{ let __k = ");
                s.append(write_ir(key, symbol, trap).as_str());
                s.append("; let __kk = rua_trunc(__k); let __ku = __kk as usize; if __ku >= __spn");
                text::push_decimal(&mut s, *slot as u64);
                s.append(" || (__kk as f64) != __k { unsafe { *ok = 0; } ");
                s.append(trap);
                s.append(" } let __e = unsafe { *__sp");
                text::push_decimal(&mut s, *slot as u64);
                s.append(".add(__ku) }; let __j = ");
                s.append(write_ir(inner, symbol, trap).as_str());
                s.append("; let __jk = rua_trunc(__j); let __u = __jk as usize; if __u >= __e.len || (__jk as f64) != __j { unsafe { *ok = 0; } ");
                s.append(trap);
                s.append(" } unsafe { *__e.ptr.add(__u) } }");
                s
            }
        },
        Ir::Len(slot) => {
            let mut s = text::owned("(n");
            text::push_decimal(&mut s, *slot as u64);
            s.append(" as f64)");
            s
        },
        Ir::AskLen(slot) => {
            let mut s = text::owned("{ let __v = unsafe { rua_len(rt, v");
            text::push_decimal(&mut s, *slot as u64);
            s.append(", ok) }; if unsafe { *ok } == 0 { ");
            s.append(trap);
            s.append(" } __v }");
            s
        },
        Ir::Push(slot, a) => {
            let mut s = text::owned("{ unsafe { rua_push(rt, v");
            text::push_decimal(&mut s, *slot as u64);
            s.append(", ");
            s.append(write_ir(a, symbol, trap).as_str());
            s.append(") }; 0.0 }");
            s
        },
        Ir::PushTable(slot, e) => {
            let mut s = text::owned("{ unsafe { rua_push_table(rt, v");
            text::push_decimal(&mut s, *slot as u64);
            s.append(", v");
            text::push_decimal(&mut s, *e as u64);
            s.append(") }; 0.0 }");
            s
        },
        Ir::CallSelf(a) => {
            let mut s = text::owned("{ let __args = [");
            s.append(write_args(a, symbol, trap).as_str());
            s.append("]; let __r = unsafe { ");
            s.append(symbol);
            s.append("(__args.as_ptr(), rt, ok, std::ptr::null_mut()) }; if unsafe { *ok } == 0 { ");
            s.append(trap);
            s.append(" } __r }");
            s
        },
        Ir::CallBeside(id, a) => {
            let mut s = text::owned("{ let __args = [");
            s.append(write_args(a, symbol, trap).as_str());
            s.append("]; let __r = unsafe { rua_inl_");
            text::push_decimal(&mut s, *id as u64);
            s.append("(__args.as_ptr(), rt, ok, std::ptr::null_mut()) }; if unsafe { *ok } == 0 { ");
            s.append(trap);
            s.append(" } __r }");
            s
        },
        Ir::CallThrough(at, a) => {
            let mut s = text::owned("{ let __c = unsafe { *(*rt).callees.add(");
            text::push_decimal(&mut s, *at as u64);
            s.append("usize) }; let __f: unsafe extern \"C\" fn(*const RtArg, *const RtCtx, *mut i32, *mut *mut c_void) -> f64 = unsafe { std::mem::transmute(__c.entry as *const ()) }; let __args = [");
            s.append(write_args(a, symbol, trap).as_str());
            s.append("]; let __r = unsafe { __f(__args.as_ptr(), __c.ctx, ok, std::ptr::null_mut()) }; if unsafe { *ok } == 0 { ");
            s.append(trap);
            s.append(" } __r }");
            s
        },
    }
}

/// A condition, as an expression.
pub open spec fn cond_text(x: Cond, symbol: Seq<char>, trap: Seq<char>) -> Seq<char>
    decreases x,
{
    match x {
        Cond::Lit(b) => if b {
            "true"@
        } else {
            "false"@
        },
        Cond::Compare(op, a, b) => "("@ + ir_text(*a, symbol, trap) + op_text(op) + ir_text(*b, symbol, trap)
            + ")"@,
        Cond::And(a, b) => "("@ + cond_text(*a, symbol, trap) + " && "@ + cond_text(*b, symbol, trap)
            + ")"@,
        Cond::Or(a, b) => "("@ + cond_text(*a, symbol, trap) + " || "@ + cond_text(*b, symbol, trap)
            + ")"@,
        Cond::Not(a) => "(!"@ + cond_text(*a, symbol, trap) + ")"@,
        Cond::Flag(slot) => "(v"@ + text::decimal(slot as nat) + " != 0.0)"@,
        Cond::Subject(a) => "(__m == "@ + ir_text(*a, symbol, trap) + ")"@,
    }
}

fn write_cond(x: &Cond, symbol: &str, trap: &str) -> (r: String)
    ensures
        r@ == cond_text(*x, symbol@, trap@),
    decreases x,
{
    match x {
        Cond::Lit(b) => {
            if *b {
                text::owned("true")
            } else {
                text::owned("false")
            }
        },
        Cond::Compare(op, a, b) => {
            let mut s = text::owned("(");
            s.append(write_ir(a, symbol, trap).as_str());
            s.append(write_op(*op).as_str());
            s.append(write_ir(b, symbol, trap).as_str());
            s.append(")");
            s
        },
        Cond::And(a, b) => {
            let mut s = text::owned("(");
            s.append(write_cond(a, symbol, trap).as_str());
            s.append(" && ");
            s.append(write_cond(b, symbol, trap).as_str());
            s.append(")");
            s
        },
        Cond::Or(a, b) => {
            let mut s = text::owned("(");
            s.append(write_cond(a, symbol, trap).as_str());
            s.append(" || ");
            s.append(write_cond(b, symbol, trap).as_str());
            s.append(")");
            s
        },
        Cond::Not(a) => {
            let mut s = text::owned("(!");
            s.append(write_cond(a, symbol, trap).as_str());
            s.append(")");
            s
        },
        Cond::Flag(slot) => {
            let mut s = text::owned("(v");
            text::push_decimal(&mut s, *slot as u64);
            s.append(" != 0.0)");
            s
        },
        Cond::Subject(a) => {
            let mut s = text::owned("(__m == ");
            s.append(write_ir(a, symbol, trap).as_str());
            s.append(")");
            s
        },
    }
}

/// Numbers with commas between them.
pub open spec fn list_text(x: IrList, symbol: Seq<char>, trap: Seq<char>) -> Seq<char>
    decreases x,
{
    match x {
        IrList::End => ""@,
        IrList::Item(a, rest) => ir_text(*a, symbol, trap) + ", "@ + list_text(*rest, symbol, trap),
    }
}

fn write_list(x: &IrList, symbol: &str, trap: &str) -> (r: String)
    ensures
        r@ == list_text(*x, symbol@, trap@),
    decreases x,
{
    match x {
        IrList::End => {
            text::owned("")
        },
        IrList::Item(a, rest) => {
            let mut s = write_ir(a, symbol, trap);
            s.append(", ");
            s.append(write_list(rest, symbol, trap).as_str());
            s
        },
    }
}

/// Arguments, as the cells that carry them.
pub open spec fn args_text(x: IrArgs, symbol: Seq<char>, trap: Seq<char>) -> Seq<char>
    decreases x,
{
    match x {
        IrArgs::End => ""@,
        IrArgs::Num(a, rest) => "RtArg { num: "@ + ir_text(*a, symbol, trap)
            + ", table: std::ptr::null_mut() }, "@ + args_text(*rest, symbol, trap),
        IrArgs::Table(slot, rest) => "RtArg { num: 0.0, table: v"@ + text::decimal(slot as nat) + " }, "@
            + args_text(*rest, symbol, trap),
    }
}

fn write_args(x: &IrArgs, symbol: &str, trap: &str) -> (r: String)
    ensures
        r@ == args_text(*x, symbol@, trap@),
    decreases x,
{
    match x {
        IrArgs::End => {
            text::owned("")
        },
        IrArgs::Num(a, rest) => {
            let mut s = text::owned("RtArg { num: ");
            s.append(write_ir(a, symbol, trap).as_str());
            s.append(", table: std::ptr::null_mut() }, ");
            s.append(write_args(rest, symbol, trap).as_str());
            s
        },
        IrArgs::Table(slot, rest) => {
            let mut s = text::owned("RtArg { num: 0.0, table: v");
            text::push_decimal(&mut s, *slot as u64);
            s.append(" }, ");
            s.append(write_args(rest, symbol, trap).as_str());
            s
        },
    }
}

/// Statements in order.
pub open spec fn stats_text(x: IrStats, symbol: Seq<char>, trap: Seq<char>) -> Seq<char>
    decreases x,
{
    match x {
        IrStats::End => ""@,
        IrStats::Then(a, rest) => stat_text(*a, symbol, trap) + " "@ + stats_text(*rest, symbol, trap),
    }
}

fn write_stats(x: &IrStats, symbol: &str, trap: &str) -> (r: String)
    ensures
        r@ == stats_text(*x, symbol@, trap@),
    decreases x,
{
    match x {
        IrStats::End => {
            text::owned("")
        },
        IrStats::Then(a, rest) => {
            let mut s = write_stat(a, symbol, trap);
            s.append(" ");
            s.append(write_stats(rest, symbol, trap).as_str());
            s
        },
    }
}

/// What a block ends in.
pub open spec fn tail_text(x: IrTail, symbol: Seq<char>, trap: Seq<char>) -> Seq<char>
    decreases x,
{
    match x {
        IrTail::Nothing => ""@,
        IrTail::Value(a) => ir_text(*a, symbol, trap),
        IrTail::Unit(a) => stat_text(*a, symbol, trap),
        IrTail::Table(slot) => "{ unsafe { *__ret = v"@ + text::decimal(slot as nat) + "; } 0.0 }"@,
    }
}

fn write_tail(x: &IrTail, symbol: &str, trap: &str) -> (r: String)
    ensures
        r@ == tail_text(*x, symbol@, trap@),
    decreases x,
{
    match x {
        IrTail::Nothing => {
            text::owned("")
        },
        IrTail::Value(a) => {
            write_ir(a, symbol, trap)
        },
        IrTail::Unit(a) => {
            write_stat(a, symbol, trap)
        },
        IrTail::Table(slot) => {
            let mut s = text::owned("{ unsafe { *__ret = v");
            text::push_decimal(&mut s, *slot as u64);
            s.append("; } 0.0 }");
            s
        },
    }
}

/// What follows the body of an `if`.
pub open spec fn else_text(x: IrElse, symbol: Seq<char>, trap: Seq<char>) -> Seq<char>
    decreases x,
{
    match x {
        IrElse::Nothing => ""@,
        IrElse::Block(b) => " else "@ + block_text(*b, symbol, trap),
        IrElse::If(i) => " else "@ + if_text(*i, symbol, trap),
    }
}

fn write_else(x: &IrElse, symbol: &str, trap: &str) -> (r: String)
    ensures
        r@ == else_text(*x, symbol@, trap@),
    decreases x,
{
    match x {
        IrElse::Nothing => {
            text::owned("")
        },
        IrElse::Block(b) => {
            let mut s = text::owned(" else ");
            s.append(write_block(b, symbol, trap).as_str());
            s
        },
        IrElse::If(i) => {
            let mut s = text::owned(" else ");
            s.append(write_if(i, symbol, trap).as_str());
            s
        },
    }
}

/// The arms of a match, as a chain of tests.
pub open spec fn arms_text(x: IrArms, symbol: Seq<char>, trap: Seq<char>) -> Seq<char>
    decreases x,
{
    match x {
        IrArms::End => ""@,
        IrArms::Always { bind, body } => "{ "@ + bind_text(bind) + block_text(*body, symbol, trap) + " }"@,
        IrArms::Test { bind, cond, body, rest } => if *rest is End {
            "{ "@ + bind_text(bind) + "if "@ + cond_text(*cond, symbol, trap) + " "@
            + block_text(*body, symbol, trap) + " }"@
        } else {
            "{ "@ + bind_text(bind) + "if "@ + cond_text(*cond, symbol, trap) + " "@
            + block_text(*body, symbol, trap) + " else "@ + arms_text(*rest, symbol, trap)
            + " }"@
        },
    }
}

fn write_arms(x: &IrArms, symbol: &str, trap: &str) -> (r: String)
    ensures
        r@ == arms_text(*x, symbol@, trap@),
    decreases x,
{
    match x {
        IrArms::End => {
            text::owned("")
        },
        IrArms::Always { bind, body } => {
            let mut s = text::owned("{ ");
            s.append(write_bind(*bind).as_str());
            s.append(write_block(body, symbol, trap).as_str());
            s.append(" }");
            s
        },
        IrArms::Test { bind, cond, body, rest } => {
            if is_end(rest) {
                let mut s = text::owned("{ ");
                s.append(write_bind(*bind).as_str());
                s.append("if ");
                s.append(write_cond(cond, symbol, trap).as_str());
                s.append(" ");
                s.append(write_block(body, symbol, trap).as_str());
                s.append(" }");
                s
            } else {
                let mut s = text::owned("{ ");
                s.append(write_bind(*bind).as_str());
                s.append("if ");
                s.append(write_cond(cond, symbol, trap).as_str());
                s.append(" ");
                s.append(write_block(body, symbol, trap).as_str());
                s.append(" else ");
                s.append(write_arms(rest, symbol, trap).as_str());
                s.append(" }");
                s
            }
        },
    }
}

/// A block.
pub open spec fn block_text(x: IrBlock, symbol: Seq<char>, trap: Seq<char>) -> Seq<char>
    decreases x,
{
    "{ "@ + stats_text(x.stats, symbol, trap) + tail_text(x.tail, symbol, trap)
            + " }"@
}

pub fn write_block(x: &IrBlock, symbol: &str, trap: &str) -> (r: String)
    ensures
        r@ == block_text(*x, symbol@, trap@),
    decreases x,
{
    let mut s = text::owned("{ ");
    s.append(write_stats(&x.stats, symbol, trap).as_str());
    s.append(write_tail(&x.tail, symbol, trap).as_str());
    s.append(" }");
    s
}

/// An `if` and what follows it.
pub open spec fn if_text(x: IrIf, symbol: Seq<char>, trap: Seq<char>) -> Seq<char>
    decreases x,
{
    "if "@ + cond_text(x.cond, symbol, trap) + " "@
            + block_text(x.body, symbol, trap) + else_text(x.rest, symbol, trap)
}

fn write_if(x: &IrIf, symbol: &str, trap: &str) -> (r: String)
    ensures
        r@ == if_text(*x, symbol@, trap@),
    decreases x,
{
    let mut s = text::owned("if ");
    s.append(write_cond(&x.cond, symbol, trap).as_str());
    s.append(" ");
    s.append(write_block(&x.body, symbol, trap).as_str());
    s.append(write_else(&x.rest, symbol, trap).as_str());
    s
}

/// A match: its subject once, and the chain of its arms.
pub open spec fn match_text(x: IrMatch, symbol: Seq<char>, trap: Seq<char>) -> Seq<char>
    decreases x,
{
    "{ let __m: f64 = "@ + ir_text(x.subject, symbol, trap) + "; "@
            + arms_text(x.arms, symbol, trap) + " }"@
}

fn write_match(x: &IrMatch, symbol: &str, trap: &str) -> (r: String)
    ensures
        r@ == match_text(*x, symbol@, trap@),
    decreases x,
{
    let mut s = text::owned("{ let __m: f64 = ");
    s.append(write_ir(&x.subject, symbol, trap).as_str());
    s.append("; ");
    s.append(write_arms(&x.arms, symbol, trap).as_str());
    s.append(" }");
    s
}

/// A statement.
pub open spec fn stat_text(x: IrStat, symbol: Seq<char>, trap: Seq<char>) -> Seq<char>
    decreases x,
{
    match x {
        IrStat::Skip => ""@,
        IrStat::LetElement { slot, outer, key, min } => "let mut n"@ + text::decimal(slot as nat) + ": usize = 0; let v"@
            + text::decimal(slot as nat)
            + ": *mut c_void = std::ptr::null_mut(); let mut p"@
            + text::decimal(slot as nat)
            + ": *mut f64 = std::ptr::null_mut(); { let __k = "@
            + ir_text(key, symbol, trap)
            + "; let __kk = rua_trunc(__k); let __u = __kk as usize; if __u >= __spn"@
            + text::decimal(outer as nat)
            + " || (__kk as f64) != __k { unsafe { *ok = 0; } } else { let __e = unsafe { *__sp"@
            + text::decimal(outer as nat) + ".add(__u) }; p"@ + text::decimal(slot as nat)
            + " = __e.ptr; n"@ + text::decimal(slot as nat)
            + " = __e.len; } } if unsafe { *ok } == 0 || n"@ + text::decimal(slot as nat)
            + " < "@ + text::decimal(min as nat) + "usize { unsafe { *ok = 0; } "@ + trap
            + " }"@,
        IrStat::LetTable { slot, items } => "let v"@ + text::decimal(slot as nat)
            + ": *mut c_void = unsafe { rua_new_table(rt) }; "@ + fill_text(items, slot, symbol, trap),
        IrStat::Let { values, slots } => temps_text("let __t"@, value_texts(values, symbol, trap)) + lets_text(slots_of(slots)),
        IrStat::Assign { values, slots } => temps_text("let __a"@, value_texts(values, symbol, trap)) + sets_text(slots_of(slots)),
        IrStat::Write { slot, key, value, how } => if how == Store::Proven {
            "unsafe { *p"@ + text::decimal(slot as nat) + ".add(rua_idx("@
            + ir_text(key, symbol, trap) + ")) = "@ + ir_text(value, symbol, trap) + "; }"@
        } else if how == Store::Tested {
            "{ let __i = "@ + ir_text(key, symbol, trap)
            + "; let __k = rua_trunc(__i); let __u = __k as usize; let __v = "@
            + ir_text(value, symbol, trap) + "; if __u >= n"@ + text::decimal(slot as nat)
            + " || (__k as f64) != __i { unsafe { *ok = 0; } "@ + trap + " } unsafe { *p"@
            + text::decimal(slot as nat) + ".add(__u) = __v; } }"@
        } else {
            "unsafe { rua_set(rt, v"@ + text::decimal(slot as nat) + ", "@
            + ir_text(key, symbol, trap) + ", "@ + ir_text(value, symbol, trap)
            + ", ok) }; if unsafe { *ok } == 0 { "@ + trap + " }"@
        },
        IrStat::Update(op, slot, a) => if op == BinOp::Rem {
            "v"@ + text::decimal(slot as nat) + " = rua_rem(v"@ + text::decimal(slot as nat)
            + ", "@ + ir_text(a, symbol, trap) + ");"@
        } else {
            "v"@ + text::decimal(slot as nat) + update_text(op) + ir_text(a, symbol, trap)
            + ";"@
        },
        IrStat::Return(None) => "return 0.0;"@,
        IrStat::Return(Some(a)) => "return "@ + ir_text(a, symbol, trap) + ";"@,
        IrStat::ReturnTable(slot) => "unsafe { *__ret = v"@ + text::decimal(slot as nat) + "; } return 0.0;"@,
        IrStat::Break => "break;"@,
        IrStat::Continue => "continue;"@,
        IrStat::Leave(label) => "break 'body"@ + text::decimal(label as nat) + ";"@,
        IrStat::While(c, b) => "while "@ + cond_text(c, symbol, trap) + " "@ + block_text(b, symbol, trap),
        IrStat::Loop(b) => "loop "@ + block_text(b, symbol, trap),
        IrStat::For { slot, start, end, inclusive, label, body } => "{ let __end: f64 = "@ + ir_text(end, symbol, trap) + "; let mut v"@
            + text::decimal(slot as nat) + ": f64 = "@ + ir_text(start, symbol, trap)
            + "; while v"@ + text::decimal(slot as nat) + until_text(inclusive)
            + "__end { 'body"@ + text::decimal(label as nat) + ": "@
            + block_text(body, symbol, trap) + " v"@ + text::decimal(slot as nat)
            + " += 1.0; } }"@,
        IrStat::Discard(a) => "let _ = "@ + ir_text(a, symbol, trap) + ";"@,
        IrStat::Block(b) => block_text(b, symbol, trap),
        IrStat::If(i) => if_text(i, symbol, trap),
        IrStat::Match(m) => match_text(m, symbol, trap),
    }
}

pub fn write_stat(x: &IrStat, symbol: &str, trap: &str) -> (r: String)
    ensures
        r@ == stat_text(*x, symbol@, trap@),
    decreases x,
{
    match x {
        IrStat::Skip => {
            text::owned("")
        },
        IrStat::LetElement { slot, outer, key, min } => {
            let mut s = text::owned("let mut n");
            text::push_decimal(&mut s, *slot as u64);
            s.append(": usize = 0; let v");
            text::push_decimal(&mut s, *slot as u64);
            s.append(": *mut c_void = std::ptr::null_mut(); let mut p");
            text::push_decimal(&mut s, *slot as u64);
            s.append(": *mut f64 = std::ptr::null_mut(); { let __k = ");
            s.append(write_ir(key, symbol, trap).as_str());
            s.append("; let __kk = rua_trunc(__k); let __u = __kk as usize; if __u >= __spn");
            text::push_decimal(&mut s, *outer as u64);
            s.append(" || (__kk as f64) != __k { unsafe { *ok = 0; } } else { let __e = unsafe { *__sp");
            text::push_decimal(&mut s, *outer as u64);
            s.append(".add(__u) }; p");
            text::push_decimal(&mut s, *slot as u64);
            s.append(" = __e.ptr; n");
            text::push_decimal(&mut s, *slot as u64);
            s.append(" = __e.len; } } if unsafe { *ok } == 0 || n");
            text::push_decimal(&mut s, *slot as u64);
            s.append(" < ");
            text::push_decimal(&mut s, *min as u64);
            s.append("usize { unsafe { *ok = 0; } ");
            s.append(trap);
            s.append(" }");
            s
        },
        IrStat::LetTable { slot, items } => {
            let mut s = text::owned("let v");
            text::push_decimal(&mut s, *slot as u64);
            s.append(": *mut c_void = unsafe { rua_new_table(rt) }; ");
            s.append(write_fill(items, *slot, symbol, trap).as_str());
            s
        },
        IrStat::Let { values, slots } => {
            let mut all: Vec<String> = Vec::new();
            write_values(values, symbol, trap, &mut all);
            let mut s = write_temps("let __t", &all);
            s.append(write_lets(&slot_list(slots)).as_str());
            s
        },
        IrStat::Assign { values, slots } => {
            let mut all: Vec<String> = Vec::new();
            write_values(values, symbol, trap, &mut all);
            let mut s = write_temps("let __a", &all);
            s.append(write_sets(&slot_list(slots)).as_str());
            s
        },
        IrStat::Write { slot, key, value, how } => {
            if *how == Store::Proven {
                let mut s = text::owned("unsafe { *p");
                text::push_decimal(&mut s, *slot as u64);
                s.append(".add(rua_idx(");
                s.append(write_ir(key, symbol, trap).as_str());
                s.append(")) = ");
                s.append(write_ir(value, symbol, trap).as_str());
                s.append("; }");
                s
            } else if *how == Store::Tested {
                let mut s = text::owned("{ let __i = ");
                s.append(write_ir(key, symbol, trap).as_str());
                s.append("; let __k = rua_trunc(__i); let __u = __k as usize; let __v = ");
                s.append(write_ir(value, symbol, trap).as_str());
                s.append("; if __u >= n");
                text::push_decimal(&mut s, *slot as u64);
                s.append(" || (__k as f64) != __i { unsafe { *ok = 0; } ");
                s.append(trap);
                s.append(" } unsafe { *p");
                text::push_decimal(&mut s, *slot as u64);
                s.append(".add(__u) = __v; } }");
                s
            } else {
                let mut s = text::owned("unsafe { rua_set(rt, v");
                text::push_decimal(&mut s, *slot as u64);
                s.append(", ");
                s.append(write_ir(key, symbol, trap).as_str());
                s.append(", ");
                s.append(write_ir(value, symbol, trap).as_str());
                s.append(", ok) }; if unsafe { *ok } == 0 { ");
                s.append(trap);
                s.append(" }");
                s
            }
        },
        IrStat::Update(op, slot, a) => {
            if *op == BinOp::Rem {
                let mut s = text::owned("v");
                text::push_decimal(&mut s, *slot as u64);
                s.append(" = rua_rem(v");
                text::push_decimal(&mut s, *slot as u64);
                s.append(", ");
                s.append(write_ir(a, symbol, trap).as_str());
                s.append(");");
                s
            } else {
                let mut s = text::owned("v");
                text::push_decimal(&mut s, *slot as u64);
                s.append(write_update(*op).as_str());
                s.append(write_ir(a, symbol, trap).as_str());
                s.append(";");
                s
            }
        },
        IrStat::Return(None) => {
            text::owned("return 0.0;")
        },
        IrStat::Return(Some(a)) => {
            let mut s = text::owned("return ");
            s.append(write_ir(a, symbol, trap).as_str());
            s.append(";");
            s
        },
        IrStat::ReturnTable(slot) => {
            let mut s = text::owned("unsafe { *__ret = v");
            text::push_decimal(&mut s, *slot as u64);
            s.append("; } return 0.0;");
            s
        },
        IrStat::Break => {
            text::owned("break;")
        },
        IrStat::Continue => {
            text::owned("continue;")
        },
        IrStat::Leave(label) => {
            let mut s = text::owned("break 'body");
            text::push_decimal(&mut s, *label as u64);
            s.append(";");
            s
        },
        IrStat::While(c, b) => {
            let mut s = text::owned("while ");
            s.append(write_cond(c, symbol, trap).as_str());
            s.append(" ");
            s.append(write_block(b, symbol, trap).as_str());
            s
        },
        IrStat::Loop(b) => {
            let mut s = text::owned("loop ");
            s.append(write_block(b, symbol, trap).as_str());
            s
        },
        IrStat::For { slot, start, end, inclusive, label, body } => {
            let mut s = text::owned("{ let __end: f64 = ");
            s.append(write_ir(end, symbol, trap).as_str());
            s.append("; let mut v");
            text::push_decimal(&mut s, *slot as u64);
            s.append(": f64 = ");
            s.append(write_ir(start, symbol, trap).as_str());
            s.append("; while v");
            text::push_decimal(&mut s, *slot as u64);
            s.append(write_until(*inclusive).as_str());
            s.append("__end { 'body");
            text::push_decimal(&mut s, *label as u64);
            s.append(": ");
            s.append(write_block(body, symbol, trap).as_str());
            s.append(" v");
            text::push_decimal(&mut s, *slot as u64);
            s.append(" += 1.0; } }");
            s
        },
        IrStat::Discard(a) => {
            let mut s = text::owned("let _ = ");
            s.append(write_ir(a, symbol, trap).as_str());
            s.append(";");
            s
        },
        IrStat::Block(b) => {
            write_block(b, symbol, trap)
        },
        IrStat::If(i) => {
            write_if(i, symbol, trap)
        },
        IrStat::Match(m) => {
            write_match(m, symbol, trap)
        },
    }
}

} // verus!
