//! Conditions and expressions.
use crate::ast;
use crate::ast::{Arm, BinOp, Block, Expr, Pattern, UnOp};
use crate::bytecode;
use crate::bytecode::{BinKind, Op, MULTI};
use crate::codegen;
use crate::codegen::{Fault};
use crate::value::Value;
use super::body;
use super::{any_literal, captures_fit, compare_kind, concat_parts, key_literal, number_literal, plain_reg, FnCompiler};
use vstd::prelude::*;

verus! {

impl FnCompiler {
    // ---- conditions ------------------------------------------------------------------

    /// Compile a condition straight into branches. The sites handed back all
    /// jump when the condition fails (`when_false`) or when it holds.
    pub(super) fn cond_jump(&mut self, cond: &Expr, when_false: bool) -> (out: Vec<usize>)
        requires
            super::good(old(self)@),
        ensures
            (final(self)@, out@) == codegen::g_cond(old(self)@, *cond, when_false),
            super::good(final(self)@),
            super::grows(old(self)@, final(self)@),
            super::kept(old(self)@, final(self)@),
        decreases *cond, 4int,
    {
        proof {
            reveal(codegen::g_cond);
            reveal(codegen::g_cond_leaf);
        }
        match cond {
            Expr::Bin(BinOp::And, a, b) => {
                let mut first = self.cond_jump(a, true);
                let mut second = self.cond_jump(b, when_false);
                if when_false {
                    first.append(&mut second);
                    first
                } else {
                    self.patch_all(&first);
                    second
                }
            },
            Expr::Bin(BinOp::Or, a, b) => {
                let mut first = self.cond_jump(a, false);
                let mut second = self.cond_jump(b, when_false);
                if when_false {
                    self.patch_all(&first);
                    second
                } else {
                    first.append(&mut second);
                    first
                }
            },
            Expr::Un(UnOp::Not, a) => self.cond_jump(a, !when_false),
            _ => {
                let at: usize = self.cond_leaf(cond, when_false);
                let mut out: Vec<usize> = Vec::new();
                out.push(at);
                assert(out@ =~= seq![at]);
                out
            },
        }
    }

    /// One comparison, or one value tested for truth.
    pub(super) fn cond_leaf(&mut self, cond: &Expr, when_false: bool) -> (at: usize)
        requires
            super::good(old(self)@),
        ensures
            (final(self)@, at) == codegen::g_cond_leaf(old(self)@, *cond, when_false),
            super::good(final(self)@),
            super::grows(old(self)@, final(self)@),
            super::kept(old(self)@, final(self)@),
        decreases *cond, 3int,
    {
        proof {
            reveal(codegen::g_cond_leaf);
            reveal(codegen::g_expr);
            reveal(codegen::g_operand);
            reveal(codegen::fused);
        }
        let mark: u16 = self.mark();
        match cond {
            Expr::Bin(op, a, b) => {
                match compare_kind(*op) {
                    Some(k) => {
                        // jumping when the comparison is *true* is the same as
                        // jumping when its opposite is false
                        let kind = if when_false {
                            k
                        } else {
                            bytecode::invert(k)
                        };
                        let ra: u16 = self.operand(a);
                        let at: usize = match self.maybe_constant(any_literal(b)) {
                            Some(k) => self.emit(Op::JumpIfNotK { kind, a: ra, k, to: 0 }),
                            None => {
                                let rb: u16 = self.operand(b);
                                self.emit(Op::JumpIfNot { kind, a: ra, b: rb, to: 0 })
                            },
                        };
                        self.release(mark);
                        return at;
                    },
                    None => {},
                }
            },
            _ => {},
        }
        let c: u16 = self.take_reg();
        self.expr(cond, c);
        self.release(mark);
        if when_false {
            self.emit(Op::JumpIfFalse { cond: c, to: 0 })
        } else {
            self.emit(Op::JumpIfTrue { cond: c, to: 0 })
        }
    }

    // ---- expressions -----------------------------------------------------------------

    /// A register holding `e`. A plain local already is one.
    pub(super) fn operand(&mut self, e: &Expr) -> (r: u16)
        requires
            super::good(old(self)@),
        ensures
            (final(self)@, r) == codegen::g_operand(old(self)@, *e),
            super::good(final(self)@),
            super::grows(old(self)@, final(self)@),
            super::has_reg(final(self)@, r),
            final(self)@.bad is None ==> old(self)@.free <= final(self)@.free,
        decreases *e, 3int,
    {
        proof {
            reveal(codegen::g_operand);
            reveal(codegen::g_expr);
        }
        match plain_reg(e) {
            Some(slot) => {
                self.slot(slot);
                slot
            },
            None => {
                let r: u16 = self.take_reg();
                self.expr(e, r);
                r
            },
        }
    }

    /// Assignment to a place that already exists.
    pub(super) fn store(&mut self, target: &Expr, src: u16)
        requires
            super::good(old(self)@),
            super::has_reg(old(self)@, src),
        ensures
            final(self)@ == codegen::g_store(old(self)@, *target, src),
            super::good(final(self)@),
            super::grows(old(self)@, final(self)@),
            super::kept(old(self)@, final(self)@),
        decreases *target, 1int,
    {
        proof {
            reveal(codegen::g_store);
            reveal(codegen::g_operand);
        }
        match target {
            Expr::Local(b, _) => {
                self.slot(b.slot);
                if b.cell {
                    self.emit(Op::SetCell { slot: b.slot, src });
                } else if b.slot != src {
                    self.emit(Op::Move { dst: b.slot, src });
                }
            },
            Expr::Upval(i, _) => {
                self.upval(*i);
                self.emit(Op::SetUpval { idx: *i, src });
            },
            Expr::Global(name, _) => {
                let g: u16 = self.global(name);
                self.emit(Op::SetGlobal { g, src });
            },
            Expr::Index(obj, key) => {
                let mark: u16 = self.mark();
                let o: u16 = self.operand(obj);
                match self.maybe_constant(key_literal(key)) {
                    Some(k) => {
                        self.emit(Op::SetIndexK { obj: o, k, val: src });
                    },
                    None => {
                        let kr: u16 = self.operand(key);
                        self.emit(Op::SetIndex { obj: o, key: kr, val: src });
                    },
                }
                self.release(mark);
            },
            _ => self.fail(Fault::Unresolved),
        }
    }

    /// The elements of an array literal.
    pub(super) fn items(&mut self, items: &Vec<Expr>, dst: u16)
        requires
            super::good(old(self)@),
            super::has_reg(old(self)@, dst),
        ensures
            final(self)@ == codegen::g_items(old(self)@, items@, dst),
            super::good(final(self)@),
            super::grows(old(self)@, final(self)@),
            super::kept(old(self)@, final(self)@),
        decreases *items, 9int,
    {
        proof {
            reveal(codegen::g_items);
            reveal(codegen::g_call);
            reveal(codegen::g_expr);
        }
        let n: usize = items.len();
        let mut i: usize = 0;
        assert(items@.skip(0) == items@);
        while i < n
            invariant
                i <= n == items@.len(),
                super::good(self@),
                super::has_reg(old(self)@, dst),
                super::grows(old(self)@, self@),
                super::kept(old(self)@, self@),
                codegen::g_items(self@, items@.skip(i as int), dst) == codegen::g_items(
                    old(self)@,
                    items@,
                    dst,
                ),
            decreases n - i,
        {
            proof {
                reveal(codegen::g_items);
                reveal(codegen::g_call);
                reveal(codegen::g_expr);
            }
            let mark: u16 = self.mark();
            let tmp: u16 = self.take_reg();
            if i + 1 == n && ast::is_call(&items[i]) {
                // the last element spreads, as in `[a, f()]`
                self.call_expr(&items[i], tmp, MULTI);
                self.emit(Op::AppendMulti { obj: dst });
            } else {
                self.expr(&items[i], tmp);
                self.emit(Op::Append { obj: dst, val: tmp });
            }
            self.release(mark);
            proof {
                assert(items@.skip(i as int)[0] == items@[i as int]);
                assert(items@.skip(i as int).drop_first() == items@.skip(i + 1));
            }
            i = i + 1;
        }
    }

    /// The entries of a map literal.
    pub(super) fn entries(&mut self, items: &Vec<(Expr, Expr)>, dst: u16)
        requires
            super::good(old(self)@),
            super::has_reg(old(self)@, dst),
        ensures
            final(self)@ == codegen::g_entries(old(self)@, items@, dst),
            super::good(final(self)@),
            super::grows(old(self)@, final(self)@),
            super::kept(old(self)@, final(self)@),
        decreases *items, 9int,
    {
        proof {
            reveal(codegen::g_entries);
            reveal(codegen::g_expr);
        }
        let mut i: usize = 0;
        assert(items@.skip(0) == items@);
        while i < items.len()
            invariant
                i <= items@.len(),
                super::good(self@),
                super::has_reg(old(self)@, dst),
                super::grows(old(self)@, self@),
                super::kept(old(self)@, self@),
                codegen::g_entries(self@, items@.skip(i as int), dst) == codegen::g_entries(
                    old(self)@,
                    items@,
                    dst,
                ),
            decreases items@.len() - i,
        {
            proof {
                reveal(codegen::g_entries);
                reveal(codegen::g_expr);
            }
            let mark: u16 = self.mark();
            match self.maybe_constant(key_literal(&items[i].0)) {
                Some(k) => {
                    let vr: u16 = self.take_reg();
                    self.expr(&items[i].1, vr);
                    self.emit(Op::SetIndexK { obj: dst, k, val: vr });
                },
                None => {
                    let kr: u16 = self.take_reg();
                    self.expr(&items[i].0, kr);
                    let vr: u16 = self.take_reg();
                    self.expr(&items[i].1, vr);
                    self.emit(Op::SetIndex { obj: dst, key: kr, val: vr });
                },
            }
            self.release(mark);
            proof {
                assert(items@.skip(i as int)[0] == items@[i as int]);
                assert(items@.skip(i as int).drop_first() == items@.skip(i + 1));
            }
            i = i + 1;
        }
    }

    /// The parts of an interpolation, left to right.
    pub(super) fn parts(&mut self, e: &Expr)
        requires
            super::good(old(self)@),
        ensures
            final(self)@ == codegen::g_parts(old(self)@, *e),
            super::good(final(self)@),
            super::grows(old(self)@, final(self)@),
            final(self)@.bad is None ==> final(self)@.free == old(self)@.free + codegen::spine_len(
                *e,
            ),
        decreases *e, 3int,
    {
        proof {
            reveal(codegen::g_parts);
            reveal(codegen::g_expr);
        }
        match e {
            Expr::Bin(BinOp::Add, a, b) => {
                self.parts(a);
                let r: u16 = self.take_reg();
                self.expr(b, r);
            },
            _ => {
                let r: u16 = self.take_reg();
                self.expr(e, r);
            },
        }
    }

    /// Compile `e` so that its value ends up in `dst`.
    pub(super) fn expr(&mut self, e: &Expr, dst: u16)
        requires
            super::good(old(self)@),
            super::has_reg(old(self)@, dst),
        ensures
            final(self)@ == codegen::g_expr(old(self)@, *e, dst),
            super::good(final(self)@),
            super::grows(old(self)@, final(self)@),
            super::kept_for(old(self)@, final(self)@, dst),
        decreases *e, 2int,
    {
        proof {
            reveal(codegen::g_expr);
            reveal(codegen::g_binary);
            reveal(codegen::g_block);
            reveal(codegen::g_call);
            reveal(codegen::g_closure);
            reveal(codegen::g_entries);
            reveal(codegen::g_if);
            reveal(codegen::g_index);
            reveal(codegen::g_items);
            reveal(codegen::g_match);
            reveal(codegen::g_range);
            reveal(codegen::g_unary);
        }
        match e {
            Expr::Nil => {
                self.emit(Op::Nil { dst });
            },
            Expr::Bool(b) => {
                let k: u16 = self.constant(Value::Bool(*b));
                self.emit(Op::Const { dst, k });
            },
            Expr::Num(n) => {
                let k: u16 = self.constant(Value::Num(*n));
                self.emit(Op::Const { dst, k });
            },
            Expr::Str(s) => {
                let k: u16 = self.constant(Value::str(s.as_str()));
                self.emit(Op::Const { dst, k });
            },
            Expr::Local(b, _) => {
                self.slot(b.slot);
                if b.cell {
                    self.emit(Op::GetCell { dst, slot: b.slot });
                } else if b.slot != dst {
                    self.emit(Op::Move { dst, src: b.slot });
                }
            },
            Expr::Upval(i, _) => {
                self.upval(*i);
                self.emit(Op::GetUpval { dst, idx: *i });
            },
            Expr::Global(name, _) => {
                let g: u16 = self.global(name);
                self.emit(Op::GetGlobal { dst, g });
            },
            Expr::Index(..) => self.index(e, dst),
            Expr::Call(..) => self.call_expr(e, dst, 1),
            Expr::Method(..) => self.call_expr(e, dst, 1),
            Expr::Func(..) => self.closure(e, dst),
            Expr::Array(items) => {
                self.emit(Op::NewTable { dst });
                self.items(items, dst);
            },
            Expr::Entries(items) => {
                self.emit(Op::NewTable { dst });
                self.entries(items, dst);
            },
            Expr::Range(..) => self.range(e, dst),
            Expr::Un(..) => self.unary(e, dst),
            Expr::Bin(..) => self.binary(e, dst),
            Expr::Do(b) => self.block(b, Some(dst)),
            Expr::If(..) => self.if_expr(e, Some(dst)),
            Expr::Match(..) => self.match_expr(e, Some(dst)),
            Expr::Var(..) => self.fail(Fault::Unresolved),
        }
    }

    /// `obj[key]`.
    pub(super) fn index(&mut self, e: &Expr, dst: u16)
        requires
            super::good(old(self)@),
            super::has_reg(old(self)@, dst),
            *e is Index,
        ensures
            final(self)@ == codegen::g_index(old(self)@, *e, dst),
            super::good(final(self)@),
            super::grows(old(self)@, final(self)@),
            super::kept_for(old(self)@, final(self)@, dst),
        decreases *e, 1int,
    {
        proof {
            reveal(codegen::g_index);
            reveal(codegen::g_operand);
        }
        let mark: u16 = self.mark();
        match e {
            Expr::Index(obj, key) => {
                let o: u16 = self.operand(obj);
                match self.maybe_constant(key_literal(key)) {
                    Some(k) => {
                        let ic: u16 = self.next_cache();
                        self.emit(Op::GetIndexK { dst, obj: o, k, ic });
                    },
                    None => {
                        let kr: u16 = self.operand(key);
                        self.emit(Op::GetIndex { dst, obj: o, key: kr });
                    },
                }
                self.release(mark);
            },
            _ => {},
        }
    }

    /// `a..b`.
    pub(super) fn range(&mut self, e: &Expr, dst: u16)
        requires
            super::good(old(self)@),
            super::has_reg(old(self)@, dst),
            *e is Range,
        ensures
            final(self)@ == codegen::g_range(old(self)@, *e, dst),
            super::good(final(self)@),
            super::grows(old(self)@, final(self)@),
            super::kept_for(old(self)@, final(self)@, dst),
        decreases *e, 1int,
    {
        proof {
            reveal(codegen::g_range);
            reveal(codegen::g_expr);
        }
        let mark: u16 = self.mark();
        match e {
            Expr::Range(a, b, inclusive) => {
                let ra: u16 = self.take_reg();
                self.expr(a, ra);
                let rb: u16 = self.take_reg();
                self.expr(b, rb);
                self.emit(Op::Range { dst, a: ra, b: rb, inclusive: *inclusive });
                self.release(mark);
            },
            _ => {},
        }
    }

    /// `-a` and `!a`.
    pub(super) fn unary(&mut self, e: &Expr, dst: u16)
        requires
            super::good(old(self)@),
            super::has_reg(old(self)@, dst),
            *e is Un,
        ensures
            final(self)@ == codegen::g_unary(old(self)@, *e, dst),
            super::good(final(self)@),
            super::grows(old(self)@, final(self)@),
            super::kept_for(old(self)@, final(self)@, dst),
        decreases *e, 1int,
    {
        proof {
            reveal(codegen::g_unary);
            reveal(codegen::g_expr);
        }
        match e {
            Expr::Un(UnOp::Neg, a) => {
                self.expr(a, dst);
                self.emit(Op::Neg { dst, a: dst });
            },
            Expr::Un(UnOp::Not, a) => {
                self.expr(a, dst);
                self.emit(Op::Not { dst, a: dst });
            },
            _ => {},
        }
    }

    /// An operator.
    #[verifier::rlimit(50)]
    pub(super) fn binary(&mut self, e: &Expr, dst: u16)
        requires
            super::good(old(self)@),
            super::has_reg(old(self)@, dst),
            *e is Bin,
        ensures
            final(self)@ == codegen::g_binary(old(self)@, *e, dst),
            super::good(final(self)@),
            super::grows(old(self)@, final(self)@),
            super::kept_for(old(self)@, final(self)@, dst),
        decreases *e, 1int,
    {
        proof {
            reveal(codegen::g_binary);
            reveal(codegen::g_expr);
            reveal(codegen::g_operand);
            reveal(codegen::g_parts);
        }
        let mark: u16 = self.mark();
        match e {
            Expr::Bin(BinOp::And, a, b) => {
                self.expr(a, dst);
                let skip: usize = self.emit(Op::JumpIfFalse { cond: dst, to: 0 });
                self.expr(b, dst);
                let t: u32 = self.here();
                self.patch_to(skip, t);
            },
            Expr::Bin(BinOp::Or, a, b) => {
                self.expr(a, dst);
                let skip: usize = self.emit(Op::JumpIfTrue { cond: dst, to: 0 });
                self.expr(b, dst);
                let t: u32 = self.here();
                self.patch_to(skip, t);
            },
            Expr::Bin(op, a, b) => {
                match concat_parts(e) {
                    Some(parts) => {
                        proof {
                            assert(*op == BinOp::Add);
                        }
                        self.parts(a);
                        let r: u16 = self.take_reg();
                        self.expr(b, r);
                        self.emit(Op::Concat { dst, base: mark, parts });
                        self.release(mark);
                    },
                    None => {
                        let kind = self.kind(*op);
                        let ra: u16 = self.operand(a);
                        match self.maybe_constant(number_literal(b)) {
                            Some(k) => {
                                self.emit(Op::BinK { kind, dst, a: ra, k });
                            },
                            None => {
                                let rb: u16 = self.operand(b);
                                self.emit(Op::Bin { kind, dst, a: ra, b: rb });
                            },
                        }
                        self.release(mark);
                    },
                }
            },
            _ => {},
        }
    }

    /// A function value.
    pub(super) fn closure(&mut self, e: &Expr, dst: u16)
        requires
            super::good(old(self)@),
            super::has_reg(old(self)@, dst),
            *e is Func,
        ensures
            final(self)@ == codegen::g_closure(old(self)@, *e, dst),
            super::good(final(self)@),
            super::grows(old(self)@, final(self)@),
            super::kept_for(old(self)@, final(self)@, dst),
        decreases *e, 1int,
    {
        proof {
            reveal(codegen::g_closure);
            reveal(codegen::g_function);
        }
        match e {
            Expr::Func(def) => {
                match body::compile_function(def) {
                    Err(why) => self.fail(why),
                    Ok(proto) => {
                        if captures_fit(&def.upvals, self.def_locals(), self.captured()) {
                            let idx: u16 = self.count(self.n_protos());
                            self.add_proto(proto, idx);
                            self.emit(Op::Closure { dst, proto: idx });
                        } else {
                            self.fail(Fault::Unresolved);
                        }
                    },
                }
            },
            _ => {},
        }
    }

    /// Compile for effect: a statement level `if` needs no value.
    pub(super) fn expr_discard(&mut self, e: &Expr, scratch: u16)
        requires
            super::good(old(self)@),
            super::has_reg(old(self)@, scratch),
        ensures
            final(self)@ == codegen::g_discard(old(self)@, *e, scratch),
            super::good(final(self)@),
            super::grows(old(self)@, final(self)@),
            final(self)@.bad is None ==> old(self)@.free <= final(self)@.free,
        decreases *e, 3int,
    {
        proof {
            reveal(codegen::g_discard);
            reveal(codegen::g_block);
            reveal(codegen::g_call);
            reveal(codegen::g_expr);
            reveal(codegen::g_if);
            reveal(codegen::g_match);
        }
        match e {
            Expr::If(..) => self.if_expr(e, None),
            Expr::Match(..) => self.match_expr(e, None),
            Expr::Do(b) => self.block(b, None),
            Expr::Call(..) => self.call_expr(e, scratch, 0),
            Expr::Method(..) => self.call_expr(e, scratch, 0),
            _ => self.expr(e, scratch),
        }
    }

    pub(super) fn if_expr(&mut self, e: &Expr, dst: Option<u16>)
        requires
            super::good(old(self)@),
            *e is If,
            dst matches Some(d) ==> super::has_reg(old(self)@, d),
        ensures
            final(self)@ == codegen::g_if(old(self)@, *e, dst),
            super::good(final(self)@),
            super::grows(old(self)@, final(self)@),
            match dst {
                Some(d) => super::kept_for(old(self)@, final(self)@, d),
                None => super::kept(old(self)@, final(self)@),
            },
        decreases *e, 0int,
    {
        proof {
            reveal(codegen::g_if);
            reveal(codegen::g_arms);
            reveal(codegen::g_block);
        }
        match e {
            Expr::If(arms, els) => {
                let ends = self.arms(arms, els.is_some() || dst.is_some(), dst);
                match els {
                    Some(b) => self.block(b, dst),
                    None => match dst {
                        Some(d) => {
                            self.emit(Op::Nil { dst: d });
                        },
                        None => {},
                    },
                }
                self.patch_all(&ends);
            },
            _ => {},
        }
    }

    /// The arms of an `if`, and the jumps past it.
    pub(super) fn arms(&mut self, arms: &Vec<(Expr, Block)>, more: bool, dst: Option<u16>) -> (ends: Vec<
        usize,
    >)
        requires
            super::good(old(self)@),
            dst matches Some(d) ==> super::has_reg(old(self)@, d),
        ensures
            (final(self)@, ends@) == codegen::g_arms(old(self)@, arms@, more, dst),
            super::good(final(self)@),
            super::grows(old(self)@, final(self)@),
            match dst {
                Some(d) => super::kept_for(old(self)@, final(self)@, d),
                None => super::kept(old(self)@, final(self)@),
            },
        decreases *arms, 9int,
    {
        proof {
            reveal(codegen::g_arms);
            reveal(codegen::g_block);
            reveal(codegen::g_cond);
        }
        let mut ends: Vec<usize> = Vec::new();
        let n: usize = arms.len();
        let mut i: usize = 0;
        let ghost total = codegen::g_arms(self@, arms@, more, dst);
        proof {
            assert(arms@.skip(0) == arms@);
            assert(ends@ + total.1 =~= total.1);
        }
        while i < n
            invariant
                i <= n == arms@.len(),
                super::good(self@),
                dst matches Some(d) ==> super::has_reg(old(self)@, d),
                super::grows(old(self)@, self@),
                match dst {
                    Some(d) => super::kept_for(old(self)@, self@, d),
                    None => super::kept(old(self)@, self@),
                },
                codegen::g_arms(self@, arms@.skip(i as int), more, dst).0 == total.0,
                ends@ + codegen::g_arms(self@, arms@.skip(i as int), more, dst).1 == total.1,
            decreases n - i,
        {
            proof {
                reveal(codegen::g_arms);
                reveal(codegen::g_block);
                reveal(codegen::g_cond);
            }
            let ghost rest = arms@.skip(i as int);
            let ghost start = self@;
            let ghost had = ends@;
            let next = self.cond_jump(&arms[i].0, true);
            self.block(&arms[i].1, dst);
            let last = i + 1 == n && !more;
            if !last {
                let at: usize = self.emit(Op::Jump { to: 0 });
                ends.push(at);
            }
            self.patch_all(&next);
            proof {
                assert(rest[0] == arms@[i as int]);
                assert(rest.drop_first() == arms@.skip(i + 1));
                assert(ends@ + codegen::g_arms(self@, arms@.skip(i + 1), more, dst).1 =~= had
                    + codegen::g_arms(start, rest, more, dst).1);
            }
            i = i + 1;
        }
        proof {
            assert(ends@ + Seq::<usize>::empty() =~= ends@);
        }
        ends
    }

    /// The patterns of one arm: the jumps taken on a hit, and whether one of
    /// them always matches.
    #[verifier::rlimit(30)]
    pub(super) fn patterns(&mut self, ps: &Vec<Pattern>, subj: u16) -> (r: (Vec<usize>, bool))
        requires
            super::good(old(self)@),
            super::has_reg(old(self)@, subj),
        ensures
            (final(self)@, r.0@, r.1) == codegen::g_patterns(old(self)@, ps@, subj),
            super::good(final(self)@),
            super::grows(old(self)@, final(self)@),
            super::kept(old(self)@, final(self)@),
        decreases *ps, 9int,
    {
        proof {
            reveal(codegen::g_patterns);
            reveal(codegen::g_expr);
        }
        let mut hits: Vec<usize> = Vec::new();
        let n: usize = ps.len();
        let mut i: usize = 0;
        let ghost total = codegen::g_patterns(self@, ps@, subj);
        proof {
            assert(ps@.skip(0) == ps@);
            assert(hits@ + total.1 =~= total.1);
        }
        while i < n
            invariant
                i <= n == ps@.len(),
                super::good(self@),
                super::has_reg(old(self)@, subj),
                super::grows(old(self)@, self@),
                super::kept(old(self)@, self@),
                total == codegen::g_patterns(old(self)@, ps@, subj),
                codegen::g_patterns(self@, ps@.skip(i as int), subj).0 == total.0,
                hits@ + codegen::g_patterns(self@, ps@.skip(i as int), subj).1 == total.1,
                codegen::g_patterns(self@, ps@.skip(i as int), subj).2 == total.2,
            decreases n - i,
        {
            proof {
                reveal(codegen::g_patterns);
                reveal(codegen::g_expr);
            }
            let ghost rest = ps@.skip(i as int);
            let ghost start = self@;
            let ghost had = hits@;
            proof {
                assert(rest[0] == ps@[i as int]);
                assert(rest.drop_first() == ps@.skip(i + 1));
                assert(hits@ + Seq::<usize>::empty() =~= hits@);
            }
            match &ps[i] {
                Pattern::Wild => {
                    return (hits, true);
                },
                Pattern::Bind(_, b) => {
                    match b {
                        Some(b) => self.store_binding(*b, subj),
                        None => self.fail(Fault::Unresolved),
                    }
                    return (hits, true);
                },
                Pattern::Lit(e) => {
                    let mark: u16 = self.mark();
                    let lit: u16 = self.take_reg();
                    self.expr(e, lit);
                    let test: u16 = self.take_reg();
                    self.emit(Op::Bin { kind: BinKind::Eq, dst: test, a: subj, b: lit });
                    let at: usize = self.emit(Op::JumpIfTrue { cond: test, to: 0 });
                    hits.push(at);
                    self.release(mark);
                },
            }
            proof {
                assert(hits@ + codegen::g_patterns(self@, ps@.skip(i + 1), subj).1 =~= had
                    + codegen::g_patterns(start, rest, subj).1);
            }
            i = i + 1;
        }
        proof {
            assert(hits@ + Seq::<usize>::empty() =~= hits@);
        }
        (hits, false)
    }

    /// The arms of a `match`, and the jumps past it.
    #[verifier::rlimit(30)]
    pub(super) fn match_arms(&mut self, arms: &Vec<Arm>, subj: u16, dst: Option<u16>) -> (ends: Vec<usize>)
        requires
            super::good(old(self)@),
            super::has_reg(old(self)@, subj),
            dst matches Some(d) ==> super::has_reg(old(self)@, d),
        ensures
            (final(self)@, ends@) == codegen::g_match_arms(old(self)@, arms@, subj, dst),
            super::good(final(self)@),
            super::grows(old(self)@, final(self)@),
            final(self)@.bad is None ==> old(self)@.free <= final(self)@.free,
        decreases *arms, 9int,
    {
        proof {
            reveal(codegen::g_match_arms);
            reveal(codegen::g_block);
            reveal(codegen::g_cond);
            reveal(codegen::g_patterns);
        }
        let mut ends: Vec<usize> = Vec::new();
        let n: usize = arms.len();
        let mut i: usize = 0;
        let ghost total = codegen::g_match_arms(self@, arms@, subj, dst);
        proof {
            assert(arms@.skip(0) == arms@);
            assert(ends@ + total.1 =~= total.1);
        }
        while i < n
            invariant
                i <= n == arms@.len(),
                super::good(self@),
                super::has_reg(old(self)@, subj),
                dst matches Some(d) ==> super::has_reg(old(self)@, d),
                super::grows(old(self)@, self@),
                self@.bad is None ==> old(self)@.free <= self@.free,
                codegen::g_match_arms(self@, arms@.skip(i as int), subj, dst).0 == total.0,
                ends@ + codegen::g_match_arms(self@, arms@.skip(i as int), subj, dst).1 == total.1,
            decreases n - i,
        {
            proof {
                reveal(codegen::g_match_arms);
                reveal(codegen::g_block);
                reveal(codegen::g_cond);
                reveal(codegen::g_patterns);
            }
            let ghost rest = arms@.skip(i as int);
            let ghost start = self@;
            let ghost had = ends@;
            proof {
                assert(rest[0] == arms@[i as int]);
                assert(rest.drop_first() == arms@.skip(i + 1));
            }
            // any pattern matching sends us to the body; the last failure
            // falls through to the next arm
            let (hits, always) = self.patterns(&arms[i].patterns, subj);
            let mut misses: Vec<usize> = Vec::new();
            if !always {
                let at: usize = self.emit(Op::Jump { to: 0 });
                misses.push(at);
                assert(misses@ =~= seq![at]);
            } else {
                assert(misses@ =~= Seq::<usize>::empty());
            }
            self.patch_all(&hits);
            let ghost first = misses@;
            match &arms[i].guard {
                Some(guard) => {
                    let mut more = self.cond_jump(guard, true);
                    misses.append(&mut more);
                },
                None => {
                    assert(first + Seq::<usize>::empty() =~= misses@);
                },
            }
            self.block(&arms[i].body, dst);
            let at: usize = self.emit(Op::Jump { to: 0 });
            ends.push(at);
            self.patch_all(&misses);
            proof {
                assert(ends@ + codegen::g_match_arms(self@, arms@.skip(i + 1), subj, dst).1 =~= had
                    + codegen::g_match_arms(start, rest, subj, dst).1);
            }
            i = i + 1;
        }
        proof {
            assert(ends@ + Seq::<usize>::empty() =~= ends@);
        }
        ends
    }

    pub(super) fn match_expr(&mut self, e: &Expr, dst: Option<u16>)
        requires
            super::good(old(self)@),
            *e is Match,
            dst matches Some(d) ==> super::has_reg(old(self)@, d),
        ensures
            final(self)@ == codegen::g_match(old(self)@, *e, dst),
            super::good(final(self)@),
            super::grows(old(self)@, final(self)@),
            super::kept(old(self)@, final(self)@),
        decreases *e, 0int,
    {
        proof {
            reveal(codegen::g_match);
            reveal(codegen::g_expr);
            reveal(codegen::g_match_arms);
        }
        let mark: u16 = self.mark();
        match e {
            Expr::Match(subject, arms) => {
                let subj: u16 = self.take_reg();
                self.expr(subject, subj);
                let ends = self.match_arms(arms, subj, dst);
                match dst {
                    Some(d) => {
                        self.emit(Op::Nil { dst: d });
                    },
                    None => {},
                }
                self.patch_all(&ends);
                self.release(mark);
            },
            _ => {},
        }
    }
}

} // verus!
