//! Statements.
use crate::ast;
use crate::ast::{Binding, Block, Expr, Stat};
use crate::bytecode;
use crate::bytecode::{BinKind, Op, MULTI};
use crate::codegen;
use crate::codegen::{Fault, Gen};
use super::{key_literal, number_literal, plain_reg, FnCompiler};
use vstd::prelude::*;

verus! {

impl FnCompiler {
    // ---- statements ----------------------------------------------------------------

    pub(super) fn stats(&mut self, stats: &Vec<Stat>, lines: &Vec<u32>)
        requires
            super::good(old(self)@),
        ensures
            final(self)@ == codegen::g_stats(old(self)@, stats@, lines@),
            super::good(final(self)@),
            super::grows(old(self)@, final(self)@),
            super::kept(old(self)@, final(self)@),
        decreases *stats, 9int,
    {
        proof {
            reveal(codegen::g_stats);
            reveal(codegen::g_stat);
        }
        let mut i: usize = 0;
        assert(stats@.skip(0) == stats@);
        assert(codegen::lines_from(lines@, 0) == lines@);
        while i < stats.len()
            invariant
                i <= stats@.len(),
                super::good(self@),
                super::grows(old(self)@, self@),
                super::kept(old(self)@, self@),
                codegen::g_stats(
                    self@,
                    stats@.skip(i as int),
                    codegen::lines_from(lines@, i as nat),
                ) == codegen::g_stats(old(self)@, stats@, lines@),
            decreases stats@.len() - i,
        {
            proof {
                reveal(codegen::g_stats);
                reveal(codegen::g_stat);
            }
            let ghost before = self@;
            if i < lines.len() {
                self.set_line(lines[i]);
            }
            proof {
                assert(self@ =~= (Gen {
                    line: codegen::line_at(codegen::lines_from(lines@, i as nat), before.line),
                    ..before
                }));
            }
            self.stat(&stats[i]);
            proof {
                assert(stats@.skip(i as int)[0] == stats@[i as int]);
                assert(stats@.skip(i as int).drop_first() == stats@.skip(i + 1));
                assert(codegen::lines_from(codegen::lines_from(lines@, i as nat), 1)
                    =~= codegen::lines_from(lines@, (i + 1) as nat));
            }
            i = i + 1;
        }
    }

    /// Compile a block; if `dst` is given, its tail value lands there.
    pub(super) fn block(&mut self, b: &Block, dst: Option<u16>)
        requires
            super::good(old(self)@),
            dst matches Some(d) ==> super::has_reg(old(self)@, d),
        ensures
            final(self)@ == codegen::g_block(old(self)@, *b, dst),
            super::good(final(self)@),
            super::grows(old(self)@, final(self)@),
            match dst {
                Some(d) => super::kept_for(old(self)@, final(self)@, d),
                None => super::kept(old(self)@, final(self)@),
            },
        decreases *b, 9int,
    {
        proof {
            reveal(codegen::g_block);
            reveal(codegen::g_expr);
            reveal(codegen::g_stats);
        }
        self.stats(&b.stats, &b.lines);
        match &b.tail {
            Some(e) => {
                self.tail_line(b.tail_line);
                match dst {
                    Some(d) => self.expr(e, d),
                    None => {
                        let mark: u16 = self.mark();
                        let tmp: u16 = self.take_reg();
                        self.expr(e, tmp);
                        self.release(mark);
                    },
                }
            },
            None => match dst {
                Some(d) => {
                    self.emit(Op::Nil { dst: d });
                },
                None => {},
            },
        }
    }

    pub(super) fn store_binding(&mut self, b: Binding, src: u16)
        requires
            super::good(old(self)@),
            super::has_reg(old(self)@, src),
        ensures
            final(self)@ == codegen::g_store_binding(old(self)@, b, src),
            super::good(final(self)@),
            super::grows(old(self)@, final(self)@),
            super::kept(old(self)@, final(self)@),
            final(self)@.bad is None ==> b.slot < final(self)@.n_slots,
    {
        proof {
            reveal(codegen::g_store_binding);
        }
        self.slot(b.slot);
        if b.cell {
            self.emit(Op::NewCell { slot: b.slot, src });
        } else if b.slot != src {
            self.emit(Op::Move { dst: b.slot, src });
        }
    }

    /// Bindings take the values from `base` up; those beyond `n` take nil.
    pub(super) fn store_bindings(&mut self, bs: &Vec<Binding>, base: u16, n: usize)
        requires
            super::good(old(self)@),
            old(self)@.bad is None ==> base + n <= old(self)@.max_regs + 1,
        ensures
            final(self)@ == codegen::g_store_bindings(old(self)@, bs@, base, 0, n as nat),
            super::good(final(self)@),
            super::grows(old(self)@, final(self)@),
            final(self)@.bad is None ==> final(self)@.free >= old(self)@.free,
    {
        proof {
            reveal(codegen::g_store_bindings);
        }
        let mut i: usize = 0;
        assert(bs@.skip(0) == bs@);
        while i < bs.len()
            invariant
                i <= bs@.len(),
                super::good(self@),
                super::grows(old(self)@, self@),
                old(self)@.bad is None ==> base + n <= old(self)@.max_regs + 1,
                self@.bad is None ==> self@.free >= old(self)@.free,
                codegen::g_store_bindings(self@, bs@.skip(i as int), base, i as nat, n as nat)
                    == codegen::g_store_bindings(old(self)@, bs@, base, 0, n as nat),
            decreases bs@.len() - i,
        {
            proof {
                reveal(codegen::g_store_bindings);
            }
            if i < n {
                let r: u16 = self.plus(base, i);
                self.store_binding(bs[i], r);
            } else {
                let r: u16 = self.take_reg();
                self.emit(Op::Nil { dst: r });
                self.store_binding(bs[i], r);
            }
            proof {
                assert(bs@.skip(i as int)[0] == bs@[i as int]);
                assert(bs@.skip(i as int).drop_first() == bs@.skip(i + 1));
            }
            i = i + 1;
        }
    }

    /// Each value in a fresh register, in order.
    pub(super) fn exprs(&mut self, es: &Vec<Expr>)
        requires
            super::good(old(self)@),
        ensures
            final(self)@ == codegen::g_exprs(old(self)@, es@),
            super::good(final(self)@),
            super::grows(old(self)@, final(self)@),
            final(self)@.bad is None ==> final(self)@.free == old(self)@.free + es@.len(),
        decreases *es, 9int,
    {
        proof {
            reveal(codegen::g_exprs);
            reveal(codegen::g_expr);
        }
        let mut i: usize = 0;
        assert(es@.skip(0) == es@);
        while i < es.len()
            invariant
                i <= es@.len(),
                super::good(self@),
                super::grows(old(self)@, self@),
                self@.bad is None ==> self@.free == old(self)@.free + i,
                codegen::g_exprs(self@, es@.skip(i as int)) == codegen::g_exprs(old(self)@, es@),
            decreases es@.len() - i,
        {
            proof {
                reveal(codegen::g_exprs);
                reveal(codegen::g_expr);
            }
            let r: u16 = self.take_reg();
            self.expr(&es[i], r);
            proof {
                assert(es@.skip(i as int)[0] == es@[i as int]);
                assert(es@.skip(i as int).drop_first() == es@.skip(i + 1));
            }
            i = i + 1;
        }
    }

    /// Targets take the values from `base` up; those beyond `n` take nil.
    pub(super) fn stores(&mut self, ts: &Vec<Expr>, base: u16, n: usize)
        requires
            super::good(old(self)@),
            old(self)@.bad is None ==> base + n <= old(self)@.max_regs + 1,
        ensures
            final(self)@ == codegen::g_stores(old(self)@, ts@, base, 0, n as nat),
            super::good(final(self)@),
            super::grows(old(self)@, final(self)@),
            final(self)@.bad is None ==> final(self)@.free >= old(self)@.free,
        decreases *ts, 9int,
    {
        proof {
            reveal(codegen::g_stores);
            reveal(codegen::g_store);
        }
        let mut i: usize = 0;
        assert(ts@.skip(0) == ts@);
        while i < ts.len()
            invariant
                i <= ts@.len(),
                super::good(self@),
                super::grows(old(self)@, self@),
                old(self)@.bad is None ==> base + n <= old(self)@.max_regs + 1,
                self@.bad is None ==> self@.free >= old(self)@.free,
                codegen::g_stores(self@, ts@.skip(i as int), base, i as nat, n as nat)
                    == codegen::g_stores(old(self)@, ts@, base, 0, n as nat),
            decreases ts@.len() - i,
        {
            proof {
                reveal(codegen::g_stores);
                reveal(codegen::g_store);
            }
            if i < n {
                let r: u16 = self.plus(base, i);
                self.store(&ts[i], r);
            } else {
                let r: u16 = self.take_reg();
                self.emit(Op::Nil { dst: r });
                self.store(&ts[i], r);
            }
            proof {
                assert(ts@.skip(i as int)[0] == ts@[i as int]);
                assert(ts@.skip(i as int).drop_first() == ts@.skip(i + 1));
            }
            i = i + 1;
        }
    }

    /// `let` and its values.
    pub(super) fn bind(&mut self, bs: &Vec<Binding>, es: &Vec<Expr>)
        requires
            super::good(old(self)@),
        ensures
            final(self)@ == codegen::g_bind(old(self)@, bs@, es@),
            super::good(final(self)@),
            super::grows(old(self)@, final(self)@),
            super::kept(old(self)@, final(self)@),
        decreases *es, 10int,
    {
        proof {
            reveal(codegen::g_bind);
            reveal(codegen::g_call);
            reveal(codegen::g_expr);
            reveal(codegen::g_exprs);
        }
        let mark: u16 = self.mark();
        if bs.len() == 1 && es.len() == 1 {
            let b = bs[0];
            if b.cell {
                let tmp: u16 = self.take_reg();
                self.expr(&es[0], tmp);
                self.slot(b.slot);
                self.emit(Op::NewCell { slot: b.slot, src: tmp });
            } else {
                self.slot(b.slot);
                self.expr(&es[0], b.slot);
            }
        } else if es.len() == 1 && bs.len() > 1 && ast::is_call(&es[0]) {
            // `let (a, b) = f()`
            self.take_regs(bs.len());
            let n: u16 = self.count(bs.len());
            self.call_expr(&es[0], mark, n);
            self.store_bindings(bs, mark, bs.len());
        } else {
            self.exprs(es);
            self.store_bindings(bs, mark, es.len());
        }
        self.release(mark);
    }

    /// The end of a loop: its continues, its back edge and its breaks.
    pub(super) fn close_loop(&mut self, top: u32, id: u32)
        requires
            super::good(old(self)@),
            top <= old(self)@.code.len(),
        ensures
            final(self)@ == codegen::g_close_loop(old(self)@, top, id),
            super::good(final(self)@),
            super::adds(old(self)@, final(self)@),
            old(self)@.loops.len() > 0 ==> final(self)@.loops.len() == old(self)@.loops.len() - 1,
            super::kept(old(self)@, final(self)@),
    {
        proof {
            reveal(codegen::g_close_loop);
        }
        let ctx = self.leave_loop();
        self.patch_all_to(&ctx.continues, top);
        let hint: u16 = self.next_hint();
        let back: usize = self.emit(Op::JumpBack { to: top, id, hint, exit: 0 });
        self.patch_all(&ctx.breaks);
        self.patch_hint(back);
    }

    /// Compile a statement. Every register it took for itself is given back, it
    /// leaves every loop it enters, and there is one line for every instruction.
    pub fn stat(&mut self, s: &Stat)
        requires
            super::good(old(self)@),
        ensures
            final(self)@ == codegen::g_stat(old(self)@, *s),
            super::good(final(self)@),
            super::grows(old(self)@, final(self)@),
            super::kept(old(self)@, final(self)@),
            final(self)@.bad is None ==> final(self)@.free == old(self)@.free,
            final(self)@.loops.len() == old(self)@.loops.len(),
            final(self)@.max_regs >= old(self)@.max_regs,
            final(self)@.code.len() >= old(self)@.code.len(),
            final(self)@.code.len() == final(self)@.lines.len(),
        decreases *s, 9int,
    {
        proof {
            reveal(codegen::g_stat);
            reveal(codegen::g_assign);
            reveal(codegen::g_bind);
            reveal(codegen::g_expr_stat);
            reveal(codegen::g_fn_slot);
            reveal(codegen::g_for_in);
            reveal(codegen::g_for_range);
            reveal(codegen::g_loop);
            reveal(codegen::g_op_assign);
            reveal(codegen::g_return);
            reveal(codegen::g_while);
        }
        match s {
            Stat::LetSlots(bs, es) => self.bind(bs, es),
            Stat::FnSlot(..) => self.fn_slot(s),
            Stat::Assign(..) => self.assign(s),
            Stat::OpAssign(..) => self.op_assign(s),
            Stat::Expr(..) => self.expr_stat(s),
            Stat::While(..) => self.while_stat(s),
            Stat::Loop(..) => self.loop_stat(s),
            Stat::ForRange { .. } => self.for_range(s),
            Stat::ForIn { .. } => self.for_in(s),
            Stat::Return(..) => self.ret(s),
            Stat::Break => self.jump_out(true),
            Stat::Continue => self.jump_out(false),
            Stat::TypeAlias(..) => {},
            Stat::Let(..) => self.fail(Fault::Unresolved),
            Stat::FnDecl(..) => self.fail(Fault::Unresolved),
        }
    }

    /// `fn` bound to a local: bind first so that the closure can capture
    /// itself, then fill it in.
    pub(super) fn fn_slot(&mut self, s: &Stat)
        requires
            super::good(old(self)@),
            *s is FnSlot,
        ensures
            final(self)@ == codegen::g_fn_slot(old(self)@, *s),
            super::good(final(self)@),
            super::grows(old(self)@, final(self)@),
            super::kept(old(self)@, final(self)@),
        decreases *s, 8int,
    {
        proof {
            reveal(codegen::g_fn_slot);
            reveal(codegen::g_expr);
        }
        let mark: u16 = self.mark();
        match s {
            Stat::FnSlot(b, f) => {
                let tmp: u16 = self.take_reg();
                self.emit(Op::Nil { dst: tmp });
                self.store_binding(*b, tmp);
                self.expr(f, tmp);
                if b.cell {
                    self.emit(Op::SetCell { slot: b.slot, src: tmp });
                } else {
                    self.emit(Op::Move { dst: b.slot, src: tmp });
                }
                self.release(mark);
            },
            _ => {},
        }
    }

    /// Assignment to places that already exist.
    pub(super) fn assign(&mut self, s: &Stat)
        requires
            super::good(old(self)@),
            *s is Assign,
        ensures
            final(self)@ == codegen::g_assign(old(self)@, *s),
            super::good(final(self)@),
            super::grows(old(self)@, final(self)@),
            super::kept(old(self)@, final(self)@),
        decreases *s, 8int,
    {
        proof {
            reveal(codegen::g_assign);
            reveal(codegen::g_expr);
            reveal(codegen::g_exprs);
            reveal(codegen::g_store);
            reveal(codegen::g_stores);
        }
        let mark: u16 = self.mark();
        match s {
            Stat::Assign(ts, es) => {
                if ts.len() == 1 && es.len() == 1 {
                    match plain_reg(&ts[0]) {
                        Some(slot) => {
                            self.slot(slot);
                            if super::in_place(&es[0]) {
                                self.expr(&es[0], slot);
                            } else {
                                let tmp: u16 = self.take_reg();
                                self.expr(&es[0], tmp);
                                self.emit(Op::Move { dst: slot, src: tmp });
                            }
                        },
                        None => {
                            let tmp: u16 = self.take_reg();
                            self.expr(&es[0], tmp);
                            self.store(&ts[0], tmp);
                        },
                    }
                } else {
                    self.exprs(es);
                    self.stores(ts, mark, es.len());
                }
                self.release(mark);
            },
            _ => {},
        }
    }

    pub(super) fn expr_stat(&mut self, s: &Stat)
        requires
            super::good(old(self)@),
            *s is Expr,
        ensures
            final(self)@ == codegen::g_expr_stat(old(self)@, *s),
            super::good(final(self)@),
            super::grows(old(self)@, final(self)@),
            super::kept(old(self)@, final(self)@),
        decreases *s, 8int,
    {
        proof {
            reveal(codegen::g_expr_stat);
            reveal(codegen::g_discard);
        }
        let mark: u16 = self.mark();
        match s {
            Stat::Expr(e) => {
                let tmp: u16 = self.take_reg();
                self.expr_discard(e, tmp);
                self.release(mark);
            },
            _ => {},
        }
    }

    pub(super) fn while_stat(&mut self, s: &Stat)
        requires
            super::good(old(self)@),
            *s is While,
        ensures
            final(self)@ == codegen::g_while(old(self)@, *s),
            super::good(final(self)@),
            super::grows(old(self)@, final(self)@),
            super::kept(old(self)@, final(self)@),
        decreases *s, 8int,
    {
        proof {
            reveal(codegen::g_while);
            reveal(codegen::g_block);
            reveal(codegen::g_cond);
        }
        match s {
            Stat::While(id, cond, body) => {
                let top: u32 = self.here();
                let always = match cond {
                    Expr::Bool(b) => *b,
                    _ => false,
                };
                if always {
                    let none: Vec<usize> = Vec::new();
                    assert(none@ =~= Seq::<usize>::empty());
                    self.enter_loop(none);
                } else {
                    let exits = self.cond_jump(cond, true);
                    self.enter_loop(exits);
                }
                self.block(body, None);
                self.close_loop(top, *id);
            },
            _ => {},
        }
    }

    pub(super) fn loop_stat(&mut self, s: &Stat)
        requires
            super::good(old(self)@),
            *s is Loop,
        ensures
            final(self)@ == codegen::g_loop(old(self)@, *s),
            super::good(final(self)@),
            super::grows(old(self)@, final(self)@),
            super::kept(old(self)@, final(self)@),
        decreases *s, 8int,
    {
        proof {
            reveal(codegen::g_loop);
            reveal(codegen::g_block);
        }
        match s {
            Stat::Loop(id, body) => {
                let top: u32 = self.here();
                let none: Vec<usize> = Vec::new();
                assert(none@ =~= Seq::<usize>::empty());
                self.enter_loop(none);
                self.block(body, None);
                self.close_loop(top, *id);
            },
            _ => {},
        }
    }

    /// `target op= e`.
    #[verifier::rlimit(50)]
    pub(super) fn op_assign(&mut self, s: &Stat)
        requires
            super::good(old(self)@),
            *s is OpAssign,
        ensures
            final(self)@ == codegen::g_op_assign(old(self)@, *s),
            super::good(final(self)@),
            super::grows(old(self)@, final(self)@),
            super::kept(old(self)@, final(self)@),
        decreases *s, 8int,
    {
        proof {
            reveal(codegen::g_op_assign);
            reveal(codegen::g_expr);
            reveal(codegen::g_operand);
            reveal(codegen::g_store);
        }
        let mark: u16 = self.mark();
        match s {
            Stat::OpAssign(target, op, e) => {
                let kind = self.kind(*op);
                match plain_reg(target) {
                    Some(slot) => {
                        self.slot(slot);
                        match self.maybe_constant(number_literal(e)) {
                            Some(k) => {
                                self.emit(Op::BinK { kind, dst: slot, a: slot, k });
                            },
                            None => {
                                let rhs: u16 = self.operand(e);
                                self.emit(Op::Bin { kind, dst: slot, a: slot, b: rhs });
                            },
                        }
                    },
                    None => match target {
                        Expr::Index(obj, key) => {
                            let o: u16 = self.operand(obj);
                            let cur: u16 = self.take_reg();
                            match self.maybe_constant(key_literal(key)) {
                                Some(k) => {
                                    let ic: u16 = self.next_cache();
                                    self.emit(Op::GetIndexK { dst: cur, obj: o, k, ic });
                                    let rhs: u16 = self.operand(e);
                                    self.emit(Op::Bin { kind, dst: cur, a: cur, b: rhs });
                                    self.emit(Op::SetIndexK { obj: o, k, val: cur });
                                },
                                None => {
                                    let kr: u16 = self.operand(key);
                                    self.emit(Op::GetIndex { dst: cur, obj: o, key: kr });
                                    let rhs: u16 = self.operand(e);
                                    self.emit(Op::Bin { kind, dst: cur, a: cur, b: rhs });
                                    self.emit(Op::SetIndex { obj: o, key: kr, val: cur });
                                },
                            }
                        },
                        _ => {
                            let cur: u16 = self.take_reg();
                            self.expr(target, cur);
                            let rhs: u16 = self.operand(e);
                            self.emit(Op::Bin { kind, dst: cur, a: cur, b: rhs });
                            self.store(target, cur);
                        },
                    },
                }
                self.release(mark);
            },
            _ => {},
        }
    }

    /// `for i in a..b`.
    #[verifier::rlimit(50)]
    pub(super) fn for_range(&mut self, s: &Stat)
        requires
            super::good(old(self)@),
            *s is ForRange,
        ensures
            final(self)@ == codegen::g_for_range(old(self)@, *s),
            super::good(final(self)@),
            super::grows(old(self)@, final(self)@),
            super::kept(old(self)@, final(self)@),
        decreases *s, 8int,
    {
        proof {
            reveal(codegen::g_for_range);
            reveal(codegen::g_block);
            reveal(codegen::g_expr);
        }
        let mark: u16 = self.mark();
        match s {
            Stat::ForRange { id, var, binding, start, end, inclusive, body } => {
                match binding {
                    None => self.fail(Fault::Unresolved),
                    Some(b) => {
                        let counter: u16 = if b.cell {
                            self.take_reg()
                        } else {
                            self.slot(b.slot);
                            b.slot
                        };
                        let limit: u16 = self.take_reg();
                        self.expr(start, counter);
                        self.expr(end, limit);
                        let kind = if *inclusive {
                            BinKind::Le
                        } else {
                            BinKind::Lt
                        };
                        let exit: usize = self.emit(
                            Op::JumpIfNot { kind, a: counter, b: limit, to: 0 },
                        );
                        let top: u32 = self.here();
                        if b.cell {
                            self.store_binding(*b, counter);
                        }
                        let mut breaks: Vec<usize> = Vec::new();
                        breaks.push(exit);
                        assert(breaks@ =~= seq![exit]);
                        self.enter_loop(breaks);
                        self.block(body, None);
                        let ctx = self.leave_loop();
                        self.patch_all(&ctx.continues);
                        let hint: u16 = self.next_hint();
                        self.emit(
                            Op::ForLoop {
                                counter,
                                limit,
                                to: top,
                                id: *id,
                                hint,
                                le: *inclusive,
                            },
                        );
                        self.patch_all(&ctx.breaks);
                        self.release(mark);
                    },
                }
            },
            _ => {},
        }
    }

    /// `for x in iterator`.
    #[verifier::rlimit(50)]
    pub(super) fn for_in(&mut self, s: &Stat)
        requires
            super::good(old(self)@),
            *s is ForIn,
        ensures
            final(self)@ == codegen::g_for_in(old(self)@, *s),
            super::good(final(self)@),
            super::grows(old(self)@, final(self)@),
            super::kept(old(self)@, final(self)@),
        decreases *s, 8int,
    {
        proof {
            reveal(codegen::g_for_in);
            reveal(codegen::g_block);
            reveal(codegen::g_expr);
        }
        let mark: u16 = self.mark();
        match s {
            Stat::ForIn { id, vars, bindings, iter, body } => {
                let it: u16 = self.take_reg();
                self.expr(iter, it);
                self.emit(Op::IterInit { dst: it, src: it });
                let vbase: u16 = self.mark();
                self.take_regs(bindings.len());
                let count: u16 = self.count(bindings.len());
                let top: u32 = self.here();
                let next: usize = self.emit(
                    Op::IterNext { iter: it, base: vbase, count, exit: 0 },
                );
                self.store_bindings(bindings, vbase, bindings.len());
                let mut breaks: Vec<usize> = Vec::new();
                breaks.push(next);
                assert(breaks@ =~= seq![next]);
                self.enter_loop(breaks);
                self.block(body, None);
                let ctx = self.leave_loop();
                self.patch_all(&ctx.continues);
                let hint: u16 = self.next_hint();
                let back: usize = self.emit(Op::JumpBack { to: top, id: *id, hint, exit: 0 });
                self.patch_all(&ctx.breaks);
                self.patch_hint(back);
                self.release(mark);
            },
            _ => {},
        }
    }

    /// `return`.
    pub(super) fn ret(&mut self, s: &Stat)
        requires
            super::good(old(self)@),
            *s is Return,
        ensures
            final(self)@ == codegen::g_return(old(self)@, *s),
            super::good(final(self)@),
            super::grows(old(self)@, final(self)@),
            super::kept(old(self)@, final(self)@),
        decreases *s, 8int,
    {
        proof {
            reveal(codegen::g_return);
            reveal(codegen::g_call);
            reveal(codegen::g_expr);
            reveal(codegen::g_exprs);
        }
        let mark: u16 = self.mark();
        match s {
            Stat::Return(es) => {
                if es.len() == 0 {
                    let r: u16 = self.take_reg();
                    self.emit(Op::Ret { base: r, n: 0 });
                } else if es.len() == 1 && ast::is_call(&es[0]) {
                    let r: u16 = self.take_reg();
                    self.call_expr(&es[0], r, MULTI);
                    self.emit(Op::Ret { base: r, n: MULTI });
                } else if es.len() == 1 {
                    match plain_reg(&es[0]) {
                        Some(slot) => {
                            self.slot(slot);
                            self.emit(Op::Ret { base: slot, n: 1 });
                            return;
                        },
                        None => {
                            let r: u16 = self.take_reg();
                            self.expr(&es[0], r);
                            self.emit(Op::Ret { base: r, n: 1 });
                        },
                    }
                } else {
                    self.exprs(es);
                    let n: u16 = self.count(es.len());
                    self.emit(Op::Ret { base: mark, n });
                }
                self.release(mark);
            },
            _ => {},
        }
    }
}

} // verus!
