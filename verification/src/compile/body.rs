//! Function bodies.
use crate::ast;
use crate::ast::{Binding, Block, Expr, FuncDef};
use crate::bytecode;
use crate::bytecode::{Op, Proto, MULTI};
use crate::codegen;
use crate::codegen::{Fault};
use super::{plain_reg, FnCompiler};
use vstd::prelude::*;

verus! {

impl FnCompiler {
    // ---- function bodies -------------------------------------------------------------

    /// Compile a block that is a function body: its tail is what the function
    /// returns, and a call in tail position passes on *every* value it made.
    pub(super) fn block_ret(&mut self, b: &Block)
        requires
            super::good(old(self)@),
        ensures
            final(self)@ == codegen::g_block_ret(old(self)@, *b),
            super::good(final(self)@),
            super::sound(final(self)@, 0),
            super::grows(old(self)@, final(self)@),
            final(self)@.bad is None ==> final(self)@.code.len() > 0 && final(self)@.code.last() is Ret,
        decreases *b, 9int,
    {
        proof {
            reveal(codegen::g_block_ret);
            reveal(codegen::g_expr);
            reveal(codegen::g_ret_arms);
            reveal(codegen::g_ret_call);
            reveal(codegen::g_stats);
        }
        self.stats(&b.stats, &b.lines);
        self.tail_line(b.tail_line);
        match &b.tail {
            None => {
                let r: u16 = self.take_reg();
                self.emit(Op::Ret { base: r, n: 0 });
            },
            Some(e) => {
                match &**e {
                    Expr::Call(..) => self.ret_call(e),
                    Expr::Method(..) => self.ret_call(e),
                    Expr::Do(inner) => self.block_ret(inner),
                    Expr::If(arms, els) => {
                        self.ret_arms(arms);
                        match els {
                            Some(b) => self.block_ret(b),
                            None => {
                                let r: u16 = self.take_reg();
                                self.emit(Op::Ret { base: r, n: 0 });
                            },
                        }
                    },
                    _ => {
                        match plain_reg(e) {
                            Some(slot) => {
                                self.slot(slot);
                                self.emit(Op::Ret { base: slot, n: 1 });
                            },
                            None => {
                                let mark: u16 = self.mark();
                                let r: u16 = self.take_reg();
                                self.expr(e, r);
                                self.emit(Op::Ret { base: r, n: 1 });
                                self.release(mark);
                            },
                        }
                    },
                }
            },
        }
    }

    pub(super) fn ret_call(&mut self, e: &Expr)
        requires
            super::good(old(self)@),
        ensures
            final(self)@ == codegen::g_ret_call(old(self)@, *e),
            super::good(final(self)@),
            super::sound(final(self)@, 0),
            super::grows(old(self)@, final(self)@),
            final(self)@.bad is None ==> final(self)@.code.len() > 0 && final(self)@.code.last() is Ret,
        decreases *e, 3int,
    {
        proof {
            reveal(codegen::g_ret_call);
            reveal(codegen::g_call);
        }
        let mark: u16 = self.mark();
        let r: u16 = self.take_reg();
        self.call_expr(e, r, MULTI);
        self.emit(Op::Ret { base: r, n: MULTI });
        self.release(mark);
    }

    /// The arms of an `if` in tail position: every branch returns for itself.
    pub(super) fn ret_arms(&mut self, arms: &Vec<(Expr, Block)>)
        requires
            super::good(old(self)@),
        ensures
            final(self)@ == codegen::g_ret_arms(old(self)@, arms@),
            super::good(final(self)@),
            super::grows(old(self)@, final(self)@),
        decreases *arms, 9int,
    {
        proof {
            reveal(codegen::g_ret_arms);
            reveal(codegen::g_block_ret);
            reveal(codegen::g_cond);
        }
        let mut i: usize = 0;
        assert(arms@.skip(0) == arms@);
        while i < arms.len()
            invariant
                i <= arms@.len(),
                super::good(self@),
                super::grows(old(self)@, self@),
                codegen::g_ret_arms(self@, arms@.skip(i as int)) == codegen::g_ret_arms(
                    old(self)@,
                    arms@,
                ),
            decreases arms@.len() - i,
        {
            proof {
                reveal(codegen::g_ret_arms);
                reveal(codegen::g_block_ret);
                reveal(codegen::g_cond);
            }
            let next = self.cond_jump(&arms[i].0, true);
            self.block_ret(&arms[i].1);
            self.patch_all(&next);
            proof {
                assert(arms@.skip(i as int)[0] == arms@[i as int]);
                assert(arms@.skip(i as int).drop_first() == arms@.skip(i + 1));
            }
            i = i + 1;
        }
    }

    pub(super) fn params(&mut self, bs: &Vec<Binding>)
        requires
            super::good(old(self)@),
        ensures
            final(self)@ == codegen::g_params(old(self)@, bs@),
            super::good(final(self)@),
            super::grows(old(self)@, final(self)@),
            final(self)@.bad is None ==> forall|k: int|
                0 <= k < bs@.len() ==> (#[trigger] bs@[k]).slot < final(self)@.n_slots,
    {
        proof {
            reveal(codegen::g_params);
        }
        let mut i: usize = 0;
        assert(bs@.skip(0) == bs@);
        while i < bs.len()
            invariant
                i <= bs@.len(),
                super::good(self@),
                super::grows(old(self)@, self@),
                codegen::g_params(self@, bs@.skip(i as int)) == codegen::g_params(
                    old(self)@,
                    bs@,
                ),
                self@.bad is None ==> forall|k: int|
                    0 <= k < i ==> (#[trigger] bs@[k]).slot < self@.n_slots,
            decreases bs@.len() - i,
        {
            proof {
                reveal(codegen::g_params);
            }
            self.slot(bs[i].slot);
            proof {
                assert(bs@.skip(i as int)[0] == bs@[i as int]);
                assert(bs@.skip(i as int).drop_first() == bs@.skip(i + 1));
            }
            i = i + 1;
        }
    }
}

/// Compile a function into its own prototype.
pub(super) fn compile_function(def: &FuncDef) -> (r: Result<Proto, Fault>)
    ensures
        match r {
            Ok(p) => codegen::g_function(*def).bad is None && bytecode::proto_view(p)
                == codegen::proto_of(codegen::g_function(*def), *def) && bytecode::proto_ok(
                bytecode::proto_view(p),
            ),
            Err(why) => codegen::g_function(*def).bad == Some(why),
        },
    decreases *def, 9int,
{
    proof {
        reveal(codegen::g_function);
        reveal(codegen::g_block_ret);
    }
    let mut f = FnCompiler::new(def.n_slots, def.upvals.len());
    f.params(&def.param_bindings);
    f.block_ret(&def.body);
    f.finish(def)
}

/// Compile a whole chunk, which is a function of no arguments. Every
/// instruction of the result refers only to registers, constants, names and
/// code that exist, in it and in every function nested in it.
pub fn compile_chunk(def: &FuncDef) -> (r: Result<Proto, Fault>)
    ensures
        match r {
            Ok(p) => codegen::g_function(*def).bad is None && bytecode::proto_view(p)
                == codegen::proto_of(codegen::g_function(*def), *def) && bytecode::proto_ok(
                bytecode::proto_view(p),
            ),
            Err(why) => codegen::g_function(*def).bad == Some(why),
        },
{
    compile_function(def)
}

} // verus!
