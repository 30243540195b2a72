//! Calls.
use crate::ast;
use crate::ast::{Expr};
use crate::bytecode;
use crate::bytecode::{Op, MULTI, NO_METHOD};
use crate::codegen;
use crate::codegen::{Fault};
use crate::value::Value;
use super::{plain_reg, FnCompiler};
use vstd::prelude::*;

verus! {

impl FnCompiler {
    // ---- calls -----------------------------------------------------------------------

    /// Compile a call's arguments. A call in last position spreads: every
    /// value it produced becomes an argument, as in `print(f())`.
    #[verifier::rlimit(30)]
    pub(super) fn args(&mut self, args: &Vec<Expr>) -> (spread: bool)
        requires
            super::good(old(self)@),
        ensures
            (final(self)@, spread) == codegen::g_args(old(self)@, args@),
            super::good(final(self)@),
            super::grows(old(self)@, final(self)@),
            final(self)@.bad is None ==> final(self)@.free == old(self)@.free + args@.len(),
            spread ==> args@.len() > 0,
        decreases *args, 9int,
    {
        proof {
            reveal(codegen::g_args);
            reveal(codegen::g_call);
            reveal(codegen::g_expr);
        }
        let n: usize = args.len();
        let mut i: usize = 0;
        assert(args@.skip(0) == args@);
        while i < n
            invariant
                i <= n == args@.len(),
                super::good(self@),
                super::grows(old(self)@, self@),
                self@.bad is None ==> self@.free == old(self)@.free + i,
                codegen::g_args(self@, args@.skip(i as int)) == codegen::g_args(
                    old(self)@,
                    args@,
                ),
            decreases n - i,
        {
            proof {
                reveal(codegen::g_args);
                reveal(codegen::g_call);
                reveal(codegen::g_expr);
            }
            let ghost rest = args@.skip(i as int);
            proof {
                assert(rest[0] == args@[i as int]);
                assert(rest.drop_first() == args@.skip(i + 1));
                if i + 2 <= n {
                    assert(rest[1] == args@[i + 1]);
                    assert(rest.skip(2) == args@.skip(i + 2));
                }
            }
            if n - i >= 2 {
                match (plain_reg(&args[i]), plain_reg(&args[i + 1])) {
                    (Some(s0), Some(s1)) => {
                        // two locals in a row are one instruction
                        self.slot(s0);
                        self.slot(s1);
                        let d0: u16 = self.take_reg();
                        let d1: u16 = self.take_reg();
                        self.emit(Op::Move2 { d0, s0, d1, s1 });
                        i = i + 2;
                        continue;
                    },
                    _ => {},
                }
            }
            let r: u16 = self.take_reg();
            if n - i == 1 && ast::is_call(&args[i]) {
                self.call_expr(&args[i], r, MULTI);
                return true;
            }
            self.expr(&args[i], r);
            i = i + 1;
        }
        false
    }

    /// The arguments and the call itself, once the window starts at `base`.
    #[verifier::rlimit(60)]
    pub(super) fn window(&mut self, e: &Expr, base: u16, direct: u16, nres: u16) -> (out: u16)
        requires
            super::good(old(self)@),
            old(self)@.bad is None ==> base + 1 == old(self)@.free && direct
                <= old(self)@.max_regs && bytecode::results_fit(
                base,
                nres,
                direct,
                (old(self)@.max_regs + 1) as nat,
            ) && (nres != 1 ==> direct == base),
        ensures
            (final(self)@, out) == codegen::g_window(old(self)@, *e, base, direct, nres),
            super::good(final(self)@),
            super::grows(old(self)@, final(self)@),
            final(self)@.bad is None ==> old(self)@.free <= final(self)@.free,
        decreases *e, 0int,
    {
        proof {
            reveal(codegen::g_window);
            reveal(codegen::g_args);
            reveal(codegen::g_expr);
        }
        match e {
            Expr::Call(f, args) => {
                match &**f {
                    Expr::Global(name, _) => {
                        let g: u16 = self.global(name);
                        if args.len() == 1 {
                            match plain_reg(&args[0]) {
                                Some(a) => {
                                    self.slot(a);
                                    // the window still reserves the slot
                                    self.take_reg();
                                    self.emit(
                                        Op::CallGlobal1 { base, g, a, nres, dst: direct },
                                    );
                                    return direct;
                                },
                                None => {},
                            }
                        }
                        let spread = self.args(args);
                        let nargs: u16 = self.count(args.len());
                        if spread {
                            self.emit(Op::GetGlobal { dst: base, g });
                            let fixed: u16 = if nargs == 0 {
                                0
                            } else {
                                nargs - 1
                            };
                            self.emit(
                                Op::CallSpread { base, nargs: fixed, nres, method: NO_METHOD },
                            );
                            base
                        } else {
                            self.emit(Op::CallGlobal { base, g, nargs, nres, dst: direct });
                            direct
                        }
                    },
                    _ => {
                        self.expr(f, base);
                        let spread = self.args(args);
                        let nargs: u16 = self.count(args.len());
                        if spread {
                            let fixed: u16 = if nargs == 0 {
                                0
                            } else {
                                nargs - 1
                            };
                            self.emit(
                                Op::CallSpread { base, nargs: fixed, nres, method: NO_METHOD },
                            );
                            base
                        } else {
                            self.emit(Op::Call { base, nargs, nres, dst: direct });
                            direct
                        }
                    },
                }
            },
            Expr::Method(obj, name, args) => {
                let recv: u16 = self.take_reg();
                self.expr(obj, recv);
                let spread = self.args(args);
                let k: u16 = self.constant(Value::str(name.as_str()));
                let nargs: u16 = self.count(args.len());
                if spread {
                    self.emit(Op::CallSpread { base, nargs, nres, method: k });
                    base
                } else {
                    self.emit(Op::Method { base, name: k, nargs, nres, dst: direct });
                    direct
                }
            },
            _ => {
                self.fail(Fault::Unresolved);
                base
            },
        }
    }

    /// Calls put the callee at `base` and its arguments right after it, so
    /// that the machine can hand the callee a contiguous window.
    #[verifier::rlimit(50)]
    pub(super) fn call_expr(&mut self, e: &Expr, dst: u16, nres: u16)
        requires
            super::good(old(self)@),
            super::has_reg(old(self)@, dst),
            nres != 0 && nres != 1 && nres != MULTI && old(self)@.bad is None ==> dst
                >= old(self)@.n_slots && dst + nres <= old(self)@.free,
        ensures
            final(self)@ == codegen::g_call(old(self)@, *e, dst, nres),
            super::good(final(self)@),
            super::grows(old(self)@, final(self)@),
            super::kept_for(old(self)@, final(self)@, dst),
        decreases *e, 1int,
    {
        proof {
            reveal(codegen::g_call);
            reveal(codegen::g_window);
        }
        let mark: u16 = self.mark();
        if dst >= self.def_locals() {
            self.release(dst);
        }
        let base: u16 = self.take_reg();
        let direct: u16 = if nres == 1 && base != dst {
            dst
        } else {
            base
        };
        let out: u16 = self.window(e, base, direct, nres);
        if nres > 0 && base != dst && out != dst {
            self.emit(Op::Move { dst, src: base });
        }
        let used: u16 = if nres == MULTI || nres == 0 {
            1
        } else {
            nres
        };
        let end: u16 = self.plus(base, used as usize);
        self.release(
            if mark > end {
                mark
            } else {
                end
            },
        );
    }
}

} // verus!
