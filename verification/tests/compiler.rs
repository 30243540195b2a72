//! What is compiled, and what it is compiled to.
use rua::ast::{Arm, BinOp, Binding, Block, Expr, FuncDef, Name, Pattern, Span, Stat};
use rua::jit::ir::{Bound, IrStat, IrStats, IrTail, Store};
use rua::jit::kinds::{Callable, Kind};
use rua::jit::session;
use rua::jit::session::Jit;
use rua::jit::source::{function_source, loop_source, take_file};
use rua::jit::unit::{lower_loop, lower_unit, Check, Load, LoopBody, SelfRef, Unit};

fn alone() -> SelfRef {
    SelfRef { upval: None, global: None, compiled_globals: Vec::new() }
}

fn at(slot: u16) -> Binding {
    Binding { slot, cell: false }
}

fn local(slot: u16) -> Expr {
    Expr::Local(at(slot), "x".to_string())
}

fn num(n: f64) -> Expr {
    Expr::Num(n.to_bits())
}

fn bin(op: BinOp, a: Expr, b: Expr) -> Expr {
    Expr::Bin(op, Box::new(a), Box::new(b))
}

fn index(t: Expr, k: Expr) -> Expr {
    Expr::Index(Box::new(t), Box::new(k))
}

fn len(t: Expr) -> Expr {
    Expr::Method(Box::new(t), "len".to_string(), Vec::new())
}

fn block(stats: Vec<Stat>, tail: Option<Expr>) -> Block {
    let lines = stats.iter().map(|_| 1).collect();
    Block { stats, lines, tail: tail.map(Box::new), tail_line: 1 }
}

fn name() -> Name {
    Name { text: "x".to_string(), span: Span { lo: 0, hi: 0 }, ty: None }
}

fn func(params: &[u16], stats: Vec<Stat>, tail: Option<Expr>, slots: usize) -> FuncDef {
    FuncDef {
        id: 3,
        name: "f".to_string(),
        params: params.iter().map(|_| name()).collect(),
        ret: None,
        body: block(stats, tail),
        line: 1,
        n_slots: slots,
        param_bindings: params.iter().map(|s| at(*s)).collect(),
        upvals: Vec::new(),
    }
}

fn let_slot(slot: u16, e: Expr) -> Stat {
    Stat::LetSlots(vec![at(slot)], vec![e])
}

fn count(slot: u16, end: Expr, body: Vec<Stat>) -> Stat {
    Stat::ForRange {
        id: 1,
        var: name(),
        binding: Some(at(slot)),
        start: num(0.0),
        end,
        inclusive: false,
        body: block(body, None),
    }
}

fn nth(s: &IrStats, n: usize) -> &IrStat {
    match s {
        IrStats::Then(first, rest) => {
            if n == 0 {
                first
            } else {
                nth(rest, n - 1)
            }
        }
        IrStats::End => panic!("there are not so many statements"),
    }
}

fn lowered(def: &FuncDef) -> Unit {
    match lower_unit(def, alone()) {
        Ok(u) => u,
        Err(e) => panic!("{e}"),
    }
}

#[test]
fn a_function_of_numbers_compiles() {
    let u = lowered(&func(&[0, 1], Vec::new(), Some(bin(BinOp::Add, local(0), local(1))), 2));
    assert_eq!(u.param_kinds, vec![Kind::Num, Kind::Num]);
    assert!(!u.returns_table);
    assert!(!u.code.returns_nil);
    assert!(!u.code.calls);
    assert!(u.inlined.is_empty() && u.beside.is_empty());
    assert!(matches!(u.code.body.tail, IrTail::Value(_)));
}

#[test]
fn a_table_that_is_read_in_bounds_needs_no_test() {
    let add = Stat::OpAssign(local(1), BinOp::Add, index(local(0), local(2)));
    let stats = vec![let_slot(1, num(0.0)), count(2, len(local(0)), vec![add])];
    let u = lowered(&func(&[0], stats, Some(local(1)), 4));
    assert_eq!(u.param_kinds, vec![Kind::Table]);
    assert!(u.code.loads.contains(&Load::Table { slot: 0, mutable: false }));
    match nth(&u.code.body.stats, 1) {
        IrStat::For { body, .. } => match nth(&body.stats, 0) {
            IrStat::Update(BinOp::Add, 1, v) => {
                assert!(matches!(v, rua::jit::ir::Ir::Read { slot: 0, proven: true, .. }));
            }
            _ => panic!("the update was expected"),
        },
        _ => panic!("the loop was expected"),
    }
}

#[test]
fn a_table_that_is_written_is_handed_out_to_be_written() {
    let write = Stat::Assign(vec![index(local(0), local(2))], vec![num(1.0)]);
    let u = lowered(&func(&[0], vec![count(2, len(local(0)), vec![write])], None, 4));
    assert!(u.code.loads.contains(&Load::Table { slot: 0, mutable: true }));
    match nth(&u.code.body.stats, 0) {
        IrStat::For { body, .. } => {
            assert!(matches!(nth(&body.stats, 0), IrStat::Write { slot: 0, how: Store::Proven, .. }));
        }
        _ => panic!("the loop was expected"),
    }
    assert!(u.code.returns_nil);
}

#[test]
fn a_bound_that_is_a_parameter_is_checked_on_the_way_in() {
    let add = Stat::OpAssign(local(2), BinOp::Add, index(local(0), local(3)));
    let stats = vec![let_slot(2, num(0.0)), count(3, local(1), vec![add])];
    let u = lowered(&func(&[0, 1], stats, Some(local(2)), 5));
    assert_eq!(u.param_kinds, vec![Kind::Table, Kind::Num]);
    assert!(u.code.checks.contains(&Check::Len(0, Bound::Local(1))), "{:?}", u.code.checks);
}

#[test]
fn what_is_not_a_number_does_not_compile() {
    let e = lower_unit(&func(&[], Vec::new(), Some(Expr::Str("a".to_string())), 0), alone()).err();
    assert!(e.is_some());
    let call = Expr::Call(Box::new(Expr::Global("g".to_string(), Span { lo: 0, hi: 0 })), Vec::new());
    assert!(lower_unit(&func(&[], Vec::new(), Some(call), 0), alone()).is_err());
}

#[test]
fn a_compiled_global_is_called_directly() {
    let call = Expr::Call(
        Box::new(Expr::Global("g".to_string(), Span { lo: 0, hi: 0 })),
        vec![local(0)],
    );
    let known = SelfRef {
        upval: None,
        global: None,
        compiled_globals: vec![Callable { name: "g".to_string(), kinds: vec![Kind::Num], def: None }],
    };
    let u = lower_unit(&func(&[0], Vec::new(), Some(call), 1), known).ok().unwrap();
    assert_eq!(u.inlined, vec!["g"]);
    assert!(u.code.calls);
}

#[test]
fn a_hot_loop_compiles_over_the_slots_it_touches() {
    let st = count(4, num(10.0), vec![Stat::OpAssign(local(2), BinOp::Add, local(4))]);
    let u = lower_loop(&st, alone()).ok().unwrap();
    assert_eq!(u.slots, vec![2, 4]);
    assert_eq!(u.kinds.len(), 2);
    assert!(u.stores.contains(&2));
    assert!(matches!(u.body, LoopBody::Count { slot: 4, inclusive: false, .. }));
}

#[test]
fn a_loop_that_returns_is_not_compiled() {
    let st = Stat::Loop(1, block(vec![Stat::Return(vec![num(1.0)])], None));
    assert!(lower_loop(&st, alone()).is_err());
}

// ---- the session ---------------------------------------------------------------------------------

#[test]
fn settings_come_from_what_is_set() {
    let j = Jit::new(None, None, None, None);
    assert!(j.enabled && !j.dump && j.cache);
    assert_eq!(j.threshold, 50);
    let j = Jit::new(Some("off"), Some("7"), Some("1"), Some("0"));
    assert!(!j.enabled && j.dump && !j.cache);
    assert_eq!(j.threshold, 7);
}

#[test]
fn what_could_not_be_compiled_is_remembered() {
    let mut j = Jit::new(None, None, None, None);
    let bad = func(&[], Vec::new(), Some(Expr::Str("a".to_string())), 0);
    assert!(j.compile(&bad, alone()).is_err());
    assert_eq!(j.bailed, 1);
    assert!(j.last_error.as_deref().unwrap().starts_with("f: "));
    let good = func(&[0], Vec::new(), Some(local(0)), 1);
    assert!(j.compile(&good, alone()).is_ok());
    j.built();
    assert_eq!((j.compiled, j.bailed), (1, 1));
}

#[test]
fn generated_code_has_names_of_its_own() {
    let mut j = Jit::new(None, None, None, None);
    assert_eq!(j.loop_symbol(), "rua_loop_1");
    assert_eq!(j.loop_symbol(), "rua_loop_2");
    assert_eq!(session::function_symbol(12), "rua_jit_12");
    assert_eq!(session::file_stem("rua_jit_12", "a"), "rua_jit_12_af74d84c8601ec8c");
}

#[test]
fn a_callee_is_put_before_what_calls_it() {
    let head = "use std::x;\n";
    let f = "#[no_mangle]\npub unsafe extern \"C\" fn rua_jit_1(a: u8) { }\n";
    let src = format!("{head}{f}");
    assert_eq!(session::item_of(&src, "rua_jit_1"), f);
    let out = session::splice_inlined(&src, "rua_jit_1", "fn g() { }\n");
    assert_eq!(out, format!("{head}fn g() {{ }}\n{f}"));
}

#[test]
fn the_oldest_of_what_is_kept_goes_first() {
    assert_eq!(session::prune_order(&vec![30, 10, 20]), vec![1, 2, 0]);
    assert_eq!(session::prune_target(10, 100), None);
    assert!(session::prune_target(200, 100).is_some());
    assert_eq!(session::cache_cap(None).is_some(), true);
}

// ---- the text ------------------------------------------------------------------------------------

fn written(def: &FuncDef) -> String {
    match function_source(&session::function_symbol(def.id), &lowered(def)) {
        Ok(s) => s,
        Err(e) => panic!("{e}"),
    }
}

#[test]
fn a_function_is_written_as_rust() {
    let s = written(&func(&[0, 1], Vec::new(), Some(bin(BinOp::Add, local(0), local(1))), 2));
    assert!(s.starts_with("#![allow("), "{s}");
    assert!(s.contains("pub unsafe extern \"C\" fn rua_jit_3("), "{s}");
    assert!(s.contains("let mut v0: f64 = (*args.add(0usize)).num;"), "{s}");
    assert!(s.contains("let mut v1: f64 = (*args.add(1usize)).num;"), "{s}");
    assert!(s.contains("(v0 + v1)"), "{s}");
    assert!(!s.contains("*__depth += 1;"), "{s}");
    assert_eq!(session::item_of(&s, "rua_jit_3").lines().next(), Some("#[no_mangle]"));
}

#[test]
fn a_number_is_written_by_its_bits() {
    let s = written(&func(&[], Vec::new(), Some(num(2.5)), 0));
    assert!(s.contains(&format!("f64::from_bits({}u64)", 2.5f64.to_bits())), "{s}");
    let s = written(&func(&[0], Vec::new(), Some(bin(BinOp::Rem, local(0), num(2.0))), 1));
    assert!(s.contains("rua_rem(v0, f64::from_bits("), "{s}");
}

#[test]
fn a_table_is_fetched_and_checked_on_the_way_in() {
    let add = Stat::OpAssign(local(2), BinOp::Add, index(local(0), local(3)));
    let stats = vec![let_slot(2, num(0.0)), count(3, local(1), vec![add])];
    let s = written(&func(&[0, 1], stats, Some(local(2)), 5));
    assert!(s.contains("let p0: *const f64 = rua_span(rt, v0, &mut n0, ok);"), "{s}");
    assert!(s.contains("if (v1).ceil() > (n0 as f64) {"), "{s}");
    assert!(s.contains("v2 += unsafe { *p0.add(rua_idx(v3)) };"), "{s}");
    assert!(s.contains("while v3 < __end {"), "{s}");
    assert!(s.contains("'body1: {"), "{s}");
    let write = Stat::Assign(vec![index(local(0), local(2))], vec![num(1.0)]);
    let s = written(&func(&[0], vec![count(2, len(local(0)), vec![write])], None, 4));
    assert!(s.contains("let p0: *mut f64 = rua_span_mut(rt, v0, &mut n0, ok);"), "{s}");
    assert!(s.contains("*p0.add(rua_idx(v2)) = f64::from_bits("), "{s}");
}

#[test]
fn an_index_that_is_not_proven_is_tested() {
    let s = written(&func(&[0, 1], Vec::new(), Some(index(local(0), local(1))), 2));
    assert!(s.contains("if __u >= n0 || (__k as f64) != __i {"), "{s}");
    assert!(s.contains("return 0.0;"), "{s}");
}

#[test]
fn a_call_counts_how_deep_it_is() {
    let call = Expr::Call(
        Box::new(Expr::Global("f".to_string(), Span { lo: 0, hi: 0 })),
        vec![local(0)],
    );
    let me = SelfRef { upval: None, global: Some("f".to_string()), compiled_globals: Vec::new() };
    let u = lower_unit(&func(&[0], Vec::new(), Some(call), 1), me).ok().unwrap();
    let s = function_source("rua_jit_3", &u).unwrap();
    assert!(s.contains("*__depth += 1;"), "{s}");
    assert!(s.contains("rua_jit_3(__args.as_ptr(), rt, ok, std::ptr::null_mut())"), "{s}");
    let call = Expr::Call(
        Box::new(Expr::Global("g".to_string(), Span { lo: 0, hi: 0 })),
        vec![local(0)],
    );
    let known = SelfRef {
        upval: None,
        global: None,
        compiled_globals: vec![Callable { name: "g".to_string(), kinds: vec![Kind::Num], def: None }],
    };
    let u = lower_unit(&func(&[0], Vec::new(), Some(call), 1), known).ok().unwrap();
    let s = function_source("rua_jit_3", &u).unwrap();
    assert!(s.contains("*(*rt).callees.add(0usize)"), "{s}");
}

#[test]
fn a_small_callee_is_written_above_its_caller() {
    let mut g = func(&[0], Vec::new(), Some(bin(BinOp::Mul, local(0), local(0))), 1);
    g.id = 9;
    let call = Expr::Call(
        Box::new(Expr::Global("g".to_string(), Span { lo: 0, hi: 0 })),
        vec![local(0)],
    );
    let known = SelfRef {
        upval: None,
        global: None,
        compiled_globals: vec![Callable {
            name: "g".to_string(),
            kinds: vec![Kind::Num],
            def: Some(std::rc::Rc::new(g)),
        }],
    };
    let u = lower_unit(&func(&[0], Vec::new(), Some(call), 1), known).ok().unwrap();
    assert_eq!(u.beside.len(), 1);
    let s = function_source("rua_jit_3", &u).unwrap();
    let callee = s.find("pub unsafe extern \"C\" fn rua_inl_9(").unwrap();
    let caller = s.find("pub unsafe extern \"C\" fn rua_jit_3(").unwrap();
    assert!(callee < caller);
    assert!(s.contains("(v0 * v0)"), "{s}");
    assert_eq!(s.matches("pub struct RtArg").count(), 1);
}

#[test]
fn a_loop_is_written_without_its_start() {
    let st = count(4, num(10.0), vec![Stat::OpAssign(local(2), BinOp::Add, local(4))]);
    let u = lower_loop(&st, alone()).ok().unwrap();
    let s = loop_source("rua_loop_1", &u).unwrap();
    assert!(s.contains("pub unsafe extern \"C\" fn rua_loop_1("), "{s}");
    assert!(s.contains("while v4 < __end {"), "{s}");
    assert!(s.contains("(*regs.add(0usize)).num = v2;"), "{s}");
    assert!(s.contains("(*regs.add(1usize)).num = v4;"), "{s}");
    assert!(!s.contains("let mut v4: f64 = f64::from_bits("), "{s}");
}

#[test]
fn a_match_is_a_chain_of_tests() {
    let arm = |patterns: Vec<Pattern>, n: f64| Arm {
        patterns,
        guard: None,
        body: block(Vec::new(), Some(num(n))),
    };
    let m = Expr::Match(
        Box::new(local(0)),
        vec![arm(vec![Pattern::Lit(num(1.0)), Pattern::Lit(num(2.0))], 5.0), arm(vec![Pattern::Wild], 6.0)],
    );
    let s = written(&func(&[0], Vec::new(), Some(m), 1));
    assert!(s.contains("let __m: f64 = v0;"), "{s}");
    assert!(s.contains("(__m == f64::from_bits("), "{s}");
    assert!(s.contains(" || "), "{s}");
}

#[test]
fn several_values_are_made_before_any_is_stored() {
    let swap = Stat::Assign(vec![local(0), local(1)], vec![local(1), local(0)]);
    let s = written(&func(&[0, 1], vec![swap], Some(local(0)), 2));
    let a = s.find("let __a1: f64 = v0;").unwrap();
    let b = s.find("v0 = __a0;").unwrap();
    assert!(a < b, "{s}");
    let s = written(&func(&[0], vec![let_slot(1, local(0))], Some(local(1)), 2));
    assert!(s.contains("let __t0: f64 = v0;"), "{s}");
    assert!(s.contains("let mut v1: f64 = __t0;"), "{s}");
}

#[test]
fn what_does_not_parse_says_so() {
    assert_eq!(
        take_file(Err("unexpected token".to_string())),
        Err("generated Rust did not parse: unexpected token".to_string())
    );
    assert_eq!(take_file(Ok("a".to_string())), Ok("a".to_string()));
}
