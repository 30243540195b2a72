//! Programs, compiled and run. The host below does what the machine leaves to
//! it: arithmetic on numbers, how they are written, and the builtins.
use rua::ast::{BinOp, Binding, Block, Expr, FuncDef, Name, Span, Stat, Type, UnOp, UpvalSrc};
use rua::bytecode::{BinKind, Op};
use rua::codegen::Fault;
use rua::compile::compile_chunk;
use rua::table::Table;
use rua::value::{Error, RStr, Value};
use rua::jit::kinds::Kind;
use rua::vm::{Event, Made, MethodTable, Outcome, Request, Vm};
use std::rc::Rc;

struct Host {
    vm: Vm,
    said: Vec<String>,
}

fn number(n: f64) -> Value {
    Value::Num(n.to_bits())
}

fn written(bits: u64) -> String {
    f64::from_bits(bits).to_string()
}

impl Host {
    fn new() -> Host {
        let mut vm = Vm::bare();
        assert_eq!(vm.register("print"), 0);
        assert_eq!(vm.register("fail"), 1);
        assert_eq!(vm.register("two"), 2);
        Host { vm, said: Vec::new() }
    }

    fn shown(&self, v: &Value) -> String {
        match self.vm.show(v) {
            Ok(s) => s,
            Err(bits) => written(bits),
        }
    }

    fn builtin(&mut self, id: usize, args: &[Value]) -> Event {
        match id {
            0 => {
                let texts: Vec<String> = args.iter().map(|v| self.shown(v)).collect();
                self.said.push(texts.join(" "));
                Event::Values(Vec::new())
            }
            1 => Event::Fault(rua::value::Error("it failed".to_string())),
            _ => Event::Values(vec![number(1.0), number(2.0)]),
        }
    }

    fn answer(&mut self, q: Request) -> Event {
        match q {
            Request::Native { id, args } => self.builtin(id, &args),
            Request::Compute { kind, x, y } => {
                let (a, b) = (f64::from_bits(x), f64::from_bits(y));
                let n = match kind {
                    BinKind::Add => a + b,
                    BinKind::Sub => a - b,
                    BinKind::Mul => a * b,
                    BinKind::Div => a / b,
                    _ => a % b,
                };
                Event::Number(n.to_bits())
            }
            Request::Read { text } => {
                let n = text.as_str().trim().parse::<f64>().ok();
                Event::Read(text, n.map(f64::to_bits))
            }
            Request::Show { bits } => Event::Shown(bits, RStr::new(&written(bits))),
            Request::Compiled { .. } => Event::Declined,
            Request::Hot { .. } => Event::Ran(false),
            Request::Stale { .. } => Event::Seen,
        }
    }

    fn finish(&mut self, first: Outcome) -> Result<Vec<Value>, Error> {
        let mut out = first;
        loop {
            out = match out {
                Outcome::Run => self.vm.run(1000),
                Outcome::Done(vals) => return Ok(vals),
                Outcome::Fail(e) => return Err(e),
                Outcome::Ask(q) => {
                    let reply = self.answer(q);
                    self.vm.resume(reply)
                }
            };
        }
    }

    fn run(&mut self, stats: Vec<Stat>, tail: Option<Expr>, slots: usize) -> Result<Vec<Value>, Error> {
        let proto = compile_chunk(&chunk(stats, tail, slots)).expect("it compiles");
        let first = self.vm.eval(Rc::new(proto));
        self.finish(first)
    }
}

// ---- writing programs ----------------------------------------------------------------------------

fn block(stats: Vec<Stat>, tail: Option<Expr>) -> Block {
    let lines = (1..=stats.len() as u32).collect();
    Block { stats, lines, tail: tail.map(Box::new), tail_line: 9 }
}

fn func(name: &str, params: &[u16], stats: Vec<Stat>, tail: Option<Expr>, slots: usize, upvals: Vec<UpvalSrc>) -> FuncDef {
    FuncDef {
        id: 7,
        name: name.to_string(),
        params: params.iter().map(|_| plain_name("p")).collect(),
        ret: None,
        body: block(stats, tail),
        line: 1,
        n_slots: slots,
        param_bindings: params.iter().map(|s| Binding { slot: *s, cell: false }).collect(),
        upvals,
    }
}

fn chunk(stats: Vec<Stat>, tail: Option<Expr>, slots: usize) -> FuncDef {
    func("<chunk>", &[], stats, tail, slots, Vec::new())
}

fn plain_name(s: &str) -> Name {
    Name { text: s.to_string(), span: Span { lo: 0, hi: 0 }, ty: None }
}

fn num(n: f64) -> Expr {
    Expr::Num(n.to_bits())
}

fn text(s: &str) -> Expr {
    Expr::Str(s.to_string())
}

fn local(slot: u16) -> Expr {
    Expr::Local(Binding { slot, cell: false }, "x".to_string())
}

fn shared(slot: u16) -> Expr {
    Expr::Local(Binding { slot, cell: true }, "x".to_string())
}

fn global(name: &str) -> Expr {
    Expr::Global(name.to_string(), Span { lo: 0, hi: 0 })
}

fn bin(op: BinOp, a: Expr, b: Expr) -> Expr {
    Expr::Bin(op, Box::new(a), Box::new(b))
}

fn call(f: Expr, args: Vec<Expr>) -> Expr {
    Expr::Call(Box::new(f), args)
}

fn index(o: Expr, k: Expr) -> Expr {
    Expr::Index(Box::new(o), Box::new(k))
}

fn let_slot(slot: u16, e: Expr) -> Stat {
    Stat::LetSlots(vec![Binding { slot, cell: false }], vec![e])
}

fn the_number(vals: &[Value]) -> f64 {
    match vals {
        [Value::Num(b)] => f64::from_bits(*b),
        _ => panic!("one number was to come out"),
    }
}

fn the_text(vals: &[Value]) -> String {
    match vals {
        [Value::Str(s)] => s.as_str().to_string(),
        _ => panic!("one text was to come out"),
    }
}

// ---- expressions ---------------------------------------------------------------------------------

#[test]
fn arithmetic_follows_the_usual_order() {
    let e = bin(BinOp::Add, num(2.0), bin(BinOp::Mul, num(3.0), num(4.0)));
    let out = Host::new().run(Vec::new(), Some(e), 0).ok().unwrap();
    assert_eq!(the_number(&out), 14.0);
}

#[test]
fn a_text_and_a_number_join() {
    let e = bin(BinOp::Add, text("n = "), num(1.5));
    let out = Host::new().run(Vec::new(), Some(e), 0).ok().unwrap();
    assert_eq!(the_text(&out), "n = 1.5");
}

#[test]
fn a_text_that_reads_as_a_number_is_one_where_one_is_needed() {
    let e = bin(BinOp::Sub, text("10"), num(3.0));
    let out = Host::new().run(Vec::new(), Some(e), 0).ok().unwrap();
    assert_eq!(the_number(&out), 7.0);
}

#[test]
fn a_text_that_does_not_is_an_error() {
    let e = bin(BinOp::Sub, text("ten"), num(3.0));
    let e = Host::new().run(Vec::new(), Some(e), 0).err().unwrap();
    assert!(e.message.contains("ten"), "{}", e.message);
    assert!(e.located);
    assert_eq!(e.line, 9);
}

#[test]
fn texts_compare_by_their_letters() {
    let e = bin(BinOp::Lt, text("apple"), text("pear"));
    let out = Host::new().run(Vec::new(), Some(e), 0).ok().unwrap();
    assert!(matches!(out[..], [Value::Bool(true)]));
}

#[test]
fn a_nan_equals_nothing() {
    let nan = bin(BinOp::Div, num(0.0), num(0.0));
    let stats = vec![let_slot(0, nan)];
    let out = Host::new().run(stats, Some(bin(BinOp::Eq, local(0), local(0))), 1).ok().unwrap();
    assert!(matches!(out[..], [Value::Bool(false)]));
}

#[test]
fn or_gives_the_first_true_value_and_and_the_last() {
    let e = bin(BinOp::Or, Expr::Nil, num(2.0));
    assert_eq!(the_number(&Host::new().run(Vec::new(), Some(e), 0).ok().unwrap()), 2.0);
    let e = bin(BinOp::And, num(1.0), num(2.0));
    assert_eq!(the_number(&Host::new().run(Vec::new(), Some(e), 0).ok().unwrap()), 2.0);
}

// ---- statements ----------------------------------------------------------------------------------

#[test]
fn a_counted_loop_adds_up() {
    let body = block(vec![Stat::OpAssign(local(0), BinOp::Add, local(1))], None);
    let stats = vec![
        let_slot(0, num(0.0)),
        Stat::ForRange {
            id: 1,
            var: plain_name("i"),
            binding: Some(Binding { slot: 1, cell: false }),
            start: num(0.0),
            end: num(101.0),
            inclusive: false,
            body,
        },
    ];
    let out = Host::new().run(stats, Some(local(0)), 3).ok().unwrap();
    assert_eq!(the_number(&out), 5050.0);
}

#[test]
fn a_loop_is_left_by_break() {
    let body = block(
        vec![
            Stat::OpAssign(local(0), BinOp::Add, num(1.0)),
            Stat::Expr(Expr::If(
                vec![(bin(BinOp::Gt, local(0), num(4.0)), block(vec![Stat::Break], None))],
                None,
            )),
        ],
        None,
    );
    let stats = vec![let_slot(0, num(0.0)), Stat::Loop(2, body)];
    let out = Host::new().run(stats, Some(local(0)), 1).ok().unwrap();
    assert_eq!(the_number(&out), 5.0);
}

#[test]
fn values_of_a_table_are_walked_in_order() {
    let table = Expr::Array(vec![num(3.0), num(1.0), num(2.0)]);
    let body = block(
        vec![Stat::Assign(vec![local(0)], vec![bin(BinOp::Add, local(0), local(1))])],
        None,
    );
    let stats = vec![
        let_slot(0, text("")),
        Stat::ForIn {
            id: 3,
            vars: vec![plain_name("v")],
            bindings: vec![Binding { slot: 1, cell: false }],
            iter: table,
            body,
        },
    ];
    let out = Host::new().run(stats, Some(local(0)), 4).ok().unwrap();
    assert_eq!(the_text(&out), "312");
}

#[test]
fn a_table_keeps_what_is_written() {
    let stats = vec![
        let_slot(0, Expr::Entries(vec![(text("x"), num(1.0))])),
        Stat::Assign(vec![index(local(0), text("y"))], vec![num(41.0)]),
    ];
    let sum = bin(BinOp::Add, index(local(0), text("x")), index(local(0), text("y")));
    let out = Host::new().run(stats, Some(sum), 1).ok().unwrap();
    assert_eq!(the_number(&out), 42.0);
}

#[test]
fn two_names_change_places() {
    let stats = vec![
        let_slot(0, num(1.0)),
        let_slot(1, num(2.0)),
        Stat::Assign(vec![local(0), local(1)], vec![local(1), local(0)]),
    ];
    let e = bin(BinOp::Sub, local(0), local(1));
    assert_eq!(the_number(&Host::new().run(stats, Some(e), 2).ok().unwrap()), 1.0);
}

// ---- functions -----------------------------------------------------------------------------------

#[test]
fn a_function_calls_itself() {
    let less = bin(BinOp::Lt, local(0), num(2.0));
    let again = |n: f64| call(global("fib"), vec![bin(BinOp::Sub, local(0), num(n))]);
    let tail = Expr::If(
        vec![(less, block(Vec::new(), Some(local(0))))],
        Some(block(Vec::new(), Some(bin(BinOp::Add, again(1.0), again(2.0))))),
    );
    let fib = func("fib", &[0], Vec::new(), Some(tail), 1, Vec::new());
    let stats = vec![Stat::Assign(vec![global("fib")], vec![Expr::Func(Box::new(fib))])];
    let out = Host::new().run(stats, Some(call(global("fib"), vec![num(15.0)])), 0).ok().unwrap();
    assert_eq!(the_number(&out), 610.0);
}

#[test]
fn a_closure_shares_what_it_captures() {
    let bump = func(
        "",
        &[],
        vec![Stat::Assign(
            vec![Expr::Upval(0, "n".to_string())],
            vec![bin(BinOp::Add, Expr::Upval(0, "n".to_string()), num(1.0))],
        )],
        None,
        0,
        vec![UpvalSrc::ParentLocal(0)],
    );
    let stats = vec![
        Stat::LetSlots(vec![Binding { slot: 0, cell: true }], vec![num(5.0)]),
        let_slot(1, Expr::Func(Box::new(bump))),
        Stat::Expr(call(local(1), Vec::new())),
        Stat::Expr(call(local(1), Vec::new())),
    ];
    let out = Host::new().run(stats, Some(shared(0)), 2).ok().unwrap();
    assert_eq!(the_number(&out), 7.0);
}

#[test]
fn a_call_may_give_more_than_one_value() {
    let stats = vec![Stat::LetSlots(
        vec![Binding { slot: 0, cell: false }, Binding { slot: 1, cell: false }],
        vec![call(global("two"), Vec::new())],
    )];
    let e = bin(BinOp::Add, bin(BinOp::Mul, local(0), num(10.0)), local(1));
    let out = Host::new().run(stats, Some(e), 2).ok().unwrap();
    assert_eq!(the_number(&out), 12.0);
}

#[test]
fn builtins_are_called_with_what_they_are_given() {
    let mut host = Host::new();
    let stats = vec![Stat::Expr(call(global("print"), vec![num(1.0), text("a"), Expr::Nil, Expr::Bool(true)]))];
    assert!(host.run(stats, None, 0).is_ok());
    assert_eq!(host.said, vec!["1 a nil true"]);
}

#[test]
fn an_error_says_where_it_came_from() {
    let inner = func("inner", &[], Vec::new(), Some(call(global("fail"), Vec::new())), 0, Vec::new());
    let outer = func("outer", &[], Vec::new(), Some(bin(BinOp::Add, call(global("inner"), Vec::new()), num(1.0))), 0, Vec::new());
    let stats = vec![
        Stat::Assign(vec![global("inner")], vec![Expr::Func(Box::new(inner))]),
        Stat::Assign(vec![global("outer")], vec![Expr::Func(Box::new(outer))]),
    ];
    let e = Host::new().run(stats, Some(bin(BinOp::Add, call(global("outer"), Vec::new()), num(1.0))), 0).err().unwrap();
    assert_eq!(e.message, "it failed");
    assert_eq!(e.where_.as_deref(), Some("inner"));
    assert_eq!(e.text(), "line 9: it failed (in inner)");
    assert_eq!(e.traceback(), vec!["inner called from outer, line 9", "outer called from top level, line 9"]);
}

#[test]
fn calls_may_not_nest_without_end() {
    let f = func("f", &[], Vec::new(), Some(bin(BinOp::Add, call(global("f"), Vec::new()), num(1.0))), 0, Vec::new());
    let stats = vec![Stat::Assign(vec![global("f")], vec![Expr::Func(Box::new(f))])];
    let e = Host::new().run(stats, Some(call(global("f"), Vec::new())), 0).err().unwrap();
    assert_eq!(e.message, "stack overflow");
}

#[test]
fn what_cannot_be_called_is_not() {
    let e = Host::new().run(Vec::new(), Some(call(num(1.0), Vec::new())), 0).err().unwrap();
    assert_eq!(e.message, "cannot call a number value");
}

#[test]
fn after_an_error_the_machine_goes_on() {
    let mut host = Host::new();
    assert!(host.run(Vec::new(), Some(call(Expr::Nil, Vec::new())), 0).is_err());
    let out = host.run(Vec::new(), Some(num(3.0)), 0).ok().unwrap();
    assert_eq!(the_number(&out), 3.0);
}

// ---- globals, methods and the host ---------------------------------------------------------------

#[test]
fn a_global_is_what_it_was_last_given() {
    let mut host = Host::new();
    host.vm.set_global("n", number(1.0));
    let stats = vec![Stat::Assign(vec![global("n")], vec![bin(BinOp::Add, global("n"), num(1.0))])];
    assert!(host.run(stats, None, 0).is_ok());
    assert!(matches!(host.vm.get_global("n"), Value::Num(b) if f64::from_bits(b) == 2.0));
    assert!(matches!(host.vm.get_global("missing"), Value::Nil));
    assert!(host.vm.global_names().contains(&"n".to_string()));
}

#[test]
fn a_method_is_found_in_the_table_of_its_type() {
    let mut host = Host::new();
    let t = host.vm.new_table();
    let mut methods = Table::new();
    methods.set_str("say", host.vm.get_global("print"));
    host.vm.swap_table(t, methods);
    host.vm.set_method_table(MethodTable::Str, t);
    let e = Expr::Method(Box::new(text("hello")), "say".to_string(), vec![num(2.0)]);
    assert!(host.run(Vec::new(), Some(e), 0).is_ok());
    assert_eq!(host.said, vec!["hello 2"]);
}

#[test]
fn a_function_can_be_called_from_outside() {
    let mut host = Host::new();
    let double = func("double", &[0], Vec::new(), Some(bin(BinOp::Mul, local(0), num(2.0))), 1, Vec::new());
    let stats = vec![Stat::Assign(vec![global("double")], vec![Expr::Func(Box::new(double))])];
    assert!(host.run(stats, None, 0).is_ok());
    let f = host.vm.get_global("double");
    let first = host.vm.call_value(&f, vec![number(21.0)]);
    let out = host.finish(first).ok().unwrap();
    assert_eq!(the_number(&out), 42.0);
    match f {
        Value::Func(i) => assert_eq!(host.vm.function(i).map(|g| g.proto.def_id), Some(7)),
        _ => panic!("a function was stored"),
    }
    assert!(host.vm.function(99).is_none());
}

#[test]
fn a_hot_function_is_offered_to_compiled_code() {
    let mut host = Host::new();
    host.vm.set_jit(true, 2);
    let one = func("one", &[], Vec::new(), Some(num(1.0)), 0, Vec::new());
    let stats = vec![
        Stat::Assign(vec![global("one")], vec![Expr::Func(Box::new(one))]),
        Stat::Expr(call(global("one"), Vec::new())),
    ];
    let tail = bin(BinOp::Add, call(global("one"), Vec::new()), num(1.0));
    let proto = compile_chunk(&chunk(stats, Some(tail), 0)).expect("it compiles");
    let mut out = host.vm.eval(Rc::new(proto));
    let mut offered = 0;
    let vals = loop {
        out = match out {
            Outcome::Run => host.vm.run(10),
            Outcome::Done(vals) => break vals,
            Outcome::Fail(e) => panic!("{}", e.text()),
            Outcome::Ask(Request::Compiled { .. }) => {
                offered += 1;
                host.vm.resume(Event::Took(number(40.0)))
            }
            Outcome::Ask(q) => {
                let reply = host.answer(q);
                host.vm.resume(reply)
            }
        };
    };
    assert_eq!(offered, 1);
    assert_eq!(the_number(&vals), 41.0);
}

#[test]
fn the_whole_heap_can_be_handed_out_and_back() {
    let mut vm = Vm::bare();
    let t = vm.new_table();
    let mut heap = vm.swap_tables(Vec::new());
    assert!(vm.table(t).is_none());
    heap[t].push(number(1.0));
    vm.swap_tables(heap);
    assert_eq!(vm.table(t).map(|x| x.len()), Some(1));
}

// ---- compiling -----------------------------------------------------------------------------------

#[test]
fn a_name_nobody_resolved_does_not_compile() {
    let e = Expr::Var("x".to_string());
    assert!(matches!(compile_chunk(&chunk(Vec::new(), Some(e), 0)), Err(Fault::Unresolved)));
}

#[test]
fn every_function_ends_in_a_return() {
    let p = compile_chunk(&chunk(vec![let_slot(0, num(1.0))], None, 1)).ok().unwrap();
    assert!(matches!(p.code.last(), Some(Op::Ret { .. })));
    assert_eq!(p.code.len(), p.lines.len());
}

#[test]
fn a_type_declaration_compiles_to_nothing() {
    let ty = Type::Named("number".to_string(), Vec::new(), Span { lo: 0, hi: 0 });
    let with = compile_chunk(&chunk(vec![Stat::TypeAlias(plain_name("N"), Vec::new(), ty)], None, 0)).ok().unwrap();
    let without = compile_chunk(&chunk(Vec::new(), None, 0)).ok().unwrap();
    assert_eq!(with.code, without.code);
}

#[test]
fn a_function_knows_what_it_may_call_directly() {
    let mut host = Host::new();
    let g = func("g", &[0], Vec::new(), Some(local(0)), 1, Vec::new());
    let f = func("f", &[0], Vec::new(), Some(local(0)), 1, Vec::new());
    let stats = vec![
        Stat::Assign(vec![global("g")], vec![Expr::Func(Box::new(g))]),
        Stat::Assign(vec![global("f")], vec![Expr::Func(Box::new(f))]),
    ];
    host.run(stats, None, 0).ok().unwrap();
    let Value::Func(f) = host.vm.get_global("f") else { panic!("f is a function") };
    let Value::Func(g) = host.vm.get_global("g") else { panic!("g is a function") };
    let made = |returns_table| {
        vec![Made {
            func: g,
            kinds: vec![Kind::Num],
            returns_nil: false,
            returns_table,
            def: Rc::new(func("g", &[0], Vec::new(), Some(local(0)), 1, Vec::new())),
        }]
    };
    let r = host.vm.self_ref(f, &made(false));
    assert_eq!(r.upval, None);
    assert_eq!(r.global.as_deref(), Some("f"));
    assert_eq!(r.compiled_globals.len(), 1);
    assert_eq!(r.compiled_globals[0].name, "g");
    assert_eq!(r.compiled_globals[0].kinds, vec![Kind::Num]);
    assert!(host.vm.self_ref(f, &made(true)).compiled_globals.is_empty());
    host.vm.set_global("f", number(1.0));
    assert_eq!(host.vm.self_ref(f, &made(false)).global, None);
}

#[test]
fn a_nil_among_the_values_of_a_table_ends_no_loop() {
    let table = Expr::Array(vec![num(1.0), Expr::Nil, num(2.0)]);
    let body = block(vec![Stat::OpAssign(local(0), BinOp::Add, num(1.0))], None);
    let stats = vec![
        let_slot(0, num(0.0)),
        Stat::ForIn {
            id: 3,
            vars: vec![plain_name("v")],
            bindings: vec![Binding { slot: 1, cell: false }],
            iter: table,
            body,
        },
    ];
    let out = Host::new().run(stats, Some(local(0)), 4).ok().unwrap();
    assert_eq!(the_number(&out), 3.0);
}

#[test]
fn a_comparison_with_a_nan_that_fails_is_not_its_opposite() {
    let less = || bin(BinOp::Lt, local(0), num(1.0));
    let not = Expr::Un(UnOp::Not, Box::new(less()));
    let either = bin(BinOp::Or, less(), bin(BinOp::Gt, local(0), num(1.0)));
    for (cond, want) in [(not, 1.0), (either, 2.0)] {
        let arms = vec![(cond, block(Vec::new(), Some(num(1.0))))];
        let e = Expr::If(arms, Some(block(Vec::new(), Some(num(2.0)))));
        let stats = vec![let_slot(0, bin(BinOp::Div, num(0.0), num(0.0))), let_slot(1, e)];
        let out = Host::new().run(stats, Some(local(1)), 2).ok().unwrap();
        assert_eq!(the_number(&out), want);
    }
}

#[test]
fn a_table_may_hold_what_the_name_it_is_given_to_held() {
    let stats = vec![
        let_slot(0, num(7.0)),
        Stat::Assign(vec![local(0)], vec![Expr::Array(vec![local(0)])]),
    ];
    let out = Host::new().run(stats, Some(index(local(0), num(0.0))), 1).ok().unwrap();
    assert_eq!(the_number(&out), 7.0);
}

#[test]
fn an_if_without_an_else_has_the_value_of_its_arm() {
    let choice = |c: bool| Expr::If(vec![(Expr::Bool(c), block(Vec::new(), Some(num(3.0))))], None);
    let out = Host::new().run(vec![let_slot(0, choice(true))], Some(local(0)), 1).ok().unwrap();
    assert_eq!(the_number(&out), 3.0);
    let out = Host::new().run(vec![let_slot(0, choice(false))], Some(local(0)), 1).ok().unwrap();
    assert!(matches!(out[..], [Value::Nil]));
}

#[test]
fn a_global_given_another_function_is_told_of_even_with_the_jit_off() {
    let mut host = Host::new();
    let f = func("f", &[], Vec::new(), Some(num(1.0)), 0, Vec::new());
    let stats = vec![Stat::Assign(vec![global("f")], vec![Expr::Func(Box::new(f))])];
    let proto = compile_chunk(&chunk(stats, None, 0)).expect("it compiles");
    host.vm.set_jit(false, 50);
    let mut out = host.vm.eval(Rc::new(proto));
    let mut told = Vec::new();
    loop {
        out = match out {
            Outcome::Run => host.vm.run(10),
            Outcome::Ask(Request::Stale { name }) => {
                told.push(name);
                host.vm.resume(Event::Seen)
            }
            Outcome::Ask(_) => panic!("nothing else is asked"),
            _ => break,
        };
    }
    assert_eq!(told, vec!["f"]);
}

#[test]
fn a_range_can_be_called_from_outside() {
    let mut host = Host::new();
    let range = Expr::Range(Box::new(num(4.0)), Box::new(num(6.0)), false);
    let it = host.run(Vec::new(), Some(range), 0).ok().unwrap().remove(0);
    let mut seen = Vec::new();
    for _ in 0..3 {
        let out = match host.vm.call_value(&it, Vec::new()) {
            Outcome::Ask(Request::Compute { x, y, .. }) => {
                let n = f64::from_bits(x) + f64::from_bits(y);
                host.vm.call_turned(&it, n.to_bits())
            }
            other => other,
        };
        match out {
            Outcome::Done(vals) => seen.push(vals.into_iter().next()),
            _ => panic!("a range gives a value"),
        }
    }
    assert!(matches!(&seen[0], Some(Value::Num(b)) if f64::from_bits(*b) == 4.0));
    assert!(matches!(&seen[1], Some(Value::Num(b)) if f64::from_bits(*b) == 5.0));
    assert!(matches!(&seen[2], Some(Value::Nil)));
}

#[test]
fn a_call_from_outside_counts_and_is_offered() {
    let mut host = Host::new();
    host.vm.set_jit(true, 2);
    let f = func("f", &[], Vec::new(), Some(num(1.0)), 0, Vec::new());
    let f = host.run(Vec::new(), Some(Expr::Func(Box::new(f))), 0).ok().unwrap().remove(0);
    assert!(matches!(host.vm.call_value(&f, Vec::new()), Outcome::Run));
    let first = host.finish(Outcome::Run).ok().unwrap();
    assert_eq!(the_number(&first), 1.0);
    match host.vm.call_value(&f, Vec::new()) {
        Outcome::Ask(Request::Compiled { args, .. }) => {
            let out = host.vm.call_declined(&f, args);
            assert_eq!(the_number(&host.finish(out).ok().unwrap()), 1.0);
        }
        _ => panic!("it was to be offered"),
    }
}

#[test]
fn a_loop_that_compiled_code_ran_is_offered_at_its_next_turn() {
    let mut host = Host::new();
    host.vm.set_jit(true, 50);
    let turn = || Stat::OpAssign(local(0), BinOp::Add, num(1.0));
    let until = |n: f64| Stat::While(3, bin(BinOp::Lt, local(0), num(n)), block(vec![turn()], None));
    let stats = vec![
        let_slot(0, num(0.0)),
        until(1500.0),
        Stat::Assign(vec![local(0)], vec![num(0.0)]),
        until(5.0),
    ];
    let proto = compile_chunk(&chunk(stats, Some(local(0)), 1)).expect("it compiles");
    let mut out = host.vm.eval(Rc::new(proto));
    let mut asked = 0;
    let vals = loop {
        out = match out {
            Outcome::Run => host.vm.run(100),
            Outcome::Done(vals) => break vals,
            Outcome::Fail(e) => panic!("{}", e.text()),
            Outcome::Ask(Request::Hot { which }) => {
                assert_eq!(which, 3);
                asked += 1;
                host.vm.resume(Event::Ran(asked == 1))
            }
            Outcome::Ask(q) => {
                let reply = host.answer(q);
                host.vm.resume(reply)
            }
        };
    };
    // once after a thousand turns, and once at the first turn when it comes again
    assert_eq!(asked, 2);
    assert_eq!(the_number(&vals), 5.0);
}
