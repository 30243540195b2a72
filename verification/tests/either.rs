//! The machine and compiled code come to the same. What compiled code does is
//! worked out here from the code that is written out as text.
use rua::ast::{BinOp, Binding, Block, Expr, FuncDef, Name, Span, Stat, UnOp};
use rua::bytecode::BinKind;
use rua::compile::compile_chunk;
use rua::jit::ir::{
    Cond, Ir, IrArgs, IrBlock, IrElse, IrIf, IrList, IrSlots, IrStat, IrStats, IrTail, IrValues, MathFn,
};
use rua::jit::unit::{lower_loop, lower_unit, LoopBody, SelfRef};
use rua::value::Value;
use rua::vm::{Event, MethodTable, Outcome, Request, Vm};
use std::collections::HashMap;
use std::rc::Rc;

/// The locals, and the code of the function itself.
struct Slots {
    at: HashMap<u16, f64>,
    own: Option<Rc<IrBlock>>,
}

impl Slots {
    fn new() -> Slots {
        Slots { at: HashMap::new(), own: None }
    }
}

impl std::ops::Deref for Slots {
    type Target = HashMap<u16, f64>;

    fn deref(&self) -> &HashMap<u16, f64> {
        &self.at
    }
}

impl std::ops::DerefMut for Slots {
    fn deref_mut(&mut self) -> &mut HashMap<u16, f64> {
        &mut self.at
    }
}

/// Call the function itself, whose parameters have the first slots.
fn recur(r: &Slots, args: &IrArgs) -> f64 {
    let mut inner = Slots { at: HashMap::new(), own: r.own.clone() };
    let mut at = args;
    let mut slot = 0;
    while let IrArgs::Num(x, rest) = at {
        inner.insert(slot, value(r, x));
        slot += 1;
        at = rest;
    }
    let body = r.own.clone().expect("it calls itself");
    match whole(&mut inner, &body) {
        (Flow::On, Some(n)) => n,
        (Flow::Return(Some(n)), _) => n,
        _ => panic!("one number was to come out"),
    }
}

enum Flow {
    On,
    Break,
    Next(Option<u32>),
    Return(Option<f64>),
}

fn sum(op: BinOp, a: f64, b: f64) -> f64 {
    match op {
        BinOp::Add => a + b,
        BinOp::Sub => a - b,
        BinOp::Mul => a * b,
        BinOp::Div => a / b,
        _ => a % b,
    }
}

fn value(r: &Slots, x: &Ir) -> f64 {
    match x {
        Ir::Num(b) => f64::from_bits(*b),
        Ir::Local(s) => r[s],
        Ir::Neg(a) => -value(r, a),
        Ir::Bin(op, a, b) => sum(*op, value(r, a), value(r, b)),
        Ir::Math(MathFn::Sqrt, a, _) => value(r, a).sqrt(),
        Ir::Math(MathFn::Max, a, rest) => match &**rest {
            IrList::Item(b, _) => value(r, a).max(value(r, b)),
            IrList::End => panic!("it takes two"),
        },
        Ir::CallSelf(args) => recur(r, args),
        _ => panic!("no sum"),
    }
}

fn holds(r: &Slots, c: &Cond) -> bool {
    match c {
        Cond::Lit(b) => *b,
        Cond::Compare(op, a, b) => {
            let (x, y) = (value(r, a), value(r, b));
            match op {
                BinOp::Lt => x < y,
                BinOp::Le => x <= y,
                BinOp::Gt => x > y,
                BinOp::Ge => x >= y,
                BinOp::Eq => x == y,
                _ => x != y,
            }
        }
        Cond::And(a, b) => holds(r, a) && holds(r, b),
        Cond::Or(a, b) => holds(r, a) || holds(r, b),
        Cond::Not(a) => !holds(r, a),
        Cond::Flag(s) => r[s] != 0.0,
        Cond::Subject(_) => panic!("no match"),
    }
}

fn values(r: &Slots, v: &IrValues) -> Vec<f64> {
    match v {
        IrValues::End => Vec::new(),
        IrValues::Num(a, rest) => {
            let mut out = vec![value(r, a)];
            out.extend(values(r, rest));
            out
        }
        IrValues::Flag(c, rest) => {
            let mut out = vec![if holds(r, c) { 1.0 } else { 0.0 }];
            out.extend(values(r, rest));
            out
        }
    }
}

fn store(r: &mut Slots, s: &IrSlots, vs: &[f64]) {
    if let IrSlots::Slot(slot, rest) = s {
        r.insert(*slot, vs[0]);
        store(r, rest, &vs[1..]);
    }
}

fn choice(r: &mut Slots, i: &IrIf) -> (Flow, Option<f64>) {
    if holds(r, &i.cond) {
        whole(r, &i.body)
    } else {
        match &i.rest {
            IrElse::Nothing => (Flow::On, None),
            IrElse::Block(b) => whole(r, b),
            IrElse::If(j) => choice(r, j),
        }
    }
}

fn whole(r: &mut Slots, b: &IrBlock) -> (Flow, Option<f64>) {
    let mut at = &b.stats;
    while let IrStats::Then(st, rest) = at {
        let flow = one(r, st);
        if !matches!(flow, Flow::On) {
            return (flow, None);
        }
        at = rest;
    }
    match &b.tail {
        IrTail::Nothing => (Flow::On, None),
        IrTail::Value(x) => match &**x {
            Ir::If(i) => choice(r, i),
            Ir::Block(b) => whole(r, b),
            x => (Flow::On, Some(value(r, x))),
        },
        IrTail::Unit(st) => (one(r, st), None),
        IrTail::Table(_) => panic!("no table"),
    }
}

fn counted(r: &mut Slots, slot: u16, end: f64, inclusive: bool, label: u32, body: &IrBlock) -> Flow {
    while if inclusive { r[&slot] <= end } else { r[&slot] < end } {
        match whole(r, body).0 {
            Flow::Break => break,
            Flow::On => {}
            Flow::Next(Some(l)) if l == label => {}
            other => return other,
        }
        let next = r[&slot] + 1.0;
        r.insert(slot, next);
    }
    Flow::On
}

fn one(r: &mut Slots, st: &IrStat) -> Flow {
    match st {
        IrStat::Skip => Flow::On,
        IrStat::Let { values: v, slots } | IrStat::Assign { values: v, slots } => {
            let vs = values(r, v);
            store(r, slots, &vs);
            Flow::On
        }
        IrStat::Update(op, slot, a) => {
            let v = sum(*op, r[slot], value(r, a));
            r.insert(*slot, v);
            Flow::On
        }
        IrStat::Return(a) => Flow::Return(a.as_ref().map(|x| value(r, x))),
        IrStat::Break => Flow::Break,
        IrStat::Continue => Flow::Next(None),
        IrStat::Leave(l) => Flow::Next(Some(*l)),
        IrStat::While(c, b) => {
            while holds(r, c) {
                match whole(r, b).0 {
                    Flow::Break => break,
                    Flow::On | Flow::Next(None) => {}
                    other => return other,
                }
            }
            Flow::On
        }
        IrStat::For { slot, start, end, inclusive, label, body } => {
            let to = value(r, end);
            let from = value(r, start);
            r.insert(*slot, from);
            counted(r, *slot, to, *inclusive, *label, body)
        }
        IrStat::Discard(_) => Flow::On,
        IrStat::Block(b) => whole(r, b).0,
        IrStat::If(i) => choice(r, i).0,
        _ => panic!("no code on numbers"),
    }
}

// ---- writing programs ----------------------------------------------------------------------------

fn at(slot: u16) -> Binding {
    Binding { slot, cell: false }
}

fn local(slot: u16) -> Expr {
    Expr::Local(at(slot), "x".to_string())
}

fn num(n: f64) -> Expr {
    Expr::Num(n.to_bits())
}

fn bin(op: BinOp, a: Expr, b: Expr) -> Expr {
    Expr::Bin(op, Box::new(a), Box::new(b))
}

fn block(stats: Vec<Stat>, tail: Option<Expr>) -> Block {
    let lines = stats.iter().map(|_| 1).collect();
    Block { stats, lines, tail: tail.map(Box::new), tail_line: 1 }
}

fn name() -> Name {
    Name { text: "x".to_string(), span: Span { lo: 0, hi: 0 }, ty: None }
}

fn func(params: &[u16], stats: Vec<Stat>, tail: Option<Expr>, slots: usize) -> FuncDef {
    FuncDef {
        id: 3,
        name: "f".to_string(),
        params: params.iter().map(|_| name()).collect(),
        ret: None,
        body: block(stats, tail),
        line: 1,
        n_slots: slots,
        param_bindings: params.iter().map(|s| at(*s)).collect(),
        upvals: Vec::new(),
    }
}

fn let_slot(slot: u16, e: Expr) -> Stat {
    Stat::LetSlots(vec![at(slot)], vec![e])
}

fn when(c: Expr, then: Vec<Stat>) -> Stat {
    Stat::Expr(Expr::If(vec![(c, block(then, None))], None))
}

fn count(slot: u16, end: Expr, body: Vec<Stat>) -> Stat {
    Stat::ForRange {
        id: 1,
        var: name(),
        binding: Some(at(slot)),
        start: num(0.0),
        end,
        inclusive: false,
        body: block(body, None),
    }
}

/// Adds up twice each number below `b` but `a`, takes three off while there is
/// more than ten, leaves early at eight, and turns the rest over unless it is
/// below `a`.
fn program() -> FuncDef {
    let skip = when(bin(BinOp::Eq, local(3), local(0)), vec![Stat::Continue]);
    let add = Stat::OpAssign(local(2), BinOp::Add, bin(BinOp::Mul, local(3), num(2.0)));
    let less = Stat::OpAssign(local(2), BinOp::Sub, num(3.0));
    let eight = when(bin(BinOp::Eq, local(2), num(8.0)), vec![Stat::Return(vec![num(77.0)])]);
    let low = bin(BinOp::Lt, local(2), local(0));
    let tail = Expr::If(
        vec![(low, block(Vec::new(), Some(bin(BinOp::Add, local(2), num(1.0)))))],
        Some(block(Vec::new(), Some(Expr::Un(UnOp::Neg, Box::new(local(2)))))),
    );
    func(
        &[0, 1],
        vec![
            let_slot(2, num(0.0)),
            count(3, local(1), vec![skip, add]),
            Stat::While(2, bin(BinOp::Gt, local(2), num(10.0)), block(vec![less, eight], None)),
        ],
        Some(tail),
        4,
    )
}

fn finish(vm: &mut Vm, first: Outcome) -> Vec<Value> {
    let mut out = first;
    loop {
        out = match out {
            Outcome::Run => vm.run(1000),
            Outcome::Done(vals) => return vals,
            Outcome::Ask(Request::Compute { kind, x, y }) => {
                let (a, b) = (f64::from_bits(x), f64::from_bits(y));
                let n = match kind {
                    BinKind::Add => a + b,
                    BinKind::Sub => a - b,
                    BinKind::Mul => a * b,
                    BinKind::Div => a / b,
                    _ => a % b,
                };
                vm.resume(Event::Number(n.to_bits()))
            }
            Outcome::Ask(Request::Native { id, args }) => {
                let xs: Vec<f64> = args.iter().map(the_number).collect();
                let n = match id {
                    0 => xs[0].sqrt(),
                    _ => xs[0].max(xs[1]),
                };
                vm.resume(Event::Values(vec![Value::Num(n.to_bits())]))
            }
            Outcome::Ask(Request::Compiled { .. }) => vm.resume(Event::Declined),
            Outcome::Ask(Request::Hot { .. }) => vm.resume(Event::Ran(false)),
            Outcome::Ask(Request::Stale { .. }) => vm.resume(Event::Seen),
            _ => panic!("it was to go well"),
        };
    }
}

fn the_number(v: &Value) -> f64 {
    match v {
        Value::Num(n) => f64::from_bits(*n),
        _ => panic!("a number was expected"),
    }
}

/// A machine with two functions of numbers.
fn machine() -> Vm {
    let mut vm = Vm::bare();
    let sqrt = vm.native("sqrt");
    let max = vm.native("max");
    let t = vm.new_table();
    let mut heap = vm.swap_tables(Vec::new());
    heap[t].set_str("sqrt", sqrt);
    heap[t].set_str("max", max);
    vm.swap_tables(heap);
    vm.set_global("math", Value::Table(t));
    vm.set_method_table(MethodTable::Math, t);
    vm
}

/// The larger of two, and twice the root of the first and half the second.
fn program_of_functions() -> FuncDef {
    let span = Span { lo: 0, hi: 0 };
    let math = |f: &str| {
        let lib = Expr::Global("math".to_string(), span);
        Expr::Index(Box::new(lib), Box::new(Expr::Str(f.to_string())))
    };
    let max = Expr::Call(Box::new(math("max")), vec![local(0), local(1)]);
    let half = bin(BinOp::Add, local(0), bin(BinOp::Div, local(1), num(2.0)));
    let root = Expr::Method(Box::new(half), "sqrt".to_string(), Vec::new());
    let twice = bin(BinOp::Mul, num(2.0), root);
    func(
        &[0, 1],
        vec![let_slot(2, max), let_slot(3, twice)],
        Some(bin(BinOp::Add, local(2), local(3))),
        4,
    )
}

#[test]
fn functions_of_numbers_come_to_the_same_either_way() {
    for (a, b, n) in [(2.0, 4.0, 8.0), (1.0, 6.0, 10.0), (9.0, 0.0, 15.0)] {
        let def = program_of_functions;
        assert_eq!(interpreted_of(def(), a, b), n, "{a} {b}");
        assert_eq!(compiled_of(&def(), a, b), n, "{a} {b}");
    }
}

fn interpreted(a: f64, b: f64) -> f64 {
    interpreted_of(program(), a, b)
}

fn interpreted_of(def: FuncDef, a: f64, b: f64) -> f64 {
    let mut vm = machine();
    let global = Expr::Global("f".to_string(), Span { lo: 0, hi: 0 });
    let stats = vec![Stat::Assign(vec![global], vec![Expr::Func(Box::new(def))])];
    let proto = compile_chunk(&func(&[], stats, None, 0)).expect("it compiles");
    let first = vm.eval(Rc::new(proto));
    finish(&mut vm, first);
    let f = vm.get_global("f");
    let first = vm.call_value(&f, vec![Value::Num(a.to_bits()), Value::Num(b.to_bits())]);
    match finish(&mut vm, first).as_slice() {
        [Value::Num(n)] => f64::from_bits(*n),
        _ => panic!("one number was to come out"),
    }
}

fn alone() -> SelfRef {
    SelfRef { upval: None, global: None, compiled_globals: Vec::new() }
}

fn compiled(a: f64, b: f64) -> f64 {
    compiled_of(&program(), a, b)
}

fn compiled_of(def: &FuncDef, a: f64, b: f64) -> f64 {
    let own = SelfRef { upval: None, global: Some("f".to_string()), compiled_globals: Vec::new() };
    let unit = lower_unit(def, own).ok().expect("it compiles");
    let body = Rc::new(unit.code.body);
    let mut r = Slots { at: HashMap::new(), own: Some(body.clone()) };
    r.insert(0, a);
    r.insert(1, b);
    match whole(&mut r, &body) {
        (Flow::On, Some(n)) => n,
        (Flow::Return(Some(n)), _) => n,
        _ => panic!("one number was to come out"),
    }
}

#[test]
fn a_function_comes_to_the_same_either_way() {
    let want = [
        (0.0, 0.0, 0.0),
        (1.0, 0.0, 1.0),
        (9.0, 3.0, 7.0),
        (2.0, 4.0, -8.0),
        (1.0, 5.0, -9.0),
        (20.0, 5.0, 77.0),
        (3.0, 6.0, -9.0),
        (1.0, 7.0, -10.0),
        (6.0, 8.0, 77.0),
    ];
    for (a, b, n) in want {
        assert_eq!(interpreted(a, b), compiled(a, b), "{a} {b}");
        assert_eq!(interpreted(a, b), n, "{a} {b}");
    }
}

#[test]
fn a_loop_leaves_the_same_in_the_locals() {
    let add = Stat::OpAssign(local(0), BinOp::Add, local(1));
    let st = count(1, num(101.0), vec![add]);
    let unit = lower_loop(&st, alone()).ok().expect("it compiles");
    let mut r = Slots::new();
    // the loop is entered with its variable where it stands
    r.insert(0, 10.0);
    r.insert(1, 5.0);
    match &unit.body {
        LoopBody::Count { slot, end, inclusive, label, body } => {
            let to = value(&r, end);
            assert!(matches!(counted(&mut r, *slot, to, *inclusive, *label, body), Flow::On));
        }
        LoopBody::Whole(_) => panic!("it counts"),
    }
    assert_eq!(r[&0], 5050.0);
    assert_eq!(r[&1], 101.0);
}

fn named() -> Expr {
    Expr::Global("f".to_string(), Span { lo: 0, hi: 0 })
}

/// The greatest number that divides both, by calling itself.
fn program_of_calls() -> FuncDef {
    let rest = bin(BinOp::Rem, local(0), local(1));
    let again = Expr::Call(Box::new(named()), vec![local(1), rest]);
    let tail = Expr::If(
        vec![(bin(BinOp::Eq, local(1), num(0.0)), block(Vec::new(), Some(local(0))))],
        Some(block(Vec::new(), Some(again))),
    );
    func(&[0, 1], Vec::new(), Some(tail), 2)
}

#[test]
fn a_function_that_calls_itself_comes_to_the_same_either_way() {
    for (a, b, n) in [(12.0, 18.0, 6.0), (7.0, 5.0, 1.0), (9.0, 0.0, 9.0), (100.0, 75.0, 25.0)] {
        assert_eq!(interpreted_of(program_of_calls(), a, b), n, "{a} {b}");
        assert_eq!(compiled_of(&program_of_calls(), a, b), n, "{a} {b}");
    }
}

/// Keeps a flag that is given what it was and more, while it counts.
fn program_of_flags() -> FuncDef {
    let more = bin(BinOp::Gt, local(3), num(5.0));
    let kept = Stat::Assign(vec![local(2)], vec![bin(BinOp::And, more, local(2))]);
    let on = Stat::OpAssign(local(3), BinOp::Add, num(1.0));
    let swap = Stat::Assign(vec![local(0), local(1)], vec![local(1), local(0)]);
    let tail = Expr::If(
        vec![(local(2), block(Vec::new(), Some(local(0))))],
        Some(block(Vec::new(), Some(Expr::Un(UnOp::Neg, Box::new(local(0)))))),
    );
    func(
        &[0, 1],
        vec![
            let_slot(2, Expr::Bool(true)),
            let_slot(3, num(0.0)),
            swap,
            Stat::While(1, bin(BinOp::Lt, local(3), local(0)), block(vec![kept, on], None)),
        ],
        Some(tail),
        4,
    )
}

#[test]
fn a_flag_given_from_itself_is_what_it_was_and_more() {
    for (a, b, n) in [(1.0, 10.0, -10.0), (1.0, 0.0, 0.0), (3.0, -2.0, -2.0)] {
        assert_eq!(interpreted_of(program_of_flags(), a, b), n, "{a} {b}");
        assert_eq!(compiled_of(&program_of_flags(), a, b), n, "{a} {b}");
    }
}
