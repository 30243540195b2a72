//! The border between the interpreter and compiled code.
use rua::ast::{Binding, Block, Expr, Stat, UnOp};
use rua::jit::exits::contains_return;
use rua::jit::kinds::Kind;
use rua::table::Table;
use rua::tier::args;
use rua::tier::args::Arg;
use rua::tier::counts::{LoopStep, Loops};
use rua::tier::deps::Deps;
use rua::tier::dirty::Scratch;
use rua::tier::epoch;
use rua::tier::epoch::{Cached, Shapes};
use rua::tier::find::find_loop;
use rua::tier::hooks;
use rua::tier::order::compile_order;
use rua::value::{RStr, Value};

fn num(n: f64) -> Value {
    Value::Num(n.to_bits())
}

fn filled(ns: &[f64]) -> Table {
    let mut t = Table::new();
    for n in ns {
        t.push(num(*n));
    }
    t
}

fn contents(t: &Table) -> Vec<f64> {
    (0..t.len())
        .map(|i| match t.get_index(i) {
            Value::Num(b) => f64::from_bits(b),
            _ => panic!("numbers were expected"),
        })
        .collect()
}

#[test]
fn values_cross_as_what_is_expected_of_them() {
    let heap = vec![filled(&[1.0]), Table::new()];
    assert_eq!(args::rt_arg(&heap, &num(2.0), Kind::Num), Some(Arg::Num(2.0f64.to_bits())));
    assert_eq!(args::rt_arg(&heap, &Value::Bool(true), Kind::Bool), Some(Arg::Num(1.0f64.to_bits())));
    assert_eq!(args::rt_arg(&heap, &Value::Nil, Kind::Bool), Some(Arg::Num(0)));
    assert_eq!(args::rt_arg(&heap, &Value::Table(0), Kind::Table), Some(Arg::Table(0)));
    assert_eq!(args::rt_arg(&heap, &Value::Nil, Kind::Num), None);
    assert_eq!(args::rt_arg(&heap, &Value::str("a"), Kind::Dead), Some(Arg::Num(0)));
}

#[test]
fn a_table_is_not_read_and_appended_to_at_once() {
    let heap = vec![filled(&[1.0]), filled(&[2.0])];
    let kinds = vec![Kind::TableOut, Kind::Table];
    assert!(args::compiled_args(&heap, &vec![Value::Table(0), Value::Table(1)], &kinds).is_some());
    assert!(args::compiled_args(&heap, &vec![Value::Table(0), Value::Table(0)], &kinds).is_none());
}

#[test]
fn rows_are_looked_at_where_they_have_to_fit() {
    let mut outer = Table::new();
    outer.push(Value::Table(1));
    let heap = vec![outer, filled(&[1.0, 2.0])];
    let long = |min: u32| Kind::Tables { checked: true, min };
    assert_eq!(args::rt_arg(&heap, &Value::Table(0), long(2)), Some(Arg::Table(0)));
    assert_eq!(args::rt_arg(&heap, &Value::Table(0), long(3)), None);
}

#[test]
fn a_flag_comes_back_as_it_went() {
    for b in [true, false] {
        let v = Value::Bool(b);
        let sent = match args::rt_arg(&Vec::new(), &v, Kind::Bool) {
            Some(Arg::Num(n)) => n,
            _ => panic!("a number was to be sent"),
        };
        assert!(args::bring_back(Kind::Bool, sent, &v).equals(&v));
    }
    assert!(matches!(args::result_of(false, true, 0, None), Some(Value::Nil)));
    assert!(matches!(args::result_of(true, false, 0, Some(4)), Some(Value::Table(4))));
    assert!(args::result_of(true, false, 0, None).is_none());
}

#[test]
fn a_loop_is_compiled_once_it_is_hot() {
    let mut l = Loops::new();
    let mut steps = Vec::new();
    // a batch is a thousand turns
    for _ in 0..50 {
        steps.push(l.note_loop(3, true));
    }
    assert!(steps[..49].iter().all(|s| *s == LoopStep::Leave));
    assert_eq!(steps[49], LoopStep::Compile);
    assert_eq!(l.get(3).iterations, 50_000);
    l.built(3);
    assert_eq!(l.note_loop(3, true), LoopStep::Run);
    l.drop_code(3);
    assert_ne!(l.note_loop(3, true), LoopStep::Run);
    l.refused(3);
    assert_eq!(l.note_loop(3, true), LoopStep::Leave);
    assert!(l.get(3).blocked);
    assert!(!l.get(4).blocked);
}

#[test]
fn code_that_relied_on_a_global_goes_with_it() {
    let mut d = Deps::new();
    d.add_func(1, "mid", &vec!["low".to_string()]);
    d.add_func(2, "top", &vec!["mid".to_string()]);
    d.add_func(3, "other", &Vec::new());
    d.add_loop(9, &vec!["mid".to_string()]);
    let gone = d.invalidate("low");
    let mut funcs = gone.funcs.clone();
    funcs.sort();
    assert_eq!(funcs, vec![1, 2]);
    assert_eq!(gone.loops, vec![9]);
    assert!(d.invalidate("low").funcs.is_empty());
}

#[test]
fn what_compiled_code_did_is_kept_or_taken_back() {
    for keep in [true, false] {
        let mut heap = vec![filled(&[1.0, 2.0]), filled(&[5.0])];
        let mut s = Scratch::new();
        let mark = s.mark();
        assert_eq!(hooks::hook_span_mut(&mut heap, &mut s, Some(0)), Some(2));
        heap[0].view_write(1, 7.0f64.to_bits());
        assert!(hooks::hook_note_append(&heap, &mut s, Some(1)));
        assert!(hooks::hook_push(&mut heap, Some(1), 6.0f64.to_bits()));
        let made = hooks::hook_new_table(&mut heap, &mut s);
        assert_eq!(made, 2);
        s.settle(&mut heap, mark, keep);
        assert!(s.dirty.is_empty() && s.made.is_empty());
        if keep {
            assert_eq!(contents(&heap[0]), vec![1.0, 7.0]);
            assert_eq!(contents(&heap[1]), vec![5.0, 6.0]);
        } else {
            assert_eq!(contents(&heap[0]), vec![1.0, 2.0]);
            assert_eq!(contents(&heap[1]), vec![5.0]);
        }
    }
}

#[test]
fn compiled_code_asks_about_tables() {
    let mut heap = vec![filled(&[1.0, 2.0]), Table::new()];
    heap[1].push(Value::Table(0));
    let bits = |n: f64| n.to_bits();
    assert_eq!(hooks::hook_len(&heap, Some(0)), Some(2));
    assert_eq!(hooks::hook_len(&heap, None), None);
    assert_eq!(hooks::hook_get(&heap, Some(0), bits(1.0)), Some(bits(2.0)));
    assert_eq!(hooks::hook_get(&heap, Some(0), bits(2.0)), None);
    assert!(hooks::hook_set(&mut heap, Some(0), bits(0.0), bits(8.0)));
    assert!(!hooks::hook_set(&mut heap, Some(0), bits(9.0), bits(8.0)));
    assert_eq!(hooks::hook_inner(&mut heap, Some(1), bits(0.0)), Some((0, 2)));
    let mut s = Scratch::new();
    assert_eq!(hooks::hook_inner_mut(&mut heap, &mut s, Some(1), bits(0.0)), Some((0, 2)));
    assert_eq!(s.dirty.len(), 1);
    assert_eq!(hooks::hook_inner(&mut heap, Some(0), bits(0.0)), None);
    assert_eq!(hooks::hook_span(&mut heap, Some(1)), None);
    assert!(hooks::hook_push_table(&mut heap, Some(1), Some(0)));
    assert!(!hooks::hook_push_table(&mut heap, Some(1), None));
    assert_eq!(heap[1].len(), 2);
}

#[test]
fn fields_that_hold_tables_can_be_walked() {
    let mut heap = vec![Table::new(), Table::new()];
    let next = RStr::new("next");
    assert!(hooks::hook_set_field(&mut heap, Some(0), &next, Some(1)));
    assert_eq!(hooks::hook_field(&heap, Some(0), &next), Some(Some(1)));
    assert!(hooks::hook_set_field(&mut heap, Some(0), &next, None));
    assert_eq!(hooks::hook_field(&heap, Some(0), &next), Some(None));
    heap[1].set_str("next", num(1.0));
    assert_eq!(hooks::hook_field(&heap, Some(1), &next), None);
    assert_eq!(hooks::hook_field(&heap, None, &next), None);
}

#[test]
fn a_table_with_keys_may_not_be_appended_to() {
    let mut heap = vec![Table::new()];
    heap[0].set_str("a", num(1.0));
    let mut s = Scratch::new();
    assert!(!hooks::hook_note_append(&heap, &mut s, Some(0)));
    assert!(s.dirty.is_empty());
}

#[test]
fn callees_are_compiled_first() {
    // 0 calls 1 and 2, 1 calls 2, 2 calls 0
    let calls = vec![vec![1, 2], vec![2], vec![0]];
    assert_eq!(compile_order(&calls, &vec![true, true, true], 0), vec![2, 1, 0]);
    // what is not cold is left alone
    assert_eq!(compile_order(&calls, &vec![true, false, true], 0), vec![2, 0]);
    assert_eq!(compile_order(&vec![vec![0]], &vec![true], 0), vec![0]);
}

#[test]
fn a_bump_makes_what_is_cached_untrue() {
    let mut s = Shapes::new();
    assert_eq!(s.shape_epoch(), 1);
    let c = Some(Cached { at: s.shape_epoch(), what: 5 });
    assert_eq!(epoch::still_true(&c, s.shape_epoch()), Some(&5));
    s.bump_shape_epoch();
    assert_eq!(s.shape_epoch(), 2);
    assert_eq!(epoch::still_true(&c, s.shape_epoch()), None);
}

fn block(stats: Vec<Stat>) -> Block {
    let lines = stats.iter().map(|_| 1).collect();
    Block { stats, lines, tail: None, tail_line: 1 }
}

#[test]
fn a_loop_is_found_by_its_number() {
    let inner = Stat::Loop(2, block(Vec::new()));
    let b = block(vec![Stat::Expr(Expr::Do(block(vec![Stat::While(1, Expr::Bool(true), block(vec![inner]))])))]);
    assert!(matches!(find_loop(&b, 2), Some(Stat::Loop(2, _))));
    assert!(matches!(find_loop(&b, 1), Some(Stat::While(1, _, _))));
    assert!(find_loop(&b, 3).is_none());
}

#[test]
fn a_write_that_drops_the_view_moves_the_epoch() {
    let mut s = Shapes::new();
    let mut t = filled(&[1.0, 2.0]);
    assert_eq!(s.nums_span(&mut t), Some(2));
    let at = s.shape_epoch();
    assert!(s.set_num(&mut t, 1.0f64.to_bits(), &num(5.0)));
    assert_eq!(s.shape_epoch(), at, "a number stays in the view");
    assert!(s.set_num(&mut t, 1.0f64.to_bits(), &Value::Bool(true)));
    assert_ne!(s.shape_epoch(), at);
    assert!(t.nums_view().is_none());
}

#[test]
fn a_return_is_found_wherever_it_stands() {
    let ret = || block(vec![Stat::Return(Vec::new())]);
    let inside = || Expr::Do(ret());
    let slot = Binding { slot: 0, cell: false };
    assert!(contains_return(&Stat::LetSlots(vec![slot], vec![inside()])));
    assert!(contains_return(&Stat::Assign(vec![Expr::Nil], vec![inside()])));
    assert!(contains_return(&Stat::Expr(Expr::Un(UnOp::Neg, Box::new(inside())))));
    assert!(!contains_return(&Stat::Expr(Expr::Nil)));
}
