//! Tables, and what the builtins do to them.
use rua::builtin::tables;
use rua::builtin::tables::Sort;
use rua::table::Table;
use rua::value::{Interner, Key, RStr, Value};

fn num(n: f64) -> Value {
    Value::Num(n.to_bits())
}

fn filled(ns: &[f64]) -> Table {
    let mut t = Table::new();
    for n in ns {
        t.push(num(*n));
    }
    t
}

fn numbers(vs: &[Value]) -> Vec<f64> {
    vs.iter()
        .map(|v| match v {
            Value::Num(b) => f64::from_bits(*b),
            _ => panic!("numbers were expected"),
        })
        .collect()
}

fn contents(t: &Table) -> Vec<f64> {
    numbers(&tables::values(t))
}

#[test]
fn a_table_gives_back_what_was_written() {
    let mut t = Table::new();
    t.set_str("a", num(1.0));
    t.set(Key::Bool(true), num(2.0));
    t.set_index(0, num(3.0));
    assert_eq!(numbers(&[t.get_str("a"), t.get(&Key::Bool(true)), t.get_index(0)]), vec![1.0, 2.0, 3.0]);
    assert!(matches!(t.get_str("b"), Value::Nil));
    assert_eq!(t.len(), 1);
    assert!(!t.is_plain_array());
}

#[test]
fn writing_nil_takes_an_entry_out() {
    let mut t = Table::new();
    t.set_str("a", num(1.0));
    t.set_str("a", Value::Nil);
    assert!(t.is_plain_array());
    assert!(t.is_empty());
}

#[test]
fn a_nil_at_the_end_shortens_the_array() {
    let mut t = filled(&[1.0, 2.0, 3.0]);
    t.set_index(1, Value::Nil);
    assert_eq!(t.len(), 3);
    t.set_index(2, Value::Nil);
    assert_eq!(t.len(), 1);
}

#[test]
fn what_fills_a_gap_joins_the_array() {
    let mut t = Table::new();
    t.set_index(1, num(2.0));
    assert_eq!(t.len(), 0);
    t.set_index(0, num(1.0));
    assert_eq!(t.len(), 2);
    assert!(t.is_plain_array());
    assert_eq!(contents(&t), vec![1.0, 2.0]);
}

#[test]
fn keys_come_in_order() {
    let mut t = filled(&[5.0]);
    t.set_str("b", num(1.0));
    t.set_str("a", num(2.0));
    let keys = tables::keys(&t);
    assert!(matches!(&keys[..], [Value::Num(b), Value::Str(x), Value::Str(y)]
        if *b == 0 && x.as_str() == "b" && y.as_str() == "a"));
    assert_eq!(tables::items(&t).len(), 1);
}

#[test]
fn a_view_is_kept_or_thrown_away() {
    let mut t = filled(&[1.0, 2.0]);
    assert_eq!(t.nums_span(), Some(2));
    t.view_write(0, 9.0f64.to_bits());
    t.discard_nums();
    assert_eq!(contents(&t), vec![1.0, 2.0]);
    t.nums_span();
    t.view_write(0, 9.0f64.to_bits());
    t.commit_nums();
    assert_eq!(contents(&t), vec![9.0, 2.0]);
    t.push(num(3.0));
    t.truncate_arr(2);
    assert_eq!(contents(&t), vec![9.0, 2.0]);
    let mut mixed = Table::new();
    mixed.push(Value::Nil);
    mixed.push(Value::Bool(true));
    assert_eq!(mixed.nums_span(), None);
    assert!(!mixed.has_numbers());
}

#[test]
fn a_write_in_place_does_not_change_the_shape() {
    let mut t = filled(&[1.0]);
    assert!(t.set_num(0.0f64.to_bits(), &num(4.0)));
    assert!(!t.set_num(1.0f64.to_bits(), &num(5.0)));
    assert!(!t.set_num(0.0f64.to_bits(), &Value::Nil));
    assert_eq!(contents(&t), vec![4.0]);
    assert_eq!(t.num_at(0.0f64.to_bits()), Some(4.0f64.to_bits()));
    assert_eq!(t.num_at(0.5f64.to_bits()), None);
}

#[test]
fn popping_undoes_pushing() {
    let mut t = filled(&[1.0]);
    t.push(num(2.0));
    assert_eq!(numbers(&[tables::pop(&mut t)]), vec![2.0]);
    assert_eq!(contents(&t), vec![1.0]);
    tables::pop(&mut t);
    assert!(matches!(tables::pop(&mut t), Value::Nil));
}

#[test]
fn removing_undoes_inserting() {
    let mut t = filled(&[1.0, 2.0, 3.0]);
    tables::insert(&mut t, 1, num(9.0));
    assert_eq!(contents(&t), vec![1.0, 9.0, 2.0, 3.0]);
    assert_eq!(numbers(&[tables::remove(&mut t, Some(1))]), vec![9.0]);
    assert_eq!(contents(&t), vec![1.0, 2.0, 3.0]);
    assert_eq!(numbers(&[tables::remove(&mut t, None)]), vec![3.0]);
    assert!(tables::contains(&t, &num(2.0)));
    assert!(!tables::contains(&t, &num(3.0)));
}

fn sort_by(items: Vec<Value>, less: fn(f64, f64) -> bool) -> Vec<f64> {
    let mut s = Sort::new(items);
    while let Some((a, b)) = s.ask() {
        let ns = numbers(&[a, b]);
        s.answer(less(ns[0], ns[1]));
    }
    numbers(&s.take())
}

#[test]
fn sorting_puts_values_in_order() {
    let items: Vec<Value> = [3.0, 1.0, 2.0, 1.0].iter().map(|n| num(*n)).collect();
    assert_eq!(sort_by(items, |a, b| a < b), vec![1.0, 1.0, 2.0, 3.0]);
    let items: Vec<Value> = [3.0, 1.0, 2.0].iter().map(|n| num(*n)).collect();
    assert_eq!(sort_by(items, |a, b| a > b), vec![3.0, 2.0, 1.0]);
    assert!(Sort::new(Vec::new()).ask().is_none());
}

#[test]
fn sorting_keeps_the_order_of_equals() {
    let items: Vec<Value> = [21.0, 11.0, 22.0, 12.0].iter().map(|n| num(*n)).collect();
    let tens = |a: f64, b: f64| (a / 10.0).floor() < (b / 10.0).floor();
    assert_eq!(sort_by(items, tens), vec![11.0, 12.0, 21.0, 22.0]);
}

#[test]
fn some_values_compare_without_help() {
    assert_eq!(tables::plain_less(&num(1.0), &num(2.0)), Some(true));
    assert_eq!(tables::plain_less(&Value::str("b"), &Value::str("a")), Some(false));
    assert_eq!(tables::plain_less(&Value::str("a"), &num(1.0)), None);
}

#[test]
fn sorted_values_go_back_where_they_were() {
    let mut t = filled(&[2.0, 1.0]);
    tables::store(&mut t, &vec![num(1.0), num(2.0)]);
    assert_eq!(contents(&t), vec![1.0, 2.0]);
}

#[test]
fn a_string_is_interned_once() {
    let mut i = Interner::new();
    let a = i.intern("hello");
    let b = i.intern("hello");
    assert!(a.same(&b));
    assert!(a.same(&RStr::new("hello")));
    assert!(!a.same(&RStr::new("hellp")));
    assert!(a.equals(&RStr::new("hello")));
    assert_eq!(a.hash_bits(), RStr::new("hello").hash_bits());
    i.sweep();
    assert_eq!(i.intern("hello").as_str(), "hello");
}

#[test]
fn a_key_is_made_of_a_value_and_back() {
    assert!(Key::from_value(&Value::Nil).is_err());
    let k = Key::from_value(&num(2.5)).ok().unwrap();
    assert!(k.equals(&Key::from_value(&num(2.5)).ok().unwrap()));
    assert!(!k.equals(&Key::from_value(&Value::str("2.5")).ok().unwrap()));
    assert_eq!(Key::from_value(&Value::Nil).err().unwrap().message, "table index is nil");
    assert!(matches!(Key::from_value(&Value::Bool(true)).ok().unwrap().to_value(), Value::Bool(true)));
}

#[test]
fn a_value_knows_its_type() {
    assert_eq!(Value::Nil.type_label(), "nil");
    assert_eq!(Value::str("").type_label(), "string");
    assert_eq!(Value::Func(0).type_label(), "function");
    assert_eq!(Value::Native(0).type_label(), "function");
    assert!(Value::str("").truthy());
    assert!(!Value::Bool(false).truthy());
    assert!(num(0.0).truthy());
    assert!(num(1.0).equals(&num(1.0)));
    assert!(!num(f64::NAN).equals(&num(f64::NAN)));
}

#[test]
fn equal_short_strings_are_one_and_equal_long_ones_are_not() {
    let (short, long) = ("x".repeat(40), "x".repeat(41));
    assert!(RStr::new(&short).same(&RStr::new(&short)));
    let a = RStr::new(&long);
    assert!(!a.same(&RStr::new(&long)));
    assert!(a.same(&a.clone()));
    assert!(a.equals(&RStr::new(&long)));
}

#[test]
fn what_somebody_else_holds_stays_interned() {
    let mut i = Interner::new();
    for s in ["a", "b", "c"] {
        i.intern(s);
    }
    let kept: Vec<String> = i.kept(&vec![2, 1, 3]).iter().map(|s| s.as_str().to_string()).collect();
    assert_eq!(kept, vec!["a", "c"]);
}
