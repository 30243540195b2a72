//! How large the things are that there are most of.
use rua::bytecode::Op;
use rua::value::Value;

#[test]
fn op_is_sixteen_bytes() {
    assert_eq!(std::mem::size_of::<Op>(), 16);
}

#[test]
fn value_is_two_words() {
    assert_eq!(std::mem::size_of::<Value>(), 16);
}
