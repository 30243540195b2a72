//! Functions of C, as they are declared.
use rua::cdecl;
use rua::cdecl::{CType, Pass};
use rua::value::Value;

#[test]
fn a_declaration_says_what_a_function_takes_and_gives() {
    let s = cdecl::parse_decl("double pow(double x, double y)").ok().unwrap();
    assert_eq!(s.name, "pow");
    assert_eq!(s.ret, CType::F64);
    assert_eq!(s.params, vec![CType::F64, CType::F64]);
    let s = cdecl::parse_decl("const char *getenv(const char *)").ok().unwrap();
    assert_eq!(s.ret, CType::CStr);
    assert_eq!(s.params, vec![CType::CStr]);
    let s = cdecl::parse_decl("int getpid(void)").ok().unwrap();
    assert_eq!(s.ret, CType::I32);
    assert!(s.params.is_empty());
}

#[test]
fn what_is_not_a_declaration_is_refused() {
    assert!(cdecl::parse_decl("nonsense").is_err());
    assert!(cdecl::parse_decl("weird f(int)").is_err());
    let e = cdecl::parse_decl("*)f(").err().unwrap();
    assert_eq!(e, "`*)f(` is missing `)`");
    assert_eq!(cdecl::parse_decl("int f(int").err().unwrap(), "`int f(int` is missing `)`");
}

#[test]
fn a_library_is_looked_for_under_its_usual_names() {
    let names = cdecl::library_candidates("m");
    assert!(names.contains(&"libm.so".to_string()), "{names:?}");
    assert!(names.contains(&"m".to_string()), "{names:?}");
}

#[test]
fn values_are_passed_as_what_is_declared() {
    assert!(matches!(cdecl::pass(CType::Ptr, &Value::Nil), Ok(Pass::Null)));
    assert!(matches!(cdecl::pass(CType::Ptr, &Value::Ptr(8)), Ok(Pass::Pointer(8))));
    assert!(matches!(cdecl::pass(CType::CStr, &Value::str("a")), Ok(Pass::Text(s)) if s == "a"));
    assert!(matches!(cdecl::pass(CType::U8, &Value::Bool(true)), Ok(Pass::Flag(true))));
    assert!(matches!(cdecl::pass(CType::I32, &Value::Num(0)), Ok(Pass::Number)));
    assert!(matches!(cdecl::pass(CType::Void, &Value::Nil), Ok(Pass::Void)));
    let e = cdecl::pass(CType::CStr, &Value::str("a\0b")).err().unwrap();
    assert_eq!(e.message, "string contains a NUL byte");
    let e = cdecl::pass(CType::Ptr, &Value::Bool(true)).err().unwrap();
    assert_eq!(e.message, "ffi: cannot pass a boolean as a pointer");
}

#[test]
fn arguments_are_counted() {
    let s = cdecl::parse_decl("double pow(double x, double y)").ok().unwrap();
    assert!(cdecl::check_count(&s, 2).is_ok());
    assert!(cdecl::check_count(&s, 3).is_ok());
    let e = cdecl::check_count(&s, 1).err().unwrap();
    assert_eq!(e.message, "pow: expected 2 argument(s), got 1");
}

#[test]
fn results_are_narrowed_to_their_type() {
    assert_eq!(cdecl::integer_result(CType::I8, 0x1ff), -1);
    assert_eq!(cdecl::integer_result(CType::U8, 0x1ff), 255);
    assert_eq!(cdecl::integer_result(CType::I32, 0xffff_ffff), -1);
    assert_eq!(cdecl::integer_result(CType::U32, 0x1_ffff_ffff), 0xffff_ffff);
}

#[test]
fn a_sign_alone_is_an_int_and_only_plain_char_points_at_text() {
    let ret = |d: &str| cdecl::parse_decl(d).ok().unwrap().ret;
    assert_eq!(ret("unsigned f(void)"), CType::U32);
    assert_eq!(ret("signed f(void)"), CType::I32);
    assert_eq!(ret("char *f(void)"), CType::CStr);
    assert_eq!(ret("unsigned char *f(void)"), CType::Ptr);
    assert_eq!(ret("char **f(void)"), CType::Ptr);
}

#[test]
fn what_parameters_are_called_changes_nothing() {
    let a = cdecl::parse_decl("double pow(double x, double y)").ok().unwrap();
    let b = cdecl::parse_decl("double pow(double base, double up)").ok().unwrap();
    assert_eq!((a.name, a.ret, a.params), (b.name, b.ret, b.params));
}

#[test]
fn a_parameter_may_go_without_a_name() {
    let a = cdecl::parse_decl("double pow(double x, double y)").ok().unwrap();
    let b = cdecl::parse_decl("double pow(double, double)").ok().unwrap();
    assert_eq!((a.name, a.ret, a.params), (b.name, b.ret, b.params));
}

#[test]
fn what_is_handed_to_c_is_counted_exactly() {
    let s = cdecl::parse_decl("double pow(double x, double y)").ok().unwrap();
    assert!(cdecl::check_exactly(&s, 2).is_ok());
    let e = cdecl::check_exactly(&s, 3).err().unwrap();
    assert_eq!(e.message, "pow: expected 2 argument(s), got 3");
}
