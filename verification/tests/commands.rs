//! The command line, and the files scripts ask for.
use rua::cli;
use rua::modules;
use rua::modules::{Modules, Place};
use rua::value::Value;

#[test]
fn a_line_is_underlined_up_to_its_last_letter() {
    let src = "let a = 1\n  b()   \r\n\nlet é = 2";
    assert_eq!(cli::line_span(src, 1), Some((0, 9)));
    assert_eq!(cli::line_span(src, 2), Some((10, 5)));
    // an empty line still shows something, and a carriage return is a byte too
    assert_eq!(cli::line_span(src, 3), Some((20, 1)));
    assert_eq!(cli::line_span(src, 4), Some((21, 10)));
    assert_eq!(cli::line_span("a\r\nb", 2), Some((3, 1)));
    assert_eq!(cli::line_span(src, 5), None);
    assert_eq!(cli::line_span(src, 0), None);
    assert_eq!(cli::line_span("a\n", 2), None);
}

#[test]
fn an_error_is_labelled_with_its_function() {
    assert_eq!(cli::label(Some("f")), "in f");
    assert_eq!(cli::label(None), "here");
}

#[test]
fn a_let_at_the_prompt_binds_a_global() {
    assert_eq!(cli::repl_rewrite("let x = 1"), "x = 1");
    assert_eq!(cli::repl_rewrite("let  mut total=f(2)"), "total =f(2)");
    assert_eq!(cli::repl_rewrite("let x == 1"), "let x == 1");
    assert_eq!(cli::repl_rewrite("let (a, b) = f()"), "let (a, b) = f()");
    assert_eq!(cli::repl_rewrite("letter = 1"), "letter = 1");
    assert_eq!(cli::repl_rewrite("x = 1"), "x = 1");
    assert_eq!(cli::repl_rewrite("let été = 1"), "été = 1");
}

#[test]
fn bytecode_is_listed_one_instruction_to_a_line() {
    let ops = vec!["Nil { dst: 0 }".to_string(), "Ret { base: 0, n: 1 }".to_string()];
    assert_eq!(
        cli::listing("", 3, &ops, 2),
        "\nfunction <closure>  (3 registers, 2 ops, 2 constants)\n     0  Nil { dst: 0 }\n     1  Ret { base: 0, n: 1 }\n"
    );
    assert!(cli::listing("f", 0, &Vec::new(), 0).starts_with("\nfunction f  (0 registers"));
}

fn place(path: &str, found: bool) -> Place {
    Place { path: path.to_string(), found }
}

#[test]
fn a_file_is_where_it_is_first_found() {
    let places = vec![place("a/lib", false), place("a/lib.rua", true), place("lib", true)];
    assert_eq!(modules::resolve("lib", &places), "a/lib.rua");
    assert_eq!(modules::resolve("lib", &vec![place("x", false)]), "lib");
}

#[test]
fn a_file_is_run_once() {
    let mut m = Modules::new();
    assert!(m.ask("/a").is_none());
    // a cycle sees nil instead of looping
    assert!(matches!(m.ask("/a"), Some(Value::Nil)));
    m.give("/a", Value::Bool(true));
    assert!(matches!(m.ask("/a"), Some(Value::Bool(true))));
}

#[test]
fn a_file_that_failed_is_run_again() {
    let mut m = Modules::new();
    assert!(m.ask("/a").is_none());
    assert!(m.ask("/b").is_none());
    m.forget("/a");
    assert!(m.ask("/a").is_none());
    assert!(m.ask("/b").is_some());
}
