//! The pieces of what an editor is told.
use rua::ast::{Block, Name, Span, Stat, Type};
use rua::lsp::colours;
use rua::lsp::colours::{Colour, Stretch};
use rua::lsp::cursor;
use rua::lsp::docs;
use rua::lsp::docs::Docs;
use rua::lsp::facts::Types;
use rua::lsp::index::{LineIndex, Position, Range};
use rua::lsp::types;
use rua::lsp::words;
use rua::lsp::words::Level;

fn at(line: u32, character: u32) -> Position {
    Position { line, character }
}

#[test]
fn positions_count_in_the_units_an_editor_counts_in() {
    // two bytes and one unit, then four bytes and two units
    let l = LineIndex::new("é𝄞x\nab");
    assert_eq!(l.position(0), at(0, 0));
    assert_eq!(l.position(2), at(0, 1));
    assert_eq!(l.position(6), at(0, 3));
    assert_eq!(l.position(8), at(1, 0));
    assert_eq!(l.offset(at(0, 3)), 6);
    assert_eq!(l.offset(at(1, 99)), 10);
    assert_eq!(l.offset(at(9, 0)), 10);
    assert_eq!(l.between(2, 7), "𝄞x");
    assert!(l.one_line(0, 7));
    assert!(!l.one_line(0, 8));
}

#[test]
fn a_position_leads_back_to_its_offset() {
    let text = "let é = \"𝄞\"\n\nfn f() { }\n";
    let l = LineIndex::new(text);
    for (i, _) in text.char_indices() {
        assert_eq!(l.offset(l.position(i as u32)), i as u32);
    }
}

#[test]
fn colours_are_sent_as_differences() {
    let s = vec![
        Stretch { at: at(0, 4), length: 2, colour: Colour::Keyword },
        Stretch { at: at(0, 9), length: 1, colour: Colour::Number },
        Stretch { at: at(2, 3), length: 5, colour: Colour::Text },
    ];
    let d: Vec<(u32, u32, u32, u32)> = colours::deltas(&s)
        .iter()
        .map(|d| (d.line, d.start, d.length, colours::number_of(d.colour)))
        .collect();
    assert_eq!(d, vec![(0, 4, 2, 1), (0, 5, 1, 3), (2, 3, 5, 2)]);
}

#[test]
fn spans_become_stretches_of_their_line() {
    let l = LineIndex::new("a\n é b");
    let spans = vec![(Span { lo: 3, hi: 5 }, Colour::Variable)];
    let s = colours::stretches(&l, &spans);
    assert_eq!(s, vec![Stretch { at: at(1, 1), length: 1, colour: Colour::Variable }]);
}

#[test]
fn a_brace_written_twice_opens_nothing() {
    assert!(cursor::in_interpolation("\"hi {who"));
    assert!(!cursor::in_interpolation("\"hi {{who"));
    assert!(!cursor::in_interpolation("\"hi {who} and"));
    assert!(!cursor::in_interpolation("\"hi \\{who"));
}

#[test]
fn documents_are_what_they_were_last_said_to_be() {
    let mut d = Docs::new();
    d.set("a", "one");
    d.set("b", "two");
    d.set("a", "three");
    assert_eq!(d.get("a").map(|l| l.text().to_string()), Some("three".to_string()));
    d.remove("a");
    assert!(d.get("a").is_none());
    assert_eq!(d.get("b").map(|l| l.text()), Some("two"));
}

#[test]
fn a_mistake_with_no_token_takes_its_whole_line() {
    let l = LineIndex::new("let a\nlet b");
    let r = docs::span_range(&l, Span { lo: 4, hi: 5 }, 1);
    assert_eq!(r, Range { start: at(0, 4), end: at(0, 5) });
    let r = docs::span_range(&l, Span { lo: 0, hi: 0 }, 2);
    assert_eq!(r, Range { start: at(1, 0), end: at(1, u32::MAX) });
}

#[test]
fn a_log_setting_that_is_not_known_is_the_usual_one() {
    assert_eq!(words::level_of("OFF"), Level::Off);
    assert_eq!(words::level_of("none"), Level::Off);
    assert_eq!(words::level_of("Error"), Level::Error);
    assert_eq!(words::level_of("warning"), Level::Warn);
    assert_eq!(words::level_of("trace"), Level::Debug);
    assert_eq!(words::level_of("loud"), Level::Info);
    assert!(words::enabled(Level::Info, Level::Warn));
    assert!(!words::enabled(Level::Info, Level::Debug));
}

#[test]
fn words_are_put_in_order() {
    let ws: Vec<String> = ["pop", "len", "push", "len"].iter().map(|s| s.to_string()).collect();
    assert_eq!(words::sorted(&ws), vec!["len", "len", "pop", "push"]);
    assert_eq!(words::short("/home/me/a.rua"), "a.rua");
    assert_eq!(words::short("/home/me/"), "/home/me/");
    assert_eq!(words::ordinal(1), "second");
    assert_eq!(words::ordinal(8), "later argument");
    assert!(words::is_name("_a1"));
    assert!(!words::is_name("while"));
    assert_eq!(words::keywords().len(), 17);
    assert_eq!(words::builtin_types().len(), 7);
}

fn named(n: &str, args: Vec<Type>) -> Type {
    Type::Named(n.to_string(), args, Span { lo: 0, hi: 0 })
}

fn name(n: &str) -> Name {
    Name { text: n.to_string(), span: Span { lo: 0, hi: 0 }, ty: None }
}

#[test]
fn arguments_take_the_place_of_parameters() {
    let span = Span { lo: 0, hi: 0 };
    let body = Type::Fn(
        vec![(name("a"), Type::Array(Box::new(named("T", Vec::new())), span))],
        Some(Box::new(named("Box", vec![named("T", Vec::new())]))),
        span,
    );
    let out = types::substitute(&body, &vec![name("T")], &vec![named("number", Vec::new())]);
    assert_eq!(types::text_of(&out), "fn(a: [number]) -> Box<number>");
    assert_eq!(types::text_of(&body), "fn(a: [T]) -> Box<T>");
}

#[test]
fn a_name_for_itself_leads_nowhere() {
    let stats = vec![
        Stat::TypeAlias(name("A"), Vec::new(), named("B", Vec::new())),
        Stat::TypeAlias(name("B"), Vec::new(), named("number", Vec::new())),
        Stat::TypeAlias(name("C"), Vec::new(), named("C", Vec::new())),
    ];
    let block = Block { stats, lines: vec![1, 2, 3], tail: None, tail_line: 0 };
    let known = Types::read(&block);
    let a = named("A", Vec::new());
    assert_eq!(known.resolve(&a).map(types::text_of), Some("number".to_string()));
    assert!(known.resolve(&named("C", Vec::new())).is_none());
    assert_eq!(known.alias_names(), vec!["A", "B", "C"]);
    assert!(known.fields(&a).is_none());
    assert!(!known.is_parameter("A", "T"));
}

#[test]
fn a_long_chain_of_names_leads_to_its_end() {
    let mut stats = Vec::new();
    for i in 0..40 {
        stats.push(Stat::TypeAlias(name(&format!("T{i}")), Vec::new(), named(&format!("T{}", i + 1), Vec::new())));
    }
    stats.push(Stat::TypeAlias(name("T40"), Vec::new(), named("number", Vec::new())));
    stats.push(Stat::TypeAlias(name("A"), Vec::new(), named("B", Vec::new())));
    stats.push(Stat::TypeAlias(name("B"), Vec::new(), named("A", Vec::new())));
    let lines = (1..=stats.len() as u32).collect();
    let block = Block { stats, lines, tail: None, tail_line: 0 };
    let known = Types::read(&block);
    let t = named("T0", Vec::new());
    assert_eq!(known.resolve(&t).map(types::text_of), Some("number".to_string()));
    assert!(known.resolve(&named("A", Vec::new())).is_none());
}
