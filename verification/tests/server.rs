//! What an editor is answered, from the text of a file on.
//!
//! The front end is not part of this library, so a small one stands in for it
//! here: enough of a lexer, of a reader of declarations and of a resolver for
//! the files below.
use rua::ast::{Block, Expr, FuncDef, Name, Span, Stat, Type};
use rua::builtin::files;
use rua::lsp::calls;
use rua::lsp::colours;
use rua::lsp::colours::Colour;
use rua::lsp::complete;
use rua::lsp::complete::{Completion, Runtime, Source};
use rua::lsp::facts::Types;
use rua::lsp::hover;
use rua::lsp::hover::Provided;
use rua::lsp::index::{LineIndex, Position, Range};
use rua::lsp::names;
use rua::lsp::names::Occurrence;
use rua::lsp::offer;
use rua::lsp::offer::{Entry, Item};
use rua::lsp::tokens::{find_under, Lexed, Tok};

// ---- the tokens of a file ------------------------------------------------------------------

fn keyword(s: &str) -> Tok {
    match s {
        "break" => Tok::Break,
        "continue" => Tok::Continue,
        "else" => Tok::Else,
        "false" => Tok::False,
        "fn" => Tok::Fn,
        "for" => Tok::For,
        "if" => Tok::If,
        "in" => Tok::In,
        "let" => Tok::Let,
        "loop" => Tok::Loop,
        "match" => Tok::Match,
        "mut" => Tok::Mut,
        "nil" => Tok::Nil,
        "return" => Tok::Return,
        "true" => Tok::True,
        "type" => Tok::Type,
        "while" => Tok::While,
        _ => Tok::Name,
    }
}

fn punctuation(two: &str) -> (Tok, usize) {
    match two {
        "->" => return (Tok::Arrow, 2),
        "::" => return (Tok::ColonColon, 2),
        ".." | "==" | "!=" | "<=" | ">=" | "&&" | "||" | "+=" => return (Tok::Operator, 2),
        _ => {}
    }
    let one = match &two[..1] {
        "(" => Tok::LParen,
        ")" => Tok::RParen,
        "{" => Tok::LBrace,
        "}" => Tok::RBrace,
        "[" => Tok::LBracket,
        "]" => Tok::RBracket,
        ";" => Tok::Semi,
        "," => Tok::Comma,
        "#" => Tok::Hash,
        ":" => Tok::Colon,
        "." => Tok::Dot,
        "=" => Tok::Assign,
        "<" => Tok::Lt,
        ">" => Tok::Gt,
        _ => Tok::Operator,
    };
    (one, 1)
}

fn lex(src: &str) -> (Vec<Lexed>, Vec<Span>) {
    let b = src.as_bytes();
    let n = b.len();
    let mut tokens = Vec::new();
    let mut comments = Vec::new();
    let span = |lo: usize, hi: usize| Span { lo: lo as u32, hi: hi as u32 };
    let line_end = |i: usize| src[i..].find('\n').map(|k| i + k).unwrap_or(n);
    let mut i = 0;
    if src.starts_with("#!") {
        i = line_end(0);
        comments.push(span(0, i));
    }
    while i < n {
        let lo = i;
        if b[i].is_ascii_whitespace() {
            i += 1;
        } else if src[i..].starts_with("//") {
            i = line_end(i);
            comments.push(span(lo, i));
        } else if src[i..].starts_with("/*") {
            i = src[i..].find("*/").map(|k| i + k + 2).unwrap_or(n);
            comments.push(span(lo, i));
        } else if b[i] == b'_' || b[i].is_ascii_alphabetic() {
            while i < n && (b[i] == b'_' || b[i].is_ascii_alphanumeric()) {
                i += 1;
            }
            let text = src[lo..i].to_string();
            tokens.push(Lexed { tok: keyword(&text), text, span: span(lo, i) });
        } else if b[i].is_ascii_digit() {
            while i < n && b[i].is_ascii_digit() {
                i += 1;
            }
            tokens.push(Lexed { tok: Tok::Num, text: String::new(), span: span(lo, i) });
        } else if b[i] == b'"' {
            i += 1;
            while i < n && b[i] != b'"' {
                i += if b[i] == b'\\' { 2 } else { 1 };
            }
            i = (i + 1).min(n);
            tokens.push(Lexed { tok: Tok::Str, text: String::new(), span: span(lo, i) });
        } else {
            let (tok, len) = punctuation(&src[i..(i + 2).min(n)]);
            i += len;
            tokens.push(Lexed { tok, text: String::new(), span: span(lo, i) });
        }
    }
    tokens.push(Lexed { tok: Tok::Eof, text: String::new(), span: span(n, n) });
    (tokens, comments)
}

// ---- the declarations of a file --------------------------------------------------------------

fn tok(ts: &[Lexed], i: usize) -> Tok {
    ts.get(i).map(|t| t.tok).unwrap_or(Tok::Eof)
}

fn name_at(ts: &[Lexed], i: usize, ty: Option<Type>) -> Name {
    Name { text: ts[i].text.clone(), span: ts[i].span, ty: ty.map(Box::new) }
}

/// `a: T, b: U` up to what closes it.
fn read_fields(ts: &[Lexed], i: &mut usize, close: Tok) -> Vec<(Name, Type)> {
    let mut out = Vec::new();
    while tok(ts, *i) == Tok::Name && tok(ts, *i + 1) == Tok::Colon {
        let at = *i;
        *i += 2;
        match read_type(ts, i) {
            Some(t) => out.push((name_at(ts, at, None), t)),
            None => break,
        }
        if tok(ts, *i) == Tok::Comma {
            *i += 1;
        }
    }
    if tok(ts, *i) == close {
        *i += 1;
    }
    out
}

fn read_type(ts: &[Lexed], i: &mut usize) -> Option<Type> {
    let lo = ts[*i].span;
    match tok(ts, *i) {
        // `nil` is a type as well as a value
        Tok::Name | Tok::Nil => {
            let text = ts[*i].text.clone();
            *i += 1;
            let mut args = Vec::new();
            if tok(ts, *i) == Tok::Lt {
                *i += 1;
                while let Some(t) = read_type(ts, i) {
                    args.push(t);
                    if tok(ts, *i) == Tok::Comma {
                        *i += 1;
                    }
                }
                if tok(ts, *i) == Tok::Gt {
                    *i += 1;
                }
            }
            Some(Type::Named(text, args, lo))
        }
        Tok::LBracket => {
            *i += 1;
            let inner = read_type(ts, i)?;
            *i += 1;
            Some(Type::Array(Box::new(inner), lo))
        }
        Tok::Hash => {
            *i += 2;
            Some(Type::Record(read_fields(ts, i, Tok::RBrace), lo))
        }
        Tok::Fn => {
            *i += 2;
            let fields = read_fields(ts, i, Tok::RParen);
            let mut ret = None;
            if tok(ts, *i) == Tok::Arrow {
                *i += 1;
                ret = read_type(ts, i).map(Box::new);
            }
            Some(Type::Fn(fields, ret, lo))
        }
        _ => None,
    }
}

fn empty_block() -> Block {
    Block { stats: Vec::new(), lines: Vec::new(), tail: None, tail_line: 0 }
}

/// The types, functions and annotated names a file declares, in order.
fn read(ts: &[Lexed]) -> Block {
    let mut block = empty_block();
    let mut i = 0;
    while i < ts.len() {
        match tok(ts, i) {
            Tok::Type if tok(ts, i + 1) == Tok::Name => {
                let name = name_at(ts, i + 1, None);
                i += 2;
                let mut params = Vec::new();
                if tok(ts, i) == Tok::Lt {
                    i += 1;
                    while tok(ts, i) == Tok::Name {
                        params.push(name_at(ts, i, None));
                        i += 1;
                        if tok(ts, i) == Tok::Comma {
                            i += 1;
                        }
                    }
                    i += 1;
                }
                i += 1;
                if let Some(t) = read_type(ts, &mut i) {
                    block.stats.push(Stat::TypeAlias(name, params, t));
                }
            }
            Tok::Fn if tok(ts, i + 1) == Tok::Name => {
                let name = name_at(ts, i + 1, None);
                i += 3;
                let mut params = Vec::new();
                while tok(ts, i) == Tok::Name {
                    let at = i;
                    i += 1;
                    let mut ty = None;
                    if tok(ts, i) == Tok::Colon {
                        i += 1;
                        ty = read_type(ts, &mut i);
                    }
                    params.push(name_at(ts, at, ty));
                    if tok(ts, i) == Tok::Comma {
                        i += 1;
                    }
                }
                i += 1;
                let mut ret = None;
                if tok(ts, i) == Tok::Arrow {
                    i += 1;
                    ret = read_type(ts, &mut i);
                }
                let def = FuncDef {
                    id: 0,
                    name: name.text.clone(),
                    params,
                    ret,
                    body: empty_block(),
                    line: 0,
                    n_slots: 0,
                    param_bindings: Vec::new(),
                    upvals: Vec::new(),
                };
                block.stats.push(Stat::FnDecl(name, Expr::Func(Box::new(def))));
            }
            Tok::Let if tok(ts, i + 1) == Tok::Name && tok(ts, i + 2) == Tok::Colon => {
                let at = i + 1;
                i += 3;
                let ty = read_type(ts, &mut i);
                block.stats.push(Stat::Let(vec![name_at(ts, at, ty)], Vec::new()));
            }
            _ => i += 1,
        }
    }
    block
}

// ---- the names of a file -----------------------------------------------------------------------

fn skip_type(ts: &[Lexed], i: &mut usize) {
    if tok(ts, *i) == Tok::Colon || tok(ts, *i) == Tok::Arrow {
        *i += 1;
        read_type(ts, i);
    }
}

fn resolve(ts: &[Lexed]) -> Vec<Occurrence> {
    let mut globals: Vec<(String, Span)> = Vec::new();
    for i in 0..ts.len() {
        if tok(ts, i) == Tok::Fn && tok(ts, i + 1) == Tok::Name {
            globals.push((ts[i + 1].text.clone(), ts[i + 1].span));
        }
    }
    let mut out = Vec::new();
    let mut scopes: Vec<Vec<(String, Span)>> = vec![Vec::new()];
    let mut coming: Vec<(String, Span)> = Vec::new();
    let declare = |out: &mut Vec<Occurrence>, t: &Lexed| {
        out.push(Occurrence { name: t.text.clone(), kind: 0, span: t.span, decl: Some(t.span) });
        (t.text.clone(), t.span)
    };
    let mut i = 0;
    while i < ts.len() {
        match tok(ts, i) {
            Tok::Type => {
                i += 1;
                while tok(ts, i) != Tok::Assign && tok(ts, i) != Tok::Eof {
                    i += 1;
                }
                i += 1;
                if i < ts.len() {
                    read_type(ts, &mut i);
                }
            }
            Tok::Fn if tok(ts, i + 1) == Tok::Name => {
                declare(&mut out, &ts[i + 1]);
                i += 3;
                while tok(ts, i) == Tok::Name {
                    coming.push(declare(&mut out, &ts[i]));
                    i += 1;
                    skip_type(ts, &mut i);
                    if tok(ts, i) == Tok::Comma {
                        i += 1;
                    }
                }
                i += 1;
                skip_type(ts, &mut i);
            }
            Tok::Let if tok(ts, i + 1) == Tok::Name => {
                let here = declare(&mut out, &ts[i + 1]);
                scopes.last_mut().unwrap().push(here);
                i += 2;
                skip_type(ts, &mut i);
            }
            Tok::For if tok(ts, i + 1) == Tok::Name => {
                coming.push(declare(&mut out, &ts[i + 1]));
                i += 2;
            }
            Tok::LBrace => {
                scopes.push(std::mem::take(&mut coming));
                i += 1;
            }
            Tok::RBrace => {
                if scopes.len() > 1 {
                    scopes.pop();
                }
                i += 1;
            }
            Tok::Name => {
                let field = i > 0 && (tok(ts, i - 1) == Tok::Dot || tok(ts, i - 1) == Tok::ColonColon);
                if !field && tok(ts, i + 1) != Tok::Colon {
                    let text = &ts[i].text;
                    let decl = scopes
                        .iter()
                        .rev()
                        .flat_map(|s| s.iter().rev())
                        .chain(globals.iter())
                        .find(|(n, _)| n == text)
                        .map(|(_, s)| *s);
                    let kind = if decl.is_some() { 0 } else { 1 };
                    out.push(Occurrence { name: text.clone(), kind, span: ts[i].span, decl });
                }
                i += 1;
            }
            _ => i += 1,
        }
    }
    out
}

// ---- asking ------------------------------------------------------------------------------------

struct World {
    tokens: Vec<Lexed>,
    comments: Vec<Span>,
    lines: LineIndex,
    block: Block,
    names: Vec<Occurrence>,
    runtime: Runtime,
}

fn words(ws: &[&str]) -> Vec<String> {
    ws.iter().map(|w| w.to_string()).collect()
}

fn provided(name: &str, members: Option<&[&str]>) -> Provided {
    Provided { name: name.to_string(), members: members.map(words) }
}

fn open(text: &str) -> World {
    let (tokens, comments) = lex(text);
    let block = read(&tokens);
    let names = resolve(&tokens);
    let runtime = Runtime {
        globals: vec![
            provided("print", None),
            provided("require", None),
            Provided { name: "fs".to_string(), members: Some(files::names()) },
        ],
        strings: words(&["upper", "len"]),
        arrays: words(&["push", "len", "pop"]),
        numbers: words(&["floor"]),
    };
    World { tokens, comments, lines: LineIndex::new(text), block, names, runtime }
}

fn at(line: u32, character: u32) -> Position {
    Position { line, character }
}

impl World {
    fn complete(&self, p: Position) -> Completion {
        let types = Types::read(&self.block);
        let src = Source {
            tokens: &self.tokens,
            comments: &self.comments,
            lines: &self.lines,
            names: &self.names,
            types: &types,
        };
        complete::complete(&src, &self.runtime, self.lines.offset(p))
    }

    fn items(&self, p: Position) -> Vec<Item> {
        match self.complete(p) {
            Completion::Items(items) => items,
            Completion::Files(_) => Vec::new(),
        }
    }

    fn labels(&self, p: Position) -> Vec<String> {
        self.items(p).into_iter().map(|i| i.label).collect()
    }

    fn detail(&self, p: Position, label: &str) -> String {
        self.items(p).into_iter().find(|i| i.label == label).map(|i| i.detail).unwrap_or_default()
    }

    fn hover(&self, p: Position) -> Option<String> {
        let i = find_under(&self.tokens, self.lines.offset(p))?;
        let types = Types::read(&self.block);
        hover::describe(&self.tokens, i, &types, &self.names, &self.runtime.globals)
    }

    fn token_kinds(&self) -> Vec<(String, Colour)> {
        colours::coloured(&self.tokens, &self.comments, self.lines.text())
            .into_iter()
            .map(|(s, c)| (self.lines.between(s.lo, s.hi), c))
            .collect()
    }

    fn range(&self, s: Span) -> Range {
        self.lines.range(s.lo, s.hi)
    }

    fn definition(&self, p: Position) -> Option<Range> {
        names::definition_at(&self.names, self.lines.offset(p)).map(|s| self.range(s))
    }

    fn references(&self, p: Position) -> Vec<Range> {
        let spans = names::references_at(&self.names, self.lines.offset(p));
        spans.into_iter().map(|s| self.range(s)).collect()
    }

    fn rename(&self, p: Position, to: &str) -> Result<Vec<Range>, String> {
        let edits = names::rename_at(&self.names, self.lines.offset(p), to)?;
        assert!(edits.iter().all(|e| e.text == to));
        Ok(edits.into_iter().map(|e| self.range(e.span)).collect())
    }

    fn signature(&self, p: Position) -> Option<calls::Help> {
        calls::signature_at(&self.tokens, self.lines.offset(p))
    }
}

// ---- completion, hover and colours ---------------------------------------------------------------

#[test]
fn completion_after_a_module_is_that_modules_own_names() {
    let world = open("fs::\n");
    let labels = world.labels(at(0, 4));
    for want in ["read", "write", "lines", "open", "exists"] {
        assert!(labels.iter().any(|l| l == want), "`fs::{want}` missing from {labels:?}");
    }
    assert!(!labels.contains(&"print".to_string()), "a global is not a member of `fs`");
    assert!(labels.windows(2).all(|w| w[0] < w[1]), "in order: {labels:?}");
    assert_eq!(labels.len(), 12);
}

#[test]
fn hover_on_a_module_lists_what_is_in_it() {
    let world = open("fs::read(\"x\")\n");
    let text = world.hover(at(0, 0)).expect("hover on `fs`");
    assert!(text.contains("module"), "{text}");
    assert!(text.contains("fs::read"), "{text}");
}

#[test]
fn hover_on_a_keyword_says_what_it_does() {
    let world = open("fn f() { 1 }\n");
    let text = world.hover(at(0, 1)).expect("hover on `fn`");
    assert!(text.contains("function"), "{text}");
}

#[test]
fn the_outline_lists_functions_even_when_the_file_does_not_parse() {
    let world = open("fn one() { 1 }\nlet = broken\nfn two(a) { a }\n");
    let found = calls::symbols(&world.tokens, &world.lines);
    let names: Vec<&str> = found.iter().map(|s| s.name.as_str()).collect();
    assert_eq!(names, vec!["one", "two"], "both, despite the mistake between them");
    assert_eq!(found[1].range.start, at(2, 0));
    assert_eq!(found[1].selection, Range { start: at(2, 3), end: at(2, 6) });
}

#[test]
fn semantic_tokens_tell_a_call_from_a_module_from_a_field() {
    let world = open("fs::read(x.name)\n");
    let kinds: Vec<(String, Colour)> = world
        .token_kinds()
        .into_iter()
        .filter(|(t, _)| t.chars().all(|c| c.is_alphanumeric() || c == '_'))
        .collect();
    assert_eq!(
        kinds,
        vec![
            ("fs".to_string(), Colour::Namespace),
            ("read".to_string(), Colour::Function),
            ("x".to_string(), Colour::Variable),
            ("name".to_string(), Colour::Property),
        ]
    );
}

#[test]
fn a_token_spanning_lines_is_cut_at_the_line_ends() {
    let world = open("let s = \"one\ntwo\"\n/* a\n   b */\n");
    let kinds = world.token_kinds();
    assert!(!kinds.iter().any(|(t, _)| t.contains('\n')), "{kinds:?}");
    let text: Vec<&str> = kinds.iter().map(|(t, _)| t.as_str()).collect();
    assert!(text.contains(&"\"one"), "{text:?}");
    assert!(text.contains(&"two\""), "{text:?}");
    assert!(text.contains(&"/* a"), "{text:?}");
}

#[test]
fn a_shebang_is_a_comment() {
    let world = open("#!/usr/bin/env rua\nlet a = 1\n");
    let kinds = world.token_kinds();
    assert_eq!(
        kinds.first().map(|(t, k)| (t.as_str(), *k)),
        Some(("#!/usr/bin/env rua", Colour::Comment)),
        "{kinds:?}"
    );
    assert!(world.labels(at(0, 10)).is_empty(), "nothing to complete in a shebang");
    assert!(!world.labels(at(1, 9)).is_empty());
}

#[test]
fn comments_are_coloured() {
    let world = open("let a = 1 // why\n");
    let kinds = world.token_kinds();
    assert!(kinds.iter().any(|(t, k)| t == "// why" && *k == Colour::Comment), "{kinds:?}");
}

// ---- go to definition, references and rename -----------------------------------------------------

#[test]
fn definition_finds_where_a_local_came_into_scope() {
    let world = open("fn f(a) {\n    let total = a + 1\n    total * 2\n}\n");
    let decl = world.definition(at(2, 5)).expect("a definition");
    assert_eq!(decl.start, at(1, 8), "the `total` in the `let`");
    assert_eq!(decl.end, at(1, 13));
    let param = world.definition(at(1, 16)).expect("a definition");
    assert_eq!(param.start, at(0, 5), "the `a` in the parameter list");
}

#[test]
fn definition_finds_a_function_defined_later_in_the_file() {
    let world = open("fn main() {\n    helper(1)\n}\nfn helper(x) { x }\n");
    let decl = world.definition(at(1, 4)).expect("a definition");
    assert_eq!(decl.start, at(3, 3), "the name in `fn helper`");
}

const SHADOWED: &str = "fn f() {\n    let x = 1\n    {\n        let x = 2\n        print(x)\n    }\n    print(x)\n}\n";

#[test]
fn shadowing_is_not_confused_by_a_shared_spelling() {
    let world = open(SHADOWED);
    let inner = world.definition(at(4, 14)).expect("a definition");
    assert_eq!(inner.start, at(3, 12), "the inner `let x`");
    let outer = world.definition(at(6, 10)).expect("a definition");
    assert_eq!(outer.start, at(1, 8), "the outer `let x`");
    assert_eq!(world.references(at(4, 14)).len(), 2);
    assert_eq!(world.references(at(6, 10)).len(), 2);
}

#[test]
fn rename_changes_one_variable_and_leaves_the_other_alone() {
    let world = open(SHADOWED);
    let edits = world.rename(at(6, 10), "outer").expect("a rename");
    assert_eq!(edits.len(), 2, "the outer declaration and its one use");
    let mut lines: Vec<u32> = edits.iter().map(|e| e.start.line).collect();
    lines.sort();
    assert_eq!(lines, vec![1, 6], "not the inner `x` on lines 3 and 4");
}

#[test]
fn rename_follows_a_name_captured_by_a_closure() {
    let world = open("fn f() {\n    let count = 0\n    let bump = || { count + 1 }\n    bump()\n}\n");
    let refs = world.references(at(1, 8));
    assert_eq!(refs.len(), 2, "the declaration and the use inside the closure");
    let edits = world.rename(at(1, 8), "n").expect("a rename");
    assert_eq!(edits.len(), 2);
    assert!(edits.iter().any(|e| e.start.line == 2), "the one inside the closure");
}

#[test]
fn a_name_from_outside_the_file_is_not_renamed() {
    let world = open("print(1)\n");
    let offset = world.lines.offset(at(0, 2));
    assert!(names::prepare_rename_at(&world.names, offset).is_none(), "`print` is not ours");
    let refused = world.rename(at(0, 2), "shout");
    assert!(refused.is_err(), "{refused:?}");
    assert!(refused.unwrap_err().contains("not declared in this file"));
}

#[test]
fn a_new_name_that_is_not_a_name_is_refused() {
    let world = open("fn f() {\n    let x = 1\n    x\n}\n");
    for bad in ["2x", "a b", "", "let", "x-y"] {
        let out = world.rename(at(1, 8), bad);
        assert!(out.is_err(), "`{bad}` should be refused");
        assert_eq!(out.unwrap_err(), format!("`{bad}` is not a name"));
    }
    assert!(world.rename(at(1, 8), "_ok2").is_ok());
    assert_eq!(world.rename(at(3, 1), "y").unwrap_err(), "there is no name here");
}

#[test]
fn rename_covers_a_parameter_and_its_uses() {
    let world = open("fn add(a, b) {\n    a + b + a\n}\n");
    let edits = world.rename(at(0, 7), "left").expect("a rename");
    assert_eq!(edits.len(), 3, "the parameter and its two uses");
}

#[test]
fn references_of_a_loop_variable_stay_inside_the_loop() {
    let world = open("fn f(xs) {\n    for i in 0..3 { print(i) }\n    let i = 9\n    i\n}\n");
    let loop_var = world.references(at(1, 8));
    assert_eq!(loop_var.len(), 2, "the loop's `i` and the one printed");
    let after = world.references(at(3, 4));
    assert_eq!(after.len(), 2, "the later `let i` and the tail that reads it");
    assert!(loop_var.iter().all(|l| l.start.line == 1));
}

// ---- completion knows where the cursor is --------------------------------------------------------

fn has(got: &[String], want: &str) -> bool {
    got.iter().any(|g| g == want)
}

#[test]
fn a_method_position_offers_methods_and_not_keywords() {
    let world = open("let t = []\nt.\n");
    let got = world.labels(at(1, 2));
    assert!(!got.is_empty(), "something should be offered");
    for keyword in ["break", "return", "let", "fn", "while"] {
        assert!(!has(&got, keyword), "`{keyword}` offered after a `.`");
    }
    assert!(has(&got, "push"), "{got:?}");
    assert!(has(&got, "len"), "{got:?}");
    assert!(!has(&got, "print"));
}

#[test]
fn a_module_position_offers_only_that_module() {
    let world = open("fs::\n");
    let got = world.labels(at(0, 4));
    assert!(has(&got, "read"), "{got:?}");
    assert!(!has(&got, "print"), "a global is not inside `fs`");
    assert!(!has(&got, "break"), "a keyword is not inside `fs`");
    let world = open("notamodule::\n");
    assert!(world.labels(at(0, 12)).is_empty(), "nothing is known to be in it");
}

#[test]
fn nothing_is_offered_inside_a_comment() {
    let world = open("// a note about b\nlet b = 1\n/* and\n   a longer one */\n");
    assert!(world.labels(at(0, 10)).is_empty(), "inside a line comment");
    assert!(world.labels(at(0, 17)).is_empty(), "at the end of one");
    assert!(world.labels(at(3, 8)).is_empty(), "inside a block comment");
    assert!(!world.labels(at(1, 9)).is_empty(), "the code between them");
}

#[test]
fn a_string_is_text_but_its_interpolation_is_not() {
    let world = open("let who = \"you\"\nlet s = \"hello there\"\nlet t = \"hi {who}\"\n");
    assert!(world.labels(at(1, 14)).is_empty(), "inside the text");
    let inside = world.labels(at(2, 16));
    assert!(has(&inside, "who"), "{inside:?}");
    assert!(has(&inside, "print"), "globals too");
}

fn entry(name: &str, directory: bool) -> Entry {
    Entry { name: name.to_string(), directory }
}

#[test]
fn require_offers_the_files_beside_this_one() {
    let world = open("let j = require(\"\")\n");
    let prefix = match world.complete(at(0, 17)) {
        Completion::Files(p) => p,
        Completion::Items(_) => panic!("files were to be offered"),
    };
    let sub = offer::directory(&prefix);
    assert_eq!(sub, "");
    let beside = vec![
        entry("notes.txt", false),
        entry("lib", true),
        entry(".git", true),
        entry("json.rua", false),
        entry("main.rua", false),
        entry("http.rua", false),
    ];
    let own = Some("main".to_string());
    let got: Vec<String> =
        offer::offer_entries(&beside, &sub, &own).into_iter().map(|i| i.label).collect();
    assert_eq!(got, vec!["http", "json", "lib/"]);

    let world = open("let v = require(\"lib/\")\n");
    let prefix = match world.complete(at(0, 21)) {
        Completion::Files(p) => p,
        Completion::Items(_) => panic!("files were to be offered"),
    };
    let sub = offer::directory(&prefix);
    assert_eq!(sub, "lib");
    let inner: Vec<String> = offer::offer_entries(&vec![entry("vec2.rua", false)], &sub, &own)
        .into_iter()
        .map(|i| i.label)
        .collect();
    assert_eq!(inner, vec!["lib/vec2"]);
}

#[test]
fn naming_something_new_offers_nothing() {
    let world = open("fn \nlet \nlet mut \n");
    assert!(world.labels(at(0, 3)).is_empty(), "after `fn`");
    assert!(world.labels(at(1, 4)).is_empty(), "after `let`");
    assert!(world.labels(at(2, 8)).is_empty(), "after `let mut`");
}

#[test]
fn a_name_being_typed_keeps_the_position_it_is_in() {
    let world = open("fs::re\n");
    let got = world.labels(at(0, 6));
    assert!(has(&got, "read"), "{got:?}");
    assert!(!has(&got, "print"));
    let world = open("let t = []\nt.pu\n");
    let got = world.labels(at(1, 4));
    assert!(has(&got, "push"), "{got:?}");
    assert!(!has(&got, "break"));
}

#[test]
fn an_expression_position_offers_keywords_globals_and_local_names() {
    let world = open("fn helper(a) { a }\nlet total = 1\n\n");
    let got = world.labels(at(2, 0));
    for want in ["let", "while", "print", "fs", "helper", "total"] {
        assert!(has(&got, want), "`{want}` missing from {got:?}");
    }
    let world = open("let p = #{}\nlet n = p.width\n\n");
    let got = world.labels(at(2, 0));
    assert!(!has(&got, "width"), "a field is not a variable");
}

// ---- signature help --------------------------------------------------------------------------------

#[test]
fn signature_help_names_the_parameters_and_the_one_being_written() {
    let world = open("fn add(left, right) { left + right }\nlet n = add(1, 2)\n");
    let sig = world.signature(at(1, 12)).expect("inside the call");
    assert_eq!(sig.label, "add(left, right)");
    assert_eq!(sig.argument, 0, "on the first argument");
    let second = world.signature(at(1, 15)).expect("after the comma");
    assert_eq!(second.argument, 1, "on the second");
    assert_eq!(second.active, 1);
}

#[test]
fn signature_help_says_nothing_it_does_not_know() {
    let world = open("fn add(a, b) { a + b }\nlet n = 1\nprint(n)\n");
    assert!(world.signature(at(1, 9)).is_none(), "not inside a call");
    assert!(world.signature(at(2, 6)).is_none(), "`print` is the runtime's");
}

#[test]
fn signature_help_follows_a_call_inside_a_call() {
    let world = open("fn outer(a) { a }\nfn inner(x, y) { x }\nlet n = outer(inner(1, 2))\n");
    let sig = world.signature(at(2, 24)).expect("inside inner");
    assert_eq!(sig.label, "inner(x, y)");
    assert_eq!(sig.argument, 1);
    let out = world.signature(at(2, 14)).expect("inside outer");
    assert_eq!(out.label, "outer(a)");
}

// ---- completion reads the types that were written ------------------------------------------------

#[test]
fn an_argument_position_says_what_the_argument_is_for() {
    let src = "type Point = #{ x: number, y: number }\n\
               fn place(spot: Point, label: string) -> boolean { spot.x > 0 }\n\
               let ok = place(";
    let world = open(src);
    let got = world.labels(at(2, 15));
    assert_eq!(got.first().map(String::as_str), Some("spot"), "the parameter comes first");
    let d = world.detail(at(2, 15), "spot");
    assert!(d.contains("first of"), "{d}");
    assert!(d.contains("place(spot: Point, label: string) -> boolean"), "{d}");
    assert!(d.contains("— Point"), "the type it wants: {d}");
    assert!(d.contains("#{ x: number, y: number }"), "followed down to the shape: {d}");
}

#[test]
fn the_argument_being_written_is_the_one_described() {
    let src = "fn pair(left: number, right: string) -> nil { }\nlet x = pair(f(1, 2), ";
    let world = open(src);
    let d = world.detail(at(1, 22), "right");
    assert!(d.contains("second of"), "{d}");
    assert!(d.ends_with("string"), "{d}");
}

#[test]
fn a_typed_map_offers_the_fields_its_type_declares() {
    let src = "type Colour = #{ red: number, green: number, blue: number }\nlet c: Colour = #{ ";
    let world = open(src);
    let got = world.labels(at(1, 19));
    assert_eq!(got, vec!["red", "green", "blue"], "in the order they were declared");
    assert_eq!(world.detail(at(1, 19), "red"), "number");
    let items = world.items(at(1, 19));
    assert_eq!(items[0].insert.as_deref(), Some("red: "));
}

#[test]
fn a_type_position_offers_types_and_nothing_else() {
    let world = open("type Point = #{ x: number }\nlet p: ");
    let got = world.labels(at(1, 7));
    assert!(has(&got, "number"), "{got:?}");
    assert!(has(&got, "Point"), "a type this file declared");
    assert!(!has(&got, "let"), "a keyword is not a type");
    assert!(!has(&got, "print"), "a global is not a type");
    assert_eq!(world.detail(at(1, 7), "Point"), "#{ x: number }", "shown expanded");
    let world = open("type Point = #{ x: number }\nfn f() -> ");
    assert!(has(&world.labels(at(1, 10)), "Point"));
}

#[test]
fn a_colon_in_a_map_is_not_a_type_position() {
    let world = open("let total = 1\nlet m = #{ count: ");
    let got = world.labels(at(1, 18));
    assert!(has(&got, "total"), "a value goes here: {got:?}");
    assert!(!has(&got, "boolean"), "not a type position");
}

#[test]
fn names_are_offered_with_the_types_they_were_written_with() {
    let src = "type Point = #{ x: number }\n\
               fn scale(p: Point, by: number) -> Point { p }\n\
               let origin: Point = #{ x: 1 }\n\
               let count = 2\n";
    let world = open(src);
    assert_eq!(world.detail(at(4, 0), "origin"), "Point");
    assert_eq!(
        world.detail(at(4, 0), "scale"),
        "scale(p: Point, by: number) -> Point",
        "a function is offered as its signature"
    );
    assert_eq!(world.detail(at(4, 0), "count"), "this file");
}

// ---- generics, and what they let the editor say --------------------------------------------------

const HANDLER: &str = "type Body = #{ path: string, bytes: number }\n\
                       type Reply = #{ status: number }\n\
                       type Handler<T, U> = fn(route: string, data: T) -> U\n\
                       fn serve(on: string, handle: Handler<Body, Reply>, retries: number) -> boolean {\n\
                       retries > 0\n\
                       }\n\
                       let listener: Handler<Body, Reply> = |r, d| { #{ status: 200 } }\n";

#[test]
fn every_argument_of_a_call_says_what_it_is_for() {
    let src = format!("{HANDLER}let a = serve(\"x\", listener, ret");
    let world = open(&src);
    let line = 7;
    for (col, want, kind) in [
        (14u32, "on", "first"),
        (19, "handle", "second"),
        (29, "retries", "third"),
        (32, "retries", "third"),
    ] {
        let got = world.labels(at(line, col));
        assert_eq!(got.first().map(String::as_str), Some(want), "at column {col}");
        let d = world.detail(at(line, col), want);
        assert!(d.starts_with(kind), "{d}");
    }
}

#[test]
fn a_generic_is_filled_in_where_it_is_used() {
    let src = format!("{HANDLER}let a = serve(\"x\", ");
    let world = open(&src);
    let d = world.detail(at(7, 19), "handle");
    assert!(d.contains("Handler<Body, Reply>"), "{d}");
    assert!(
        d.contains("fn(route: string, data: Body) -> Reply"),
        "the parameters filled in: {d}"
    );
}

#[test]
fn hover_says_what_a_name_and_a_type_and_a_function_are() {
    let world = open(HANDLER);
    let f = world.hover(at(3, 4)).expect("hover on `serve`");
    assert!(f.contains("fn serve(on: string, handle: Handler<Body, Reply>, retries: number) -> boolean"), "{f}");
    assert!(f.contains("`handle`"), "{f}");
    assert!(f.contains("fn(route: string, data: Body) -> Reply"), "filled in: {f}");
    let n = world.hover(at(6, 5)).expect("hover on `listener`");
    assert!(n.contains("listener: Handler<Body, Reply>"), "{n}");
    assert!(n.contains("fn(route: string, data: Body) -> Reply"), "{n}");
    let t = world.hover(at(2, 6)).expect("hover on `Handler`");
    assert!(t.contains("type Handler<T, U> = fn(route: string, data: T) -> U"), "{t}");
    let b = world.hover(at(0, 6)).expect("hover on `Body`");
    assert!(b.contains("type Body = #{ path: string, bytes: number }"), "{b}");
}
