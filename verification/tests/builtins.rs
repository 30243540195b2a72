//! The standard library: text, numbers, dates, formats, sockets.
use rua::builtin::base;
use rua::builtin::dates::utc_string;
use rua::builtin::formats;
use rua::builtin::formats::{Body, Piece, Side};
use rua::builtin::randoms::{Random, FIRST_SEED};
use rua::builtin::sockets::Sockets;
use rua::builtin::strings;
use rua::hash::{source_hash, str_hash, FxHasher};
use rua::num;
use rua::table::Table;
use rua::text;
use rua::value::{Error, Value};

// ---- text ----------------------------------------------------------------------------------------

#[test]
fn a_text_is_as_long_as_its_bytes() {
    assert_eq!(strings::byte_len("héllo"), 6);
    assert_eq!(strings::byte("hé", 1), Some(0xc3));
    assert_eq!(strings::byte("hé", 3), None);
}

#[test]
fn a_slice_is_of_bytes_and_a_broken_character_is_replaced() {
    assert_eq!(strings::slice("hello", 1, 3), "el");
    assert_eq!(strings::slice("hello", 3, 3), "");
    assert_eq!(strings::slice("é", 0, 1), "\u{fffd}");
}

#[test]
fn letters_change_case() {
    assert_eq!(strings::upper("straße"), "STRASSE");
    assert_eq!(strings::lower("ÀB"), "àb");
}

#[test]
fn white_space_is_taken_off_the_ends() {
    assert_eq!(strings::trim(" \t a b\u{a0}\n"), "a b");
    assert_eq!(text::trim_start("  x "), "x ");
    assert_eq!(text::trim_end("  x "), "  x");
    assert_eq!(strings::trim("   "), "");
}

#[test]
fn a_text_is_found_by_its_bytes() {
    assert_eq!(strings::find("éa", "a"), Some(2));
    assert_eq!(strings::find("abc", ""), Some(0));
    assert_eq!(strings::find("abc", "d"), None);
    assert!(strings::contains("abc", "bc"));
    assert!(strings::starts_with("abc", "ab"));
    assert!(!strings::starts_with("abc", "b"));
    assert!(strings::ends_with("abc", "bc"));
    assert!(!strings::ends_with("c", "bc"));
}

#[test]
fn splitting_and_joining_undo_each_other() {
    let parts = strings::split("a,b,,c", ",");
    assert_eq!(parts, vec!["a", "b", "", "c"]);
    assert_eq!(rua::builtin::tables::join(&parts, ","), "a,b,,c");
    assert_eq!(strings::split("", ","), vec![""]);
    assert_eq!(strings::split("ab", ""), vec!["", "a", "b", ""]);
}

#[test]
fn replacing_is_splitting_and_joining() {
    assert_eq!(strings::replace("a.b.c", ".", "::"), "a::b::c");
    assert_eq!(strings::replace("aaa", "aa", "b"), "ba");
    assert_eq!(strings::replace("ab", "", "-"), "-a-b-");
}

#[test]
fn a_text_too_large_is_not_made() {
    assert_eq!(strings::repeat("ab", 3).ok(), Some("ababab".to_string()));
    assert_eq!(strings::repeat("", 1_000_000_000).ok(), Some(String::new()));
    let e = strings::repeat("ab", 1 << 28).err().unwrap();
    assert_eq!(e.message, "repeat: the result would be too large");
}

#[test]
fn characters_come_apart_and_turn_round() {
    assert_eq!(strings::reverse("añb"), "bña");
    assert_eq!(strings::chars("añ"), vec!["a", "ñ"]);
}

#[test]
fn a_newline_at_the_end_starts_no_line() {
    assert_eq!(strings::lines("a\r\nb\n"), vec!["a", "b"]);
    assert_eq!(strings::lines("a\n\nb"), vec!["a", "", "b"]);
    assert!(strings::lines("").is_empty());
    assert_eq!(strings::chomp("a\r\n", true), "a");
    assert_eq!(strings::chomp("a\r\n", false), "a\r");
}

#[test]
fn letters_come_before_letters() {
    assert!(text::comes_before("a", "ab"));
    assert!(text::comes_before("Z", "a"));
    assert!(!text::comes_before("b", "a"));
    assert!(!text::comes_before("a", "a"));
}

#[test]
fn numbers_are_read_and_written() {
    assert_eq!(text::parse_number("+42", 100), Some(42));
    assert_eq!(text::parse_number("101", 100), None);
    assert_eq!(text::parse_number("", 100), None);
    assert_eq!(text::parse_number("4x", 100), None);
    let mut s = String::new();
    text::push_decimal(&mut s, 120);
    text::push_hex(&mut s, 255);
    text::push_hex_padded(&mut s, 10, 4);
    assert_eq!(s, "120ff000a");
}

// ---- numbers -------------------------------------------------------------------------------------

#[test]
fn numbers_compare_as_numbers() {
    let b = |x: f64| x.to_bits();
    assert!(num::num_eq(b(0.0), b(-0.0)));
    assert!(!num::num_eq(b(f64::NAN), b(f64::NAN)));
    assert!(num::num_lt(b(-1.5), b(0.5)));
    assert!(num::num_lt(b(-2.0), b(-1.0)));
    assert!(num::num_le(b(1.0), b(1.0)));
    assert!(!num::num_le(b(f64::NAN), b(1.0)));
    assert_eq!(num::num_neg(b(1.5)), b(-1.5));
    assert!(num::num_is_nan(b(f64::NAN)));
}

#[test]
fn an_index_is_a_whole_number_that_is_not_less_than_nothing() {
    let b = |x: f64| x.to_bits();
    assert_eq!(num::num_index(b(7.0)), Some(7));
    assert_eq!(num::num_index(b(7.5)), None);
    assert_eq!(num::num_index(b(-1.0)), None);
    assert_eq!(num::num_index(b(f64::NAN)), None);
    assert_eq!(num::num_from_index(1234567), b(1234567.0));
    for i in [0u64, 1, 2, 3, 1023, 1 << 40] {
        assert_eq!(num::num_index(num::num_from_index(i)), Some(i));
    }
}

#[test]
fn a_whole_number_is_written_without_a_point() {
    assert_eq!(num::num_whole_text(3.0f64.to_bits()), Some("3".to_string()));
    assert_eq!(num::num_whole_text((-3.0f64).to_bits()), Some("-3".to_string()));
    assert_eq!(num::num_whole_text(3.5f64.to_bits()), None);
    assert_eq!(num::num_truncated(3.9f64.to_bits()), 3);
    assert_eq!(num::num_truncated((-3.9f64).to_bits()), 0);
}

// ---- formats -------------------------------------------------------------------------------------

fn shape(fmt: &str) -> Vec<String> {
    formats::pieces(fmt)
        .into_iter()
        .map(|p| match p {
            Piece::Char(c) => c.to_string(),
            Piece::Hole(s) => format!("<{s}>"),
        })
        .collect()
}

#[test]
fn a_template_comes_apart() {
    assert_eq!(shape("a{}b"), vec!["a", "<>", "b"]);
    assert_eq!(shape("{:>5}{{}}"), vec!["<>5>", "{", "}"]);
    assert_eq!(shape("{:.2"), vec!["<.2>"]);
}

#[test]
fn a_hole_says_how_wide_and_how() {
    let p = formats::parse_spec("*^8.3f").ok().unwrap();
    assert_eq!(p.fill, '*');
    assert_eq!(p.align, Some(Side::Middle));
    assert_eq!(p.width, 8);
    assert_eq!(p.precision, Some(3));
    assert_eq!(p.kind, "f");
    assert!(matches!(formats::body(&p, "*^8.3f", true), Ok(Body::Fixed(3))));
    assert_eq!(formats::pad("ab", &p, false), "***ab***");
}

#[test]
fn numbers_go_right_and_text_goes_left() {
    let p = formats::parse_spec("4").ok().unwrap();
    assert_eq!(formats::pad("7", &p, true), "   7");
    assert_eq!(formats::pad("a", &p, false), "a   ");
    assert_eq!(formats::pad("abcdef", &p, false), "abcdef");
    assert_eq!(formats::keep("abc", 2), "ab");
    assert_eq!(formats::keep("abc", 9), "abc");
}

#[test]
fn what_a_hole_may_not_ask_for() {
    let p = formats::parse_spec("q").ok().unwrap();
    assert_eq!(formats::body(&p, "q", true).err(), Some("format: unsupported spec `q` in `q`".to_string()));
    assert!(formats::parse_spec("99999999").is_err());
}

// ---- dates ---------------------------------------------------------------------------------------

#[test]
fn a_moment_is_written_as_a_date() {
    assert_eq!(utc_string(0), "1970-01-01 00:00:00");
    assert_eq!(utc_string(951_782_400), "2000-02-29 00:00:00");
    assert_eq!(utc_string(1_700_000_000), "2023-11-14 22:13:20");
    assert_eq!(utc_string(-1), "1969-12-31 23:59:59");
}

// ---- random numbers ------------------------------------------------------------------------------

#[test]
fn the_generator_starts_from_its_seed() {
    let mut r = Random::new();
    assert_eq!(r.state, FIRST_SEED);
    let a = r.next();
    r.seed(0);
    assert_eq!(r.state, 1);
    // 1 ^ 1<<13 = 0x2001; ^ >>7 = 0x2041; ^ <<17 = 0x4082_2041
    assert_eq!(r.next(), 0x4082_2041 >> 11);
    assert_eq!(r.state, 0x4082_2041);
    let mut again = Random::new();
    assert_eq!(again.next(), a);
}

// ---- sockets -------------------------------------------------------------------------------------

#[test]
fn a_closed_handle_names_nothing() {
    let mut s = Sockets::new();
    let (a, first) = s.insert().ok().unwrap();
    let (b, second) = s.insert().ok().unwrap();
    assert_eq!((a, b), (0, 1));
    let bits = |h: u64| (h as f64).to_bits();
    assert_eq!(s.at(bits(first)), Some(0));
    assert_eq!(s.close(bits(first)), Some(0));
    assert_eq!(s.at(bits(first)), None);
    assert_eq!(s.close(bits(first)), None);
    let (again, third) = s.insert().ok().unwrap();
    assert_eq!(again, 0);
    assert_ne!(third, first);
    assert_eq!(s.at(bits(first)), None);
    assert_eq!(s.at(bits(third)), Some(0));
    assert_eq!(s.at(bits(second)), Some(1));
    assert_eq!(s.at(0.5f64.to_bits()), None);
}

// ---- the globals every script has ----------------------------------------------------------------

#[test]
fn what_is_asserted_comes_back() {
    let args = vec![Value::Bool(true), Value::str("no")];
    assert_eq!(base::assert_args(&args).ok().map(|v| v.len()), Some(2));
    let args = vec![Value::Nil, Value::str("no")];
    assert!(matches!(base::assert_args(&args), Err(Some(Value::Str(s))) if s.as_str() == "no"));
    assert!(matches!(base::assert_args(&Vec::new()), Err(None)));
}

#[test]
fn trying_tells_whether_it_worked() {
    let out = base::try_result(Ok(vec![Value::Nil]));
    assert!(matches!(out[..], [Value::Bool(true), Value::Nil]));
    let out = base::try_result(Err(rua::value::Error("why".to_string())));
    assert!(matches!(&out[..], [Value::Bool(false), Value::Str(s)] if s.as_str() == "why"));
}

#[test]
fn tables_and_texts_have_lengths() {
    let mut t = Table::new();
    t.push(Value::Nil);
    let heap = vec![t];
    assert_eq!(base::length(&Value::Table(0), &heap).ok(), Some(1));
    assert_eq!(base::length(&Value::str("é"), &heap).ok(), Some(2));
    let e = base::length(&Value::Nil, &heap).err().unwrap();
    assert_eq!(e.message, "len: unexpected nil");
    let e = base::table_arg(&vec![Value::Bool(true)], 0).err().unwrap();
    assert_eq!(e.message, "expected a table, got boolean");
    assert_eq!(base::table_arg(&vec![Value::Table(4)], 0).ok(), Some(4));
}

#[test]
fn an_error_is_shown_in_one_line() {
    let e = Error {
        message: "no".to_string(),
        line: 3,
        located: true,
        where_: Some("f".to_string()),
        trace: vec![("f".to_string(), 2), (String::new(), 5)],
    };
    assert_eq!(e.text(), "line 3: no (in f)");
    assert_eq!(e.traceback(), vec!["a closure called from f, line 5", "f called from top level, line 2"]);
}

// ---- hashes --------------------------------------------------------------------------------------

#[test]
fn hashes_are_of_the_bytes() {
    assert_eq!(str_hash("abc"), str_hash("abc"));
    assert_ne!(str_hash("abc"), str_hash("abd"));
    let mut h = FxHasher::default();
    h.write(b"abc");
    let one = h.finish();
    let mut h = FxHasher::default();
    h.write(b"abc");
    assert_eq!(h.finish(), one);
    // where it starts, and one step of it
    assert_eq!(source_hash(""), 0xcbf2_9ce4_8422_2325);
    assert_eq!(source_hash("a"), 0xaf74_d84c_8601_ec8c);
}

#[test]
fn zeros_go_between_the_sign_and_the_digits() {
    let p = formats::parse_spec("08.3").ok().unwrap();
    assert_eq!(formats::pad("-1.500", &p, true), "-001.500");
    assert_eq!(formats::pad("1.500", &p, true), "0001.500");
}

#[test]
fn a_later_time_is_a_later_text() {
    let times = [0, 59, 60, 86_399, 86_400, 951_782_399, 951_782_400, 4_102_444_800];
    for w in times.windows(2) {
        assert!(utc_string(w[0]) < utc_string(w[1]), "{} {}", w[0], w[1]);
    }
}
