use boml::value::parse_value;
use std::collections::hash_map::DefaultHasher;
use std::hash::{Hash, Hasher};
use boml::convert::{FromToml, FromTomlError, TomlTryInto};
use boml::key::parse_dotted_key;
use boml::table::TomlGetError;
use boml::types::TomlValueType;
use boml::string::{parse_basic_string, parse_string};
use boml::table::{insert_path, Action};
use boml::text::{CowSpan, Span, Text};
use boml::time::{parse_date, parse_time};
use boml::types::{TableOrigin, TomlDate, TomlTable, TomlTime, TomlValue};
use boml::{parse, Toml, TomlErrorKind};

fn kind_of(source: &str) -> TomlErrorKind {
    parse(source).unwrap_err().kind
}

fn table_with(key: &str, value: TomlValue<'static>, text: &'static str) -> TomlTable<'static> {
    let _ = key;
    let mut table = TomlTable { entries: Vec::new(), origin: TableOrigin::Explicit };
    let keys = parse_dotted_key(&mut Text::new(text)).unwrap();
    insert_path(&mut table.entries, keys, Action::Assign(value)).unwrap();
    table
}

#[test]
fn test_table_keys() {
    let basic = table_with("bool", TomlValue::Boolean(true), "bool");
    assert_eq!(basic.get("bool").unwrap().as_bool(), Some(true));

    let dotted = table_with("dot.bool", TomlValue::Boolean(true), "dot.bool");
    let subtable = dotted.get("dot").unwrap().as_table().unwrap();
    assert_eq!(subtable.get("bool").unwrap().as_bool(), Some(true));

    let quoted = table_with("'wowza.hi'", TomlValue::Boolean(true), "'wowza.hi'");
    assert_eq!(quoted.get("wowza.hi").unwrap().as_bool(), Some(true));

    let quoted_alt = table_with("\"wowza.hi\"", TomlValue::Boolean(true), r#""wowza.hi""#);
    assert_eq!(quoted_alt.get("wowza.hi").unwrap().as_bool(), Some(true));
}

#[test]
fn date_tests() {
    fn test(year: u16, month: u8, day: u8) {
        let source = format!("-{month:02}-{day:02}");
        let value = parse_date(year, 0, &mut Text::new(&source)).unwrap();
        assert_eq!(value.as_date(), Some(TomlDate { year, month, month_day: day }));
    }
    test(2025, 2, 3);
    test(1999, 12, 23);
    test(100, 2, 15);
    test(13, 11, 9);
    test(1, 1, 1);
}

#[test]
fn time_tests() {
    fn test(hour: u8, minute: u8, second: u8, nanosecond: u32) {
        let source = format!(":{minute:02}:{second:02}.{nanosecond}");
        let time = parse_time(hour, 0, &mut Text::new(&source)).unwrap();
        assert_eq!((time.hour, time.minute, time.second), (hour, minute, second));
        let digits = format!("{nanosecond}");
        let mut expected = nanosecond;
        for _ in digits.len()..9 {
            expected *= 10;
        }
        assert_eq!(time.nanosecond, expected);
    }
    test(20, 33, 25, 500_000);
    test(1, 3, 5, 5_000);
    test(20, 6, 7, 0);
    test(1, 13, 5, 55_000);
    test(1, 3, 35, 54_000);
}

#[test]
fn header_redefinition_is_reused_key() {
    assert_eq!(kind_of("[a]\nb = 1\n[a]\nc = 2\n"), TomlErrorKind::ReusedKey);
}

#[test]
fn implicit_table_promoted_once() {
    let toml = Toml::parse("[a.b]\nx = 1\n[a]\ny = 2\n").unwrap();
    let a = toml.table().get_table("a").unwrap();
    assert_eq!(a.get_integer("y").unwrap(), 2);
    assert_eq!(a.get_table("b").unwrap().get_integer("x").unwrap(), 1);
    assert_eq!(kind_of("[a.b]\nx = 1\n[a]\ny = 2\n[a]\n"), TomlErrorKind::ReusedKey);
}

#[test]
fn dotted_keys_share_one_table() {
    let toml = Toml::parse("a.b = 1\na.c = 2\n").unwrap();
    let a = toml.table().get_table("a").unwrap();
    assert_eq!(a.get_integer("b").unwrap(), 1);
    assert_eq!(a.get_integer("c").unwrap(), 2);
    assert_eq!(toml.table().len(), 1);
}

#[test]
fn key_assigned_twice_is_reused() {
    assert_eq!(kind_of("a = 1\na = 2\n"), TomlErrorKind::ReusedKey);
    assert_eq!(kind_of("a = 1\n'a' = 2\n"), TomlErrorKind::ReusedKey);
    assert_eq!(kind_of("a.b = 1\na.b = 2\n"), TomlErrorKind::ReusedKey);
}

#[test]
fn inline_tables_are_closed() {
    assert_eq!(kind_of("a = { x = 1 }\na.y = 2\n"), TomlErrorKind::ReusedKey);
    assert_eq!(kind_of("a = { x = 1 }\n[a]\n"), TomlErrorKind::ReusedKey);
    assert_eq!(kind_of("a = { x = 1 }\n[a.b]\n"), TomlErrorKind::ReusedKey);
}

#[test]
fn array_of_tables_rules() {
    assert_eq!(kind_of("a = 1\n[[a]]\n"), TomlErrorKind::ReusedKey);
    assert_eq!(kind_of("a = [1]\n[[a]]\n"), TomlErrorKind::ReusedKey);
    let toml = Toml::parse("[[a]]\nx = 1\n[a.b]\ny = 2\n[[a]]\nx = 3\n").unwrap();
    let a = toml.table().get_array("a").unwrap();
    assert_eq!(a.len(), 2);
    let first = a[0].as_table().unwrap();
    assert_eq!(first.get_table("b").unwrap().get_integer("y").unwrap(), 2);
    assert_eq!(a[1].as_table().unwrap().get_integer("x").unwrap(), 3);
}

#[test]
fn integer_limits() {
    let toml = Toml::parse("min = -9223372036854775808\nmax = 9223372036854775807\n").unwrap();
    assert_eq!(toml.table().get_integer("min").unwrap(), i64::MIN);
    assert_eq!(toml.table().get_integer("max").unwrap(), i64::MAX);
    assert_eq!(kind_of("a = 9223372036854775808\n"), TomlErrorKind::NumberTooLarge);
    assert_eq!(kind_of("a = -9223372036854775809\n"), TomlErrorKind::NumberTooLarge);
    assert_eq!(kind_of("a = 0x1_0000_0000_0000_0000\n"), TomlErrorKind::NumberTooLarge);
    let toml = Toml::parse("a = -0x8000000000000000\nb = 0xDEAD_beef\n").unwrap();
    assert_eq!(toml.table().get_integer("a").unwrap(), i64::MIN);
    assert_eq!(toml.table().get_integer("b").unwrap(), 0xDEAD_BEEF);
}

#[test]
fn number_errors() {
    assert_eq!(kind_of("a = 012\n"), TomlErrorKind::NumberHasLeadingZero);
    assert_eq!(kind_of("a = 0o8\n"), TomlErrorKind::NumberHasInvalidBase);
    assert_eq!(kind_of("a = 12x\n"), TomlErrorKind::InvalidNumber);
    assert_eq!(kind_of("a = 1.\n"), TomlErrorKind::InvalidNumber);
    assert_eq!(kind_of("a = 1e\n"), TomlErrorKind::InvalidNumber);
    assert_eq!(kind_of("a = 123-01-01\n"), TomlErrorKind::DateTimeTooManyDigits);
}

#[test]
fn string_escapes() {
    let toml = Toml::parse("a = \"\\u00e9\\U0001F600\\b\\f\"\nb = ''\nc = \"\"\nd = '''\nx'''\n").unwrap();
    assert_eq!(toml.table().get_string("a").unwrap(), "é😀\u{8}\u{c}");
    assert_eq!(toml.table().get_string("b").unwrap(), "");
    assert_eq!(toml.table().get_string("c").unwrap(), "");
    assert_eq!(toml.table().get_string("d").unwrap(), "x");
    let toml = Toml::parse("a = \"\"\"x\"\"\"\"\"\n").unwrap();
    assert_eq!(toml.table().get_string("a").unwrap(), "x\"\"");
}

#[test]
fn string_errors() {
    assert_eq!(kind_of("a = \"\\q\"\n"), TomlErrorKind::UnknownEscapeSequence);
    assert_eq!(kind_of("a = \"\\uD800\"\n"), TomlErrorKind::UnknownUnicodeScalar);
    assert_eq!(kind_of("a = \"abc\n"), TomlErrorKind::UnclosedBasicString);
    assert_eq!(kind_of("a = 'abc\n"), TomlErrorKind::UnclosedLiteralString);
    assert_eq!(kind_of("a = '''abc"), TomlErrorKind::UnclosedLiteralString);
}

#[test]
fn structural_errors() {
    assert_eq!(kind_of("a 1\n"), TomlErrorKind::NoEqualsInAssignment);
    assert_eq!(kind_of("= 1\n"), TomlErrorKind::NoKeyInAssignment);
    assert_eq!(kind_of("a =\n"), TomlErrorKind::NoValueInAssignment);
    assert_eq!(kind_of("a = ?\n"), TomlErrorKind::UnrecognisedValue);
    assert_eq!(kind_of("a = [1 2]\n"), TomlErrorKind::NoCommaDelimeter);
    assert_eq!(kind_of("a = [1, 2"), TomlErrorKind::UnclosedArrayBracket);
    assert_eq!(kind_of("a = { b = 1"), TomlErrorKind::UnclosedInlineTableBracket);
    assert_eq!(kind_of("[a\n"), TomlErrorKind::UnclosedTableBracket);
    assert_eq!(kind_of("[[a]\n"), TomlErrorKind::UnclosedArrayOfTablesBracket);
}

#[test]
fn dates_and_times() {
    let toml = Toml::parse(
        "d = 1979-05-27\nt = 07:32:00.999999999999\ndt = 1979-05-27T07:32:00\nodt = 1979-05-27 07:32:00-07:30\nz = 1979-05-27T07:32:00Z\n",
    )
    .unwrap();
    let root = toml.table();
    assert_eq!(root.get("d").unwrap().as_date(), Some(TomlDate { year: 1979, month: 5, month_day: 27 }));
    assert_eq!(
        root.get("t").unwrap().as_time(),
        Some(TomlTime { hour: 7, minute: 32, second: 0, nanosecond: 999_999_999 })
    );
    let dt = root.get("dt").unwrap().as_datetime().unwrap();
    assert_eq!(dt.time.hour, 7);
    let odt = root.get("odt").unwrap().as_offset_datetime().unwrap();
    assert_eq!((odt.offset.hour, odt.offset.minute), (-7, 30));
    let z = root.get("z").unwrap().as_offset_datetime().unwrap();
    assert_eq!((z.offset.hour, z.offset.minute), (0, 0));
    assert_eq!(kind_of("a = 1979-5-27\n"), TomlErrorKind::DateMissingMonth);
    assert_eq!(kind_of("a = 07:3\n"), TomlErrorKind::TimeMissingMinute);
    assert_eq!(kind_of("a = 07:32\n"), TomlErrorKind::TimeMissingColon);
    assert_eq!(kind_of("a = 1979-05-27T07:32:00+07\n"), TomlErrorKind::OffsetMissingMinute);
    assert_eq!(kind_of("a = -07:32:00\n"), TomlErrorKind::InvalidNumber);
}

#[test]
fn string_parser_reports_span_end() {
    let mut text = Text::new("'abc' rest");
    let s = parse_string(&mut text).unwrap();
    assert_eq!(s.as_str(), "abc");
    assert_eq!(text.idx(), 5);
}

#[test]
fn comments_and_blank_input() {
    let toml = Toml::parse("# only a comment\n\n").unwrap();
    assert_eq!(toml.table().len(), 0);
    let toml = Toml::parse("a = 1 # trailing\n# next\nb = [ # c\n 1, # d\n 2, ]\n").unwrap();
    assert_eq!(toml.table().get_array("b").unwrap().len(), 2);
}

#[test]
fn parsing_is_deterministic() {
    let source = "a = 1\n[t]\nb = 'x'\nc = [1, {d = 2}]\n[[e]]\nf = 1979-05-27\n";
    let first = format!("{:?}", Toml::parse(source).unwrap().table());
    let second = format!("{:?}", Toml::parse(source).unwrap().table());
    assert_eq!(first, second);
    let bad = "a = 1\nb = \"\\q\"\n";
    let e1 = parse(bad).unwrap_err();
    let e2 = parse(bad).unwrap_err();
    assert_eq!((e1.kind, e1.src.start, e1.src.end), (e2.kind, e2.src.start, e2.src.end));
}

#[test]
fn reused_key_span_covers_second_declaration() {
    let source = "[a]\nb = 1\n[a]\nc = 2\n";
    let err = parse(source).unwrap_err();
    assert_eq!(err.kind, TomlErrorKind::ReusedKey);
    assert_eq!(err.src.start, 10);
    assert_eq!(err.src.try_as_str(), Some("[a]"));
    let source = "x = 1\nx = 2\n";
    let err = parse(source).unwrap_err();
    assert_eq!(err.src.try_as_str(), Some("x = 2"));
}

#[test]
fn error_context_reaches_three_lines() {
    let source = "l1 = 1\nl2 = 2\nl3 = 3\nl4 = 4\nbad = ?\nl6 = 6\nl7 = 7\nl8 = 8\nl9 = 9\n";
    let err = parse(source).unwrap_err();
    assert_eq!(err.kind, TomlErrorKind::UnrecognisedValue);
    let (start, end) = err.context_range();
    assert_eq!(&source[start..end], "l2 = 2\nl3 = 3\nl4 = 4\nbad = ?\nl6 = 6\nl7 = 7\nl8 = 8");
}

#[test]
fn header_on_array_of_tables_names_its_last_table() {
    let toml = Toml::parse("[[a]]\nx = 1\n[[a]]\nx = 2\n[a]\ny = 3\n").unwrap();
    let a = toml.table().get_array("a").unwrap();
    assert_eq!(a.len(), 2);
    assert!(a[0].as_table().unwrap().get("y").is_none());
    assert_eq!(a[1].as_table().unwrap().get_integer("y").unwrap(), 3);
}

#[test]
fn inline_tables_with_dotted_keys() {
    let toml = Toml::parse("p = { a.b = 1, a.c = 'x', d = [1, { e = true }] }\n").unwrap();
    let p = toml.table().get_table("p").unwrap();
    let a = p.get_table("a").unwrap();
    assert_eq!(a.get_integer("b").unwrap(), 1);
    assert_eq!(a.get_string("c").unwrap(), "x");
    let d = p.get_array("d").unwrap();
    assert_eq!(d[1].as_table().unwrap().get_boolean("e").unwrap(), true);
    assert_eq!(kind_of("p = { a = 1, a = 2 }\n"), TomlErrorKind::ReusedKey);
    assert_eq!(kind_of("p = { a = 1, }\n"), TomlErrorKind::NoKeyInAssignment);
}

#[test]
fn quoted_and_escaped_keys() {
    let toml = Toml::parse("\"a\\tb\" = 1\n\"\" = 2\n").unwrap();
    assert_eq!(toml.table().get_integer("a\tb").unwrap(), 1);
    assert_eq!(toml.table().get_integer("").unwrap(), 2);
}

#[test]
fn multiline_strings_trim_first_newline() {
    let toml = Toml::parse("a = \"\"\"\r\nline\"\"\"\nb = '''\n\nx'''\n").unwrap();
    assert_eq!(toml.table().get_string("a").unwrap(), "line");
    assert_eq!(toml.table().get_string("b").unwrap(), "\nx");
}

#[test]
fn empty_document() {
    let toml = Toml::parse("").unwrap();
    assert_eq!(toml.table().len(), 0);
    assert_eq!(toml.source(), "");
}

#[test]
fn typed_getter_errors() {
    let toml = Toml::parse("a = 1\n").unwrap();
    assert!(matches!(toml.table().get_string("a"), Err(TomlGetError::TypeMismatch(_, TomlValueType::Integer))));
    assert!(matches!(toml.table().get_integer("b"), Err(TomlGetError::InvalidKey)));
}

#[test]
fn conversions() {
    let toml = Toml::parse("a = [1, 2, 3]\nb = 'hi'\nc = true\n").unwrap();
    let root = toml.table();
    let a: Vec<i64> = Vec::from_toml(root.get("a")).unwrap();
    assert_eq!(a, vec![1, 2, 3]);
    let b: &str = root.get("b").toml_try_into().unwrap();
    assert_eq!(b, "hi");
    let c: Option<bool> = Option::from_toml(root.get("c")).unwrap();
    assert_eq!(c, Some(true));
    let missing: Option<bool> = Option::from_toml(root.get("zz")).unwrap();
    assert_eq!(missing, None);
    let err = bool::from_toml(root.get("zz")).unwrap_err().add_key_context("zz");
    assert!(matches!(err, FromTomlError::InvalidKey("zz")));
    assert!(matches!(i64::from_toml(root.get("b")), Err(FromTomlError::TypeMismatch(_, _))));
}

#[test]
fn empty_span_is_empty_text() {
    let source = "ab";
    let empty = Span { start: 1, end: 0, source };
    assert_eq!(empty.try_as_str(), Some(""));
    assert_eq!(empty.len(), 0);
    assert!(empty.is_empty());
    let whole = Span { start: 0, end: 1, source };
    assert_eq!(whole.try_as_str(), Some("ab"));
    assert_eq!(whole.len(), 2);
    assert!(!whole.is_empty());
    assert_eq!(Span { start: 0, end: 2, source }.try_as_str(), None);
}

#[test]
fn owned_strings_and_coercion() {
    let toml = Toml::parse("s = 'text'\nt = 'True'\nf = \"false\"\ni = 1\nz = 0\nn = 2\nx = 1.0\n").unwrap();
    let root = toml.table();
    let owned: String = String::from_toml(root.get("s")).unwrap();
    assert_eq!(owned, "text");
    assert!(matches!(String::from_toml(root.get("i")), Err(FromTomlError::TypeMismatch(_, TomlValueType::String))));
    assert_eq!(root.get("t").unwrap().coerce_bool(), Some(true));
    assert_eq!(root.get("f").unwrap().coerce_bool(), Some(false));
    assert_eq!(root.get("i").unwrap().coerce_bool(), Some(true));
    assert_eq!(root.get("z").unwrap().coerce_bool(), Some(false));
    assert_eq!(root.get("n").unwrap().coerce_bool(), None);
    assert_eq!(root.get("s").unwrap().coerce_bool(), None);
    assert_eq!(root.get("x").unwrap().coerce_bool(), None);
}

#[test]
fn basic_strings_without_escapes_borrow_the_input() {
    let mut text = Text::new("\"plain\" rest");
    let s = parse_basic_string(&mut text).unwrap();
    assert!(matches!(s, CowSpan::Raw(_)));
    assert_eq!(s.as_str(), "plain");
    let mut text = Text::new("\"a\\tb\"");
    let s = parse_basic_string(&mut text).unwrap();
    assert!(matches!(s, CowSpan::Modified(_, _)));
    assert_eq!(s.as_str(), "a\tb");
}

#[test]
fn error_spans_start_at_the_offending_element() {
    let err = parse("a = \"\"\"never closed").unwrap_err();
    assert_eq!(err.kind, TomlErrorKind::UnclosedBasicString);
    assert_eq!(err.src.start, 4);
    let err = parse("a = ?\n").unwrap_err();
    assert_eq!(err.kind, TomlErrorKind::UnrecognisedValue);
    assert_eq!(err.src.start, 4);
    let err = parse("x = 1\n= 2\n").unwrap_err();
    assert_eq!(err.kind, TomlErrorKind::NoKeyInAssignment);
    assert_eq!(err.src.start, 6);
    let err = parse("a = { x = 1 }\n[a]\n").unwrap_err();
    assert_eq!((err.kind, err.src.start), (TomlErrorKind::ReusedKey, 14));
    let err = parse("a = [1]\n[[a]]\n").unwrap_err();
    assert_eq!((err.kind, err.src.start), (TomlErrorKind::ReusedKey, 8));
}

#[test]
fn keys_compare_and_hash_by_text() {
    let source = "abc";
    let raw = CowSpan::Raw(Span { start: 0, end: 2, source });
    let owned = CowSpan::Modified(Span { start: 0, end: 2, source }, b"abc".to_vec());
    let other = CowSpan::Modified(Span { start: 0, end: 2, source }, b"abd".to_vec());
    assert!(raw == owned);
    assert!(raw != other);
    let digest = |k: &CowSpan<'_>| {
        let mut h = DefaultHasher::new();
        k.hash(&mut h);
        h.finish()
    };
    assert_eq!(digest(&raw), digest(&owned));
}

#[test]
fn empty_and_escaped_basic_strings() {
    let mut text = Text::new("\"\" x");
    let s = parse_basic_string(&mut text).unwrap();
    assert!(matches!(s, CowSpan::Raw(sp) if sp.start == 1));
    assert_eq!(s.as_str(), "");
    assert_eq!(text.idx(), 2);
    let mut text = Text::new("\"normality 100\" x");
    let s = parse_basic_string(&mut text).unwrap();
    assert!(matches!(s, CowSpan::Raw(sp) if sp.start == 1));
    assert_eq!(text.idx(), 15);
    let mut text = Text::new(r#""\t\n\r\\""#);
    let s = parse_basic_string(&mut text).unwrap();
    assert!(matches!(s, CowSpan::Modified(_, _)));
    assert_eq!(s.as_str(), "\t\n\r\\");
    let mut text = Text::new("\"a\nb\"");
    assert_eq!(parse_basic_string(&mut text).unwrap_err().kind, TomlErrorKind::UnclosedBasicString);
}

#[test]
fn array_and_table_error_kinds() {
    assert_eq!(parse_value(&mut Text::new("[1 2]")).unwrap_err().kind, TomlErrorKind::NoCommaDelimeter);
    assert_eq!(parse_value(&mut Text::new("[1, 2")).unwrap_err().kind, TomlErrorKind::UnclosedArrayBracket);
    assert_eq!(parse_value(&mut Text::new("{a = 1")).unwrap_err().kind, TomlErrorKind::UnclosedInlineTableBracket);
    assert!(parse_value(&mut Text::new("{a = 1,}")).is_err());
    let e = parse_value(&mut Text::new("?")).unwrap_err();
    assert_eq!((e.kind, e.src.start, e.src.end), (TomlErrorKind::UnrecognisedValue, 0, 0));
    let e = parse("= 1").unwrap_err();
    assert_eq!((e.kind, e.src.start, e.src.end), (TomlErrorKind::NoKeyInAssignment, 0, 0));
    let e = parse("[a]\nb = 1\n[a]\nc = 2\n").unwrap_err();
    assert_eq!(e.src.try_as_str(), Some("[a]"));
}

#[test]
fn line_ending_backslash_before_form_feed() {
    let toml = Toml::parse("a = \"\"\"x\\\u{c}y\"\"\"\n").unwrap();
    assert_eq!(toml.table().get_string("a").unwrap(), "x\u{c}y");
}

#[test]
fn map_conversion() {
    let toml = Toml::parse("[m]\none = 1\ntwo = 2\n[bad]\nx = 'no'\n").unwrap();
    let m: std::collections::HashMap<&str, i64> = std::collections::HashMap::from_toml(toml.table().get("m")).unwrap();
    assert_eq!(m.len(), 2);
    assert_eq!(m["one"], 1);
    assert_eq!(m["two"], 2);
    let bad = std::collections::HashMap::<&str, i64>::from_toml(toml.table().get("bad"));
    assert!(matches!(bad, Err(FromTomlError::TypeMismatch(_, TomlValueType::Integer))));
    let wrong = std::collections::HashMap::<&str, i64>::from_toml(toml.table().get("m").and(root_value(&toml)));
    assert!(wrong.is_err());
}

fn root_value<'a>(toml: &'a Toml<'a>) -> Option<&'a boml::types::TomlValue<'a>> {
    toml.table().get("m").and_then(|t| t.as_table()).and_then(|t| t.get("one"))
}
