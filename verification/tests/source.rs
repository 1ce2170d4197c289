use nametag::schema::parse::{parse, SchemaParseError};
use nametag::schema::source::is_plain;
use nametag::schema::typecheck::typecheck;
use nametag::schema::{Category, Keyword, Requirement, Schema};

fn keyword(name: &str, id: &str) -> Keyword {
    Keyword { name: name.to_string(), id: id.to_string() }
}

fn category(name: &str, requirement: Requirement, keywords: Vec<Keyword>) -> Category {
    Category { name: name.to_string(), requirement, keywords }
}

fn schema(categories: Vec<Category>) -> Schema {
    Schema { delim: "-".to_string(), empty: "_".to_string(), categories }
}

#[test]
fn a_schema_is_written_on_one_line() {
    let s = schema(vec![
        category(
            "Medium",
            Requirement::Exactly(1),
            vec![keyword("art", "art"), keyword("photo", "ph")],
        ),
        category("Subject", Requirement::Exactly(0), vec![]),
        category("Year", Requirement::Exactly(255), vec![keyword("two thousand", "2k")]),
    ]);
    assert_eq!(
        s.to_source(),
        r#"schema "-" "_" [category "Medium" (exactly 1) ["art"/"art","photo"/"ph"],category "Subject" (exactly 0) [],category "Year" (exactly 255) ["two thousand"/"2k"]]"#
    );
    assert_eq!(schema(vec![]).to_source(), r#"schema "-" "_" []"#);
}

#[test]
fn a_written_schema_reads_back() {
    let s = schema(vec![
        category(
            "Medium",
            Requirement::Exactly(1),
            vec![keyword("art", "art"), keyword("photo", "ph")],
        ),
        category("Subject", Requirement::Exactly(0), vec![]),
        category("Ye ar, [x] (y)", Requirement::Exactly(107), vec![keyword("two\nthousand", "2k")]),
    ]);
    assert!(s.is_writable());
    assert_eq!(typecheck(parse(&s.to_source()).unwrap()), Ok(s));
    let none = schema(vec![]);
    assert!(none.is_writable());
    assert_eq!(typecheck(parse(&none.to_source()).unwrap()), Ok(none));
}

#[test]
fn numbers_are_written_without_leading_zeros() {
    for n in [0u8, 7, 9, 10, 42, 99, 100, 101, 110, 200, 255] {
        let s = schema(vec![category("C", Requirement::Exactly(n), vec![])]);
        let expected = format!(r#"schema "-" "_" [category "C" (exactly {n}) []]"#);
        assert_eq!(s.to_source(), expected);
        assert_eq!(typecheck(parse(&expected).unwrap()), Ok(s));
    }
}

#[test]
fn a_quote_in_a_string_cannot_be_written() {
    assert!(is_plain("abc"));
    assert!(is_plain(""));
    assert!(!is_plain("a\"c"));
    let s = schema(vec![category("C", Requirement::Exactly(1), vec![keyword("a\"b", "ab")])]);
    assert!(!s.is_writable());
    assert_ne!(parse(&s.to_source()).and_then(|e| Ok(typecheck(e))), Ok(Ok(s)));
}

#[test]
fn other_requirements_than_exactly_do_not_read_back() {
    let s = schema(vec![category("C", Requirement::AtLeast(2), vec![])]);
    assert!(!s.is_writable());
    assert_eq!(s.to_source(), r#"schema "-" "_" [category "C" (at_least 2) []]"#);
    assert!(matches!(parse(&s.to_source()), Err(SchemaParseError::UnexpectedInput(_))));
    let m = schema(vec![category("C", Requirement::AtMost(2), vec![])]);
    assert!(!m.is_writable());
    assert_eq!(m.to_source(), r#"schema "-" "_" [category "C" (at_most 2) []]"#);
}
