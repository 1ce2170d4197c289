use nametag::schema::expr::ExprU;
use nametag::schema::expr::ExprU::{FnU, KeywordU, ListU, NatU, StringU};
use nametag::schema::parse::{
    expr, func, identifier, indent, items, keyword, line_space0, list, number, parens, parse,
    sep_by1, separator, string, value, word_end, SchemaParseError,
};
use nom::bytes::complete::tag;
use nom::character::complete::alpha1;
use nom::error::ErrorKind;

fn comma(i: &str) -> Result<(&str, &str), &str> {
    tag::<&str, &str, (&str, ErrorKind)>(",")(i).map_err(|_| i)
}

fn letters(i: &str) -> Result<(&str, &str), &str> {
    alpha1::<&str, (&str, ErrorKind)>(i).map_err(|_| i)
}

fn nothing(i: &str) -> Result<(&str, &str), &str> {
    Ok((i, ""))
}

#[test]
fn parse_sep_by1() {
    assert!(sep_by1(comma, letters, "").is_err());
    assert_eq!(sep_by1(comma, letters, "a"), Ok(("", vec!["a"])));
    assert_eq!(
        sep_by1(comma, letters, "a,b,c123"),
        Ok(("123", vec!["a", "b", "c"]))
    );
}

#[test]
fn a_separated_list_ends_before_a_separator_without_a_value() {
    assert_eq!(sep_by1(comma, letters, "a,b,"), Ok((",", vec!["a", "b"])));
    assert_eq!(sep_by1(comma, letters, "a,,b"), Ok((",,b", vec!["a"])));
    assert_eq!(sep_by1(comma, letters, ",a"), Err(",a"));
}

#[test]
fn a_round_that_takes_nothing_fails_the_list() {
    assert_eq!(sep_by1(nothing, nothing, "abc"), Err("abc"));
    assert_eq!(sep_by1(nothing, letters, "ab"), Ok(("", vec!["ab"])));
    assert_eq!(sep_by1(comma, nothing, "a,b"), Ok(("a,b", vec![""])));
    assert_eq!(sep_by1(comma, nothing, ",,x"), Ok(("x", vec!["", "", ""])));
}

#[test]
fn list_elements_stand_between_commas() {
    assert_eq!(items("1 , 2 ]"), Ok(("]", vec![NatU(1), NatU(2)])));
    assert_eq!(items(" 1,2,"), Ok((",", vec![NatU(1), NatU(2)])));
    assert_eq!(items("]"), Err("]"));
    assert_eq!(value(" \n 7 \t]"), Ok(("]", NatU(7))));
    assert_eq!(value(" ?"), Err("?"));
    assert_eq!(separator(" , x"), Ok("x"));
    assert_eq!(separator(" x"), Err("x"));
}

#[test]
fn top_level() {
    let input = r#"schema "-" "_"
  [ category []
  ]"#;

    let expr = FnU {
        name: "schema".to_string(),
        args: vec![
            StringU("-".to_string()),
            StringU("_".to_string()),
            ListU(vec![FnU {
                name: "category".to_string(),
                args: vec![
                    StringU("Media".to_string()),
                    FnU {
                        name: "exactly".to_string(),
                        args: vec![NatU(1)],
                    },
                    ListU(vec![
                        StringU("art".to_string()),
                        KeywordU {
                            name: "photo".to_string(),
                            id: "ph".to_string(),
                        },
                        KeywordU {
                            name: "video".to_string(),
                            id: "v".to_string(),
                        },
                    ]),
                ],
            }]),
        ],
    };

    assert!(parse(input).is_ok());

    let full = r#"schema "-" "_"
  [ category "Media" (exactly 1) ["art", "photo"/"ph", "video"/"v"]
  ]"#;
    assert_eq!(Ok(expr), parse(full));
}

#[test]
fn parse_func() {
    let foo0 = FnU {
        name: "foo".to_string(),
        args: vec![NatU(0)],
    };

    let fool01 = FnU {
        name: "foo".to_string(),
        args: vec![ListU(vec![NatU(0), NatU(1)])],
    };

    let foo99l01 = FnU {
        name: "foo".to_string(),
        args: vec![NatU(99), ListU(vec![NatU(0), NatU(1)])],
    };

    assert_eq!(func("foo 0"), Ok(("", foo0.clone())));
    assert_eq!(func("foo\n  0"), Ok(("", foo0.clone())));
    assert_eq!(func("foo\n\t0"), Ok(("", foo0.clone())));
    assert_eq!(func("foo \n  0"), Ok(("", foo0.clone())));
    assert_eq!(func("foo \n  [ 0\n  , 1\n  ]"), Ok(("", fool01.clone())));
    assert_eq!(
        func("foo 99\n  [ 0\n  , 1\n  ]"),
        Ok(("", foo99l01.clone()))
    );
    assert!(func(r#"category "Media" (exactly 1) ["art", "photo"/"ph", "video"/"v"]"#).is_ok())
}

#[test]
fn parse_list() {
    assert_eq!(list("[]"), Ok(("", ListU(vec![]))));
    assert_eq!(list("[[]]"), Ok(("", ListU(vec![ListU(vec![])]))));
    assert_eq!(list("[0,1]"), Ok(("", ListU(vec![NatU(0), NatU(1)]))));
    assert_eq!(list("[0, 1]"), Ok(("", ListU(vec![NatU(0), NatU(1)]))));
    assert_eq!(list("[ 0 ]"), Ok(("", ListU(vec![NatU(0)]))));
    assert_eq!(list("[ ]"), Ok(("", ListU(vec![]))));
    assert_eq!(list("[\n\t]"), Ok(("", ListU(vec![]))));
    assert_eq!(list("[ 0\n\t]"), Ok(("", ListU(vec![NatU(0)]))));
    assert_eq!(list("[ 0\n, 1\n]"), Ok(("", ListU(vec![NatU(0), NatU(1)]))));
}

#[test]
fn parse_keyword() {
    assert_eq!(
        keyword(r#""abc"/"a""#),
        Ok((
            "",
            KeywordU {
                name: "abc".to_string(),
                id: "a".to_string()
            }
        ))
    );
}

#[test]
fn parse_line_space0() {
    assert_eq!(line_space0(""), Ok(("", "")));
    assert_eq!(line_space0(" x"), Ok(("x", "")));
    assert_eq!(line_space0("\n   \t x"), Ok(("x", "")));
}

#[test]
fn numbers_fit_in_one_byte() {
    assert_eq!(number("0"), Ok(("", 0)));
    assert_eq!(number("255,"), Ok((",", 255)));
    assert_eq!(number("007"), Ok(("", 7)));
    assert_eq!(number("256"), Err("256"));
    assert_eq!(number("1000"), Err("1000"));
    assert_eq!(number("x"), Err("x"));
    assert_eq!(number(""), Err(""));
}

#[test]
fn strings_run_to_the_next_quote() {
    assert_eq!(string(r#""a b" c"#), Ok((" c", "a b".to_string())));
    assert_eq!(string(r#""""#), Ok(("", "".to_string())));
    assert_eq!(string(r#""a\"b""#), Ok((r#"b""#, "a\\".to_string())));
    assert_eq!(string(r#""open"#), Err(""));
    assert_eq!(string("x"), Err("x"));
}

#[test]
fn a_keyword_needs_both_strings() {
    assert_eq!(keyword(r#""abc""#), Err(""));
    assert_eq!(keyword(r#""abc" "a""#), Err(r#" "a""#));
    assert_eq!(keyword(r#""abc"/a"#), Err("a"));
}

#[test]
fn identifiers_are_letters_and_hyphens() {
    assert_eq!(identifier("at-least 3"), Ok((" 3", "at-least".to_string())));
    assert_eq!(identifier("a--b-"), Ok(("", "a--b-".to_string())));
    assert_eq!(identifier("at_least"), Ok(("_least", "at".to_string())));
    assert_eq!(identifier("Abc1"), Ok(("1", "Abc".to_string())));
    assert_eq!(identifier("-a"), Err("-a"));
    assert_eq!(identifier(""), Err(""));
}

#[test]
fn indentation_is_two_spaces_or_a_tab() {
    assert_eq!(indent("  x"), Ok("x"));
    assert_eq!(indent("\tx"), Ok("x"));
    assert_eq!(indent("   x"), Ok(" x"));
    assert_eq!(indent(" x"), Err(" x"));
    assert_eq!(indent("x"), Err("x"));
}

#[test]
fn a_word_ends_at_space_end_or_closer() {
    assert_eq!(word_end(" x"), Ok("x"));
    assert_eq!(word_end(" \t x"), Ok("x"));
    assert_eq!(word_end("\n  x"), Ok("x"));
    assert_eq!(word_end(" \n\n\tx"), Ok("x"));
    assert_eq!(word_end(""), Ok(""));
    assert_eq!(word_end(")"), Ok(")"));
    assert_eq!(word_end("]"), Ok("]"));
    assert_eq!(word_end(",x"), Ok(",x"));
    assert_eq!(word_end("\nx"), Err("\nx"));
    assert_eq!(word_end(" \nx"), Ok("\nx"));
    assert_eq!(word_end("x"), Err("x"));
}

#[test]
fn round_brackets_hold_one_expression() {
    let exactly = FnU { name: "exactly".to_string(), args: vec![NatU(1)] };
    assert_eq!(parens("(exactly 1)"), Ok(("", exactly.clone())));
    assert_eq!(parens("(exactly 1 ) x"), Ok((" x", exactly.clone())));
    assert_eq!(parens("(exactly 1\n  )"), Ok(("", exactly.clone())));
    assert_eq!(parens("(exactly 1\n)"), Err("1\n)"));
    assert_eq!(parens("(7\n)"), Ok(("", NatU(7))));
    assert_eq!(parens("((7))"), Ok(("", NatU(7))));
    assert_eq!(parens("(foo)"), Ok(("", FnU { name: "foo".to_string(), args: vec![] })));
    assert_eq!(parens("( 7)"), Err(" 7)"));
    assert_eq!(parens("(7"), Err(""));
    assert_eq!(parens("7"), Err("7"));
}

#[test]
fn an_expression_is_the_first_form_that_reads() {
    assert_eq!(expr("12 x"), Ok((" x", NatU(12))));
    assert_eq!(expr(r#""a"/"b""#), Ok(("", KeywordU { name: "a".to_string(), id: "b".to_string() })));
    assert_eq!(expr(r#""a" "b""#), Ok((r#" "b""#, StringU("a".to_string()))));
    assert_eq!(expr("[1]"), Ok(("", ListU(vec![NatU(1)]))));
    assert_eq!(expr("?"), Err("?"));
    assert_eq!(expr("300"), Err("300"));
}

#[test]
fn calls_in_a_list_end_at_the_comma() {
    let foo = FnU { name: "foo".to_string(), args: vec![NatU(1)] };
    let bar = FnU { name: "bar".to_string(), args: vec![NatU(2)] };
    assert_eq!(list("[foo 1, bar 2]"), Ok(("", ListU(vec![foo, bar]))));
}

#[test]
fn a_document_is_one_call() {
    assert_eq!(parse("foo 1 2"), Ok(FnU { name: "foo".to_string(), args: vec![NatU(1), NatU(2)] }));
    assert_eq!(parse("12"), Err(SchemaParseError::MustStartWithSchemaConstructor));
    assert_eq!(parse(r#""a""#), Err(SchemaParseError::MustStartWithSchemaConstructor));
    assert_eq!(parse("[foo 1] x"), Err(SchemaParseError::MustStartWithSchemaConstructor));
    assert_eq!(parse("foo 1]"), Err(SchemaParseError::UnexpectedInput("]".to_string())));
    assert_eq!(parse("(foo 1) x"), Err(SchemaParseError::UnexpectedInput(" x".to_string())));
    assert_eq!(parse("foo 1\nbar"), Err(SchemaParseError::UnexpectedInput("1\nbar".to_string())));
    assert_eq!(parse("foo\n"), Err(SchemaParseError::UnexpectedInput("\n".to_string())));
    assert_eq!(parse(""), Err(SchemaParseError::UnexpectedInput("".to_string())));
    assert_eq!(parse("?"), Err(SchemaParseError::UnexpectedInput("?".to_string())));
}

#[test]
fn a_list_that_does_not_close_is_no_list() {
    assert_eq!(list("[1, 2"), Err(""));
    assert_eq!(list("[1 2]"), Err("2]"));
    assert_eq!(list("[1,]"), Err(",]"));
    assert_eq!(list("[,]"), Err(",]"));
    assert_eq!(list("1]"), Err("1]"));
}

#[test]
fn clones_are_equal() {
    let e: ExprU = ListU(vec![NatU(1), FnU { name: "f".to_string(), args: vec![StringU("x".to_string())] }]);
    assert_eq!(e.clone(), e);
}
