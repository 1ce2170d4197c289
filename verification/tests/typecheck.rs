use nametag::schema::expr::ExprU::{FnU, KeywordU, ListU, NatU, StringU};
use nametag::schema::parse::{parse, SchemaParseError};
use nametag::schema::typecheck::ExprT::{CategoryT, KeywordT, ListT, NatT, RequirementT, StringT};
use nametag::schema::typecheck::SchemaTypeCheckError::{
    ExpectedTopLevelSchema, HeterogeneousListIsNotCoercable, TypeMismatch, UnknownFunction,
};
use nametag::schema::typecheck::{type_of, typecheck, typecheck_, unify_list, Type};
use nametag::schema::{Category, Keyword, Requirement, Schema};

fn kw(name: &str, id: &str) -> Keyword {
    Keyword { name: name.to_string(), id: id.to_string() }
}

fn list_of(t: Type) -> Type {
    Type::List(Box::new(t))
}

#[test]
fn test_typecheck() {
    assert_eq!(
        typecheck_(ListU(vec![
            StringU("a".to_string()),
            KeywordU {
                name: "boo".to_string(),
                id: "b".to_string()
            }
        ])),
        Ok(ListT(vec![
            KeywordT(Keyword {
                name: "a".to_string(),
                id: "a".to_string()
            }),
            KeywordT(Keyword {
                name: "boo".to_string(),
                id: "b".to_string()
            })
        ]))
    );
}

#[test]
fn strings_alone_stay_strings() {
    assert_eq!(
        typecheck_(ListU(vec![StringU("a".to_string()), StringU("b".to_string())])),
        Ok(ListT(vec![StringT("a".to_string()), StringT("b".to_string())]))
    );
}

#[test]
fn strings_become_keywords_where_keywords_are_asked_for() {
    let source = r#"category "C" (exactly 1) ["a", "b"/"bb"]"#;
    assert_eq!(
        typecheck_(parse(source).unwrap()),
        Ok(CategoryT(Category {
            name: "C".to_string(),
            requirement: Requirement::Exactly(1),
            keywords: vec![kw("a", "a"), kw("b", "bb")],
        }))
    );
}

#[test]
fn keywords_alone_are_not_touched() {
    let items = vec![KeywordT(kw("a", "x")), KeywordT(kw("b", "y"))];
    let same = vec![KeywordT(kw("a", "x")), KeywordT(kw("b", "y"))];
    assert_eq!(unify_list(items), Ok(same));
}

#[test]
fn unifying_twice_changes_nothing() {
    let items = vec![StringT("a".to_string()), KeywordT(kw("b", "y"))];
    let once = unify_list(items).unwrap();
    let expected = vec![KeywordT(kw("a", "a")), KeywordT(kw("b", "y"))];
    assert_eq!(once, expected);
    assert_eq!(unify_list(once), Ok(expected));
}

#[test]
fn numbers_and_strings_do_not_mix() {
    assert_eq!(
        typecheck_(ListU(vec![NatU(0), StringU("a".to_string())])),
        Err(HeterogeneousListIsNotCoercable(vec![Type::Nat, Type::String]))
    );
    assert_eq!(
        typecheck_(ListU(vec![
            StringU("a".to_string()),
            KeywordU { name: "b".to_string(), id: "b".to_string() },
            NatU(0),
            StringU("c".to_string()),
        ])),
        Err(HeterogeneousListIsNotCoercable(vec![Type::String, Type::Keyword, Type::Nat]))
    );
}

#[test]
fn an_unknown_function_is_reported_by_name() {
    assert_eq!(typecheck(parse("foo 1 2").unwrap()), Err(UnknownFunction("foo".to_string())));
    assert_eq!(
        typecheck_(FnU { name: "foo".to_string(), args: vec![NatU(1), NatU(2)] }),
        Err(UnknownFunction("foo".to_string()))
    );
}

#[test]
fn requirements_take_one_number() {
    assert_eq!(typecheck_(parse("exactly 1").unwrap()), Ok(RequirementT(Requirement::Exactly(1))));
    assert_eq!(parse("at_least 0"), Err(SchemaParseError::UnexpectedInput("_least 0".to_string())));
    assert_eq!(
        typecheck_(FnU { name: "at_least".to_string(), args: vec![NatU(2)] }),
        Ok(RequirementT(Requirement::AtLeast(2)))
    );
    assert_eq!(
        typecheck_(FnU { name: "at_most".to_string(), args: vec![NatU(255)] }),
        Ok(RequirementT(Requirement::AtMost(255)))
    );
    assert_eq!(
        typecheck_(parse(r#"exactly "1""#).unwrap()),
        Err(TypeMismatch { expected: Type::Nat, got: Type::String })
    );
    assert_eq!(
        typecheck_(parse("exactly").unwrap()),
        Err(TypeMismatch { expected: Type::Nat, got: Type::Hole })
    );
    assert_eq!(
        typecheck_(parse("exactly 1 [2]").unwrap()),
        Err(TypeMismatch { expected: Type::Hole, got: list_of(Type::Nat) })
    );
}

#[test]
fn a_category_takes_a_name_a_requirement_and_keywords() {
    assert_eq!(
        typecheck_(parse(r#"category "C" (at-most 1) []"#).unwrap()),
        Err(UnknownFunction("at-most".to_string()))
    );
    assert_eq!(
        typecheck_(parse(r#"category "C" (exactly 1) []"#).unwrap()),
        Ok(CategoryT(Category {
            name: "C".to_string(),
            requirement: Requirement::Exactly(1),
            keywords: vec![],
        }))
    );
    assert_eq!(
        typecheck_(parse(r#"category "C" (exactly 1) [1, 2]"#).unwrap()),
        Err(TypeMismatch { expected: list_of(Type::Keyword), got: list_of(Type::Nat) })
    );
    assert_eq!(
        typecheck_(parse(r#"category "C" (exactly 1) ["a"]"#).unwrap()),
        Err(TypeMismatch { expected: list_of(Type::Keyword), got: list_of(Type::String) })
    );
    assert_eq!(
        typecheck_(parse(r#"category "C" 1 []"#).unwrap()),
        Err(TypeMismatch { expected: Type::Requirement, got: Type::Nat })
    );
    assert_eq!(
        typecheck_(parse(r#"category 1 (exactly 1) []"#).unwrap()),
        Err(TypeMismatch { expected: Type::String, got: Type::Nat })
    );
    assert_eq!(
        typecheck_(parse(r#"category "C" (exactly 1)"#).unwrap()),
        Err(TypeMismatch { expected: list_of(Type::Keyword), got: Type::Hole })
    );
    assert_eq!(
        typecheck_(parse(r#"category "C" (exactly 1) [0, "a"]"#).unwrap()),
        Err(HeterogeneousListIsNotCoercable(vec![Type::Nat, Type::String]))
    );
}

#[test]
fn a_schema_is_read_from_its_source() {
    let source = r#"schema "-" "_"
  [ category "Medium" (exactly 1) ["art"/"art", "photo"/"photo", "ai"/"ai", "other"/"other"]
  , category "Subject" (at-least 0) ["plants"/"plants", "animals"/"animals"]
  ]"#;
    assert_eq!(typecheck(parse(source).unwrap()), Err(UnknownFunction("at-least".to_string())));
    let source = r#"schema "-" "_"
  [ category "Medium" (exactly 1) ["art"/"art", "photo"/"ph"]
  , category "Subject" (exactly 0) ["plants"/"plants", "animals"/"animals"]
  ]"#;
    assert_eq!(
        typecheck(parse(source).unwrap()),
        Ok(Schema {
            delim: "-".to_string(),
            empty: "_".to_string(),
            categories: vec![
                Category {
                    name: "Medium".to_string(),
                    requirement: Requirement::Exactly(1),
                    keywords: vec![kw("art", "art"), kw("photo", "ph")],
                },
                Category {
                    name: "Subject".to_string(),
                    requirement: Requirement::Exactly(0),
                    keywords: vec![kw("plants", "plants"), kw("animals", "animals")],
                },
            ],
        })
    );
}

#[test]
fn only_a_schema_stands_at_the_top() {
    assert_eq!(typecheck(parse("exactly 1").unwrap()), Err(ExpectedTopLevelSchema));
    assert_eq!(typecheck(NatU(1)), Err(ExpectedTopLevelSchema));
    assert_eq!(
        typecheck(parse(r#"schema "-" "_" []"#).unwrap()),
        Ok(Schema { delim: "-".to_string(), empty: "_".to_string(), categories: vec![] })
    );
    assert_eq!(
        typecheck(parse(r#"schema "-" "_" [exactly 1]"#).unwrap()),
        Err(TypeMismatch { expected: list_of(Type::Category), got: list_of(Type::Requirement) })
    );
}

#[test]
fn a_list_has_the_type_of_its_first_element() {
    assert_eq!(type_of(&ListT(vec![])), list_of(Type::Hole));
    assert_eq!(type_of(&ListT(vec![NatT(1)])), list_of(Type::Nat));
    assert_eq!(type_of(&ListT(vec![ListT(vec![])])), list_of(list_of(Type::Hole)));
    assert_eq!(type_of(&StringT("a".to_string())), Type::String);
    assert_eq!(type_of(&KeywordT(kw("a", "a"))), Type::Keyword);
}

#[test]
fn types_and_requirements_have_words() {
    assert_eq!(Type::String.to_string(), "string");
    assert_eq!(Type::Nat.to_string(), "nat");
    assert_eq!(Type::Keyword.to_string(), "keyword");
    assert_eq!(list_of(Type::Nat).to_string(), "list");
    assert_eq!(Type::Schema.to_string(), "schema");
    assert_eq!(Type::Category.to_string(), "category");
    assert_eq!(Type::Requirement.to_string(), "requirement");
    assert_eq!(Type::Hole.to_string(), "unknown");
    assert_eq!(Requirement::Exactly(1).to_string(), "exactly");
    assert_eq!(Requirement::AtLeast(1).to_string(), "at least");
    assert_eq!(Requirement::AtMost(1).to_string(), "at most");
    assert_eq!(list_of(Type::Nat).clone(), list_of(Type::Nat));
}

#[test]
fn the_first_error_from_the_left_is_reported() {
    assert_eq!(
        typecheck_(parse(r#"category 1 (foo) [0, "a"]"#).unwrap()),
        Err(TypeMismatch { expected: Type::String, got: Type::Nat })
    );
    assert_eq!(
        typecheck_(parse(r#"category "C" (foo) [0, "a"]"#).unwrap()),
        Err(UnknownFunction("foo".to_string()))
    );
    assert_eq!(
        typecheck_(ListU(vec![
            ListU(vec![NatU(0), StringU("a".to_string())]),
            FnU { name: "foo".to_string(), args: vec![] },
        ])),
        Err(HeterogeneousListIsNotCoercable(vec![Type::Nat, Type::String]))
    );
    assert_eq!(
        typecheck_(ListU(vec![ListU(vec![]), ListU(vec![NatU(1)])])),
        Err(HeterogeneousListIsNotCoercable(vec![list_of(Type::Hole), list_of(Type::Nat)]))
    );
}
