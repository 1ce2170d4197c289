use nametag::filename::selection_to_filename;
use nametag::schema::{Category, Keyword, Requirement, Schema};
use nametag::selection::{State, UiCategory};
use nametag::text::split_fields;
use nametag::validity::is_separable;

fn keyword(id: &str) -> Keyword {
    Keyword { name: id.to_string(), id: id.to_string() }
}

fn category(name: &str, ids: &[&str]) -> Category {
    Category {
        name: name.to_string(),
        requirement: Requirement::AtLeast(0),
        keywords: ids.iter().map(|id| keyword(id)).collect(),
    }
}

fn schema(delim: &str, empty: &str, categories: Vec<Category>) -> Schema {
    Schema { delim: delim.to_string(), empty: empty.to_string(), categories }
}

fn entry(name: &str, flags: &[(&str, bool)]) -> UiCategory {
    UiCategory {
        name: name.to_string(),
        values: flags.iter().map(|(id, on)| (id.to_string(), *on)).collect(),
    }
}

#[test]
fn disallow_empty_tags() {
    let fine = schema("-", "_", vec![category("Medium", &["art", "photo"])]);
    assert!(fine.is_well_formed());
    let empty_id = schema("-", "_", vec![category("Medium", &["art", ""])]);
    assert!(!empty_id.is_well_formed());
    let mut empty_name = schema("-", "_", vec![category("Medium", &["art", "photo"])]);
    empty_name.categories[0].keywords[0].name = String::new();
    assert!(!empty_name.is_well_formed());
}

#[test]
fn a_schema_needs_a_delimiter_that_no_id_holds() {
    assert!(!schema("", "_", vec![]).is_well_formed());
    assert!(schema("-", "_", vec![]).is_well_formed());
    assert!(!schema("-", "_", vec![category("A", &["a-b"])]).is_well_formed());
    assert!(!schema("ab", "_", vec![category("A", &["xaby"])]).is_well_formed());
    assert!(schema("ab", "_", vec![category("A", &["xa"])]).is_well_formed());
}

#[test]
fn ids_differ_within_a_category_and_from_the_placeholder() {
    assert!(!schema("-", "_", vec![category("A", &["a", "b", "a"])]).is_well_formed());
    assert!(!schema("-", "_", vec![category("A", &["a", "_"])]).is_well_formed());
    assert!(schema("-", "_", vec![category("A", &["a"]), category("B", &["a"])]).is_well_formed());
}

#[test]
fn neighbours_that_share_an_id_are_ambiguous() {
    let shared = schema("-", "_", vec![category("A", &["a", "b"]), category("B", &["b", "c"])]);
    assert!(shared.is_well_formed());
    assert!(!shared.is_unambiguous());
    let apart = schema(
        "-",
        "_",
        vec![category("A", &["a"]), category("B", &["b"]), category("C", &["a"])],
    );
    assert!(apart.is_unambiguous());
    let state = State {
        salt: "s".to_string(),
        categories: vec![
            entry("A", &[("a", true), ("b", false)]),
            entry("B", &[("b", true), ("c", false)]),
        ],
    };
    let name = selection_to_filename(&shared, &state).unwrap();
    assert_eq!(name, "s-a-b");
    assert_ne!(shared.parse(&name), Ok(state));
}

#[test]
fn a_field_must_not_run_into_the_delimiter() {
    assert!(is_separable("abc", "-"));
    assert!(!is_separable("a-c", "-"));
    assert!(is_separable("", "-"));
    assert!(is_separable("b", "aa"));
    assert!(!is_separable("a", "aa"));
    assert!(is_separable("xa", "ab"));
    assert!(!is_separable("ab", "aba"));
    assert!(is_separable("xb", "ab"));
    assert!(!is_separable("abc", ""));
    assert!(is_separable("", ""));
    let ambiguous = schema("aa", "_", vec![category("A", &["a"])]);
    assert!(ambiguous.is_well_formed());
    assert!(!ambiguous.is_unambiguous());
    assert!(!schema("-", "a-b", vec![]).is_unambiguous());
}

#[test]
fn splitting_cuts_at_every_delimiter_from_the_left() {
    let fields = |input: &str, delim: &str| -> Vec<String> { split_fields(input, delim) };
    assert_eq!(fields("a-b-c", "-"), vec!["a", "b", "c"]);
    assert_eq!(fields("abc", "-"), vec!["abc"]);
    assert_eq!(fields("", "-"), vec![""]);
    assert_eq!(fields("-a-", "-"), vec!["", "a", ""]);
    assert_eq!(fields("a--b", "-"), vec!["a", "", "b"]);
    assert_eq!(fields("a--b", "--"), vec!["a", "b"]);
    assert_eq!(fields("aaax", "aa"), vec!["", "ax"]);
    assert_eq!(fields("héllo→wörld", "→"), vec!["héllo", "wörld"]);
    assert_eq!(fields("ab", ""), vec!["", "a", "b", ""]);
    assert_eq!(fields("a-b-c", "-"), "a-b-c".split("-").collect::<Vec<_>>());
    assert_eq!(fields("aaax", "aa"), "aaax".split("aa").collect::<Vec<_>>());
    assert_eq!(fields("ab", ""), "ab".split("").collect::<Vec<_>>());
}

#[test]
fn a_selection_fits_the_schema_it_was_made_for() {
    let s = schema("-", "_", vec![category("A", &["a", "b"])]);
    let fits = State { salt: "x".to_string(), categories: vec![entry("A", &[("a", true), ("b", false)])] };
    assert!(fits.fits(&s));
    let short = State { salt: "x".to_string(), categories: vec![entry("A", &[("a", true)])] };
    assert!(!short.fits(&s));
    let other = State { salt: "x".to_string(), categories: vec![entry("A", &[("b", true), ("a", false)])] };
    assert!(!other.fits(&s));
    let renamed = State { salt: "x".to_string(), categories: vec![entry("B", &[("a", true), ("b", false)])] };
    assert!(!renamed.fits(&s));
    let none = State { salt: "x".to_string(), categories: vec![] };
    assert!(!none.fits(&s));
    assert_eq!(selection_to_filename(&s, &none), Ok("x-_".to_string()));
}

#[test]
fn requirements_count_the_selected_keywords() {
    assert!(Requirement::Exactly(1).is_met(1));
    assert!(!Requirement::Exactly(1).is_met(0));
    assert!(!Requirement::Exactly(1).is_met(2));
    assert!(Requirement::AtLeast(2).is_met(2));
    assert!(Requirement::AtLeast(2).is_met(300));
    assert!(!Requirement::AtLeast(2).is_met(1));
    assert!(Requirement::AtMost(2).is_met(0));
    assert!(Requirement::AtMost(2).is_met(2));
    assert!(!Requirement::AtMost(2).is_met(3));
}
