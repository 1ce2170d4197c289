use nametag::filename::{selection_to_filename, EncodeError};
use nametag::schema::{Category, FilenameParseError, Keyword, Requirement, Schema};
use nametag::selection::{State, UiCategory};

fn keyword(id: &str) -> Keyword {
    Keyword { name: id.to_string(), id: id.to_string() }
}

fn media_schema() -> Schema {
    Schema {
        delim: "-".to_string(),
        empty: "_".to_string(),
        categories: vec![
            Category {
                name: "Medium".to_string(),
                requirement: Requirement::Exactly(1),
                keywords: vec![keyword("art"), keyword("photo"), keyword("ai"), keyword("other")],
            },
            Category {
                name: "Subject".to_string(),
                requirement: Requirement::AtLeast(0),
                keywords: vec![keyword("plants"), keyword("animals"), keyword("people")],
            },
        ],
    }
}

fn selection(salt: &str, medium: [bool; 4], subject: [bool; 3]) -> State {
    let flags = |ids: &[&str], on: &[bool]| -> Vec<(String, bool)> {
        ids.iter().zip(on.iter()).map(|(id, b)| (id.to_string(), *b)).collect()
    };
    State {
        salt: salt.to_string(),
        categories: vec![
            UiCategory {
                name: "Medium".to_string(),
                values: flags(&["art", "photo", "ai", "other"], &medium),
            },
            UiCategory {
                name: "Subject".to_string(),
                values: flags(&["plants", "animals", "people"], &subject),
            },
        ],
    }
}

#[test]
fn encodes_the_selected_ids_in_order() {
    let schema = media_schema();
    let state = selection("xyz", [true, false, false, false], [true, true, false]);
    assert_eq!(selection_to_filename(&schema, &state), Ok("xyz-art-plants-animals".to_string()));
}

#[test]
fn decodes_what_it_encoded() {
    let schema = media_schema();
    let state = selection("xyz", [true, false, false, false], [true, true, false]);
    let name = selection_to_filename(&schema, &state).unwrap();
    assert_eq!(schema.parse(&name), Ok(state));
}

#[test]
fn a_category_without_tags_gives_the_placeholder() {
    let schema = media_schema();
    let state = selection("xyz", [false, true, false, false], [false, false, false]);
    assert_eq!(selection_to_filename(&schema, &state), Ok("xyz-photo-_".to_string()));
    assert_eq!(schema.parse("xyz-photo-_"), Ok(state));
}

#[test]
fn a_field_behind_the_last_category_is_unexpected() {
    let schema = media_schema();
    assert_eq!(
        schema.parse("xyz-art-plants-bogus"),
        Err(FilenameParseError::UnexpectedTag("bogus".to_string()))
    );
}

#[test]
fn exactly_one_rejects_none_and_two() {
    let schema = media_schema();
    let none = selection("xyz", [false, false, false, false], [true, false, false]);
    let two = selection("xyz", [true, true, false, false], [true, false, false]);
    let one = selection("xyz", [false, false, true, false], [true, false, false]);
    assert_eq!(
        selection_to_filename(&schema, &none),
        Err(EncodeError::RequirementNotMet("Medium".to_string()))
    );
    assert_eq!(
        selection_to_filename(&schema, &two),
        Err(EncodeError::RequirementNotMet("Medium".to_string()))
    );
    assert_eq!(selection_to_filename(&schema, &one), Ok("xyz-ai-plants".to_string()));
}

#[test]
fn decoding_does_not_count_keywords() {
    let schema = media_schema();
    let none = selection("xyz", [false, false, false, false], [true, false, false]);
    let two = selection("xyz", [true, true, false, false], [false, false, false]);
    assert_eq!(schema.parse("xyz-_-plants"), Ok(none));
    assert_eq!(schema.parse("xyz-art-photo-_"), Ok(two));
    assert_eq!(schema.parse("xyz-art-photo"), Ok(two_without_placeholder()));
}

fn two_without_placeholder() -> State {
    selection("xyz", [true, true, false, false], [false, false, false])
}

#[test]
fn clones_hold_the_same_values() {
    let schema = media_schema();
    assert_eq!(schema.clone(), schema);
    let state = selection("xyz", [true, false, false, false], [true, true, false]);
    assert_eq!(state.clone(), state);
    assert_eq!(state.categories[1].clone(), state.categories[1]);
}

#[test]
fn an_empty_salt_and_repeated_delimiters_are_fields_too() {
    let schema = media_schema();
    let state = selection("", [true, false, false, false], [false, false, false]);
    assert_eq!(selection_to_filename(&schema, &state), Ok("-art-_".to_string()));
    assert_eq!(schema.parse("-art-_"), Ok(state));
    assert_eq!(
        schema.parse("xyz--art"),
        Err(FilenameParseError::UnexpectedTag("".to_string()))
    );
    assert_eq!(schema.parse("xyz"), Ok(selection("xyz", [false; 4], [false; 3])));
    assert_eq!(schema.parse(""), Ok(selection("", [false; 4], [false; 3])));
}

#[test]
fn a_placeholder_is_taken_alone() {
    let schema = media_schema();
    assert_eq!(
        schema.parse("xyz-_-art"),
        Err(FilenameParseError::UnexpectedTag("art".to_string()))
    );
    assert_eq!(
        schema.parse("xyz-_-_-_"),
        Err(FilenameParseError::UnexpectedTag("_".to_string()))
    );
    assert_eq!(schema.parse("xyz-_-_"), Ok(selection("xyz", [false; 4], [false; 3])));
    assert_eq!(
        schema.parse("xyz-other-art-people"),
        Ok(selection("xyz", [true, false, false, true], [false, false, true]))
    );
}
