//! Filename tagging schemas: a small configuration language that describes
//! categories of tags, a type checker that turns parsed text into a schema,
//! and a codec between tag selections and delimited filenames.

pub mod filename;
pub mod roundtrip;
pub mod schema;
pub mod selection;
pub mod text;
pub mod validity;
