//! Declarative fake-data generation: a schema of fields, each either an
//! object of further fields or a utility (a fake first name, a fake last name,
//! or a reference to another field), is inspected into per-object dependency
//! orders and then generated field by field.

pub mod pointer;
pub mod inspect;
pub mod graph;
pub mod parse;
pub mod generate;
pub mod json;
pub mod utils;
pub mod laws;
