//! Package metadata search: a word tokenizer, an index over package records
//! and the resolution of name, provides and description queries against it.

pub mod text;
pub mod table;
pub mod index;
pub mod query;
pub mod util;
