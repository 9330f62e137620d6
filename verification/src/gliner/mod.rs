//! The logic around the GLiNER span-extraction layer: the labels it is
//! asked for, what each span it returns is worth for the schema, and how
//! the best spans become the extracted object.

pub mod quotes;
pub mod context;
pub mod labels;
pub mod spans;
