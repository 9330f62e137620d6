//! Schema-driven extraction of structured values from free text.
//!
//! The library holds the decision logic of a multi-layer extraction
//! cascade: the schema model, the proximity heuristic that pairs values
//! found in a text with the fields of a schema, the grammar generator
//! that constrains a language model to the schema's JSON shape, and the
//! text utilities that post-process model output.

pub mod schema;
pub mod text;
pub mod proximity;
pub mod gbnf;
pub mod cleanup;
pub mod gliner;
pub mod cascade;
pub mod prompts;
pub mod replies;
pub mod decoding;
