//! Finds, in a collection of notes written with `[[wikilinks]]`, the places
//! where a note mentions the target of some link in plain text without
//! linking it.
//!
//! Texts are handled as their UTF-8 bytes: every offset is a byte offset and
//! every term is a byte string cut out of a text on character boundaries.

pub mod boundary;
pub mod corpus;
pub mod detect;
pub mod extract;
pub mod matcher;
pub mod term_set;
pub mod text;
