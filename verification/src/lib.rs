//! A reader for Notation3 documents and for RDF message logs.
//!
//! [`parser::parse_n3`] reads a document; [`grammar::n3`] says what it reads. A message log is a
//! text with a sequence of messages in it: [`parser::parse_rdf_message_log`] reads one, and
//! [`message_log::replay`] says what it reads. What holds of both is stated in the modules whose
//! names end with `laws` and in those that they build on.
pub mod abbreviations;
pub mod ast;
pub mod braces;
pub mod error;
pub mod grammar;
pub mod halting;
pub mod headway;
pub mod iri_laws;
pub mod joining;
pub mod labels;
pub mod lexer;
pub mod line_laws;
pub mod locality;
pub mod marking;
pub mod message_log;
pub mod moving;
pub mod owning;
pub mod parser;
pub mod prefixes;
pub mod queries;
pub mod reading_laws;
pub mod replay_laws;
pub mod rule_laws;
pub mod sentence_laws;
pub mod show;
pub mod show_laws;
pub mod spelling;
pub mod stream_laws;
pub mod term_laws;
pub mod text;
pub mod text_laws;
pub mod token;
pub mod token_laws;
pub mod view_laws;
pub mod writing;
