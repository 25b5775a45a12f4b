//! The typed results a lexical provider reports for a word, as plain values.
//!
//! Each response carries the word the provider resolved it for, so that a
//! caller can cross-check it against the word it asked about.

use vstd::prelude::*;

verus! {

/// The lexical attribute kinds a provider can be asked for.
#[derive(Debug, Clone, Copy, PartialEq, Eq, Structural)]
pub enum Details {
    Definitions,
    Synonyms,
    Antonyms,
    Examples,
}

/// One definition of a word, with its part of speech.
#[derive(Debug, Clone)]
pub struct Definition {
    pub definition: String,
    pub part_of_speech: String,
}

/// The definitions a provider resolved for a word.
#[derive(Debug, Clone)]
pub struct DefinitionResponse {
    pub word: String,
    pub definitions: Vec<Definition>,
}

/// The synonyms a provider resolved for a word.
#[derive(Debug, Clone)]
pub struct SynonymResponse {
    pub word: String,
    pub synonyms: Vec<String>,
}

/// The antonyms a provider resolved for a word.
#[derive(Debug, Clone)]
pub struct AntonymResponse {
    pub word: String,
    pub antonyms: Vec<String>,
}

/// The example sentences a provider resolved for a word.
#[derive(Debug, Clone)]
pub struct ExampleResponse {
    pub word: String,
    pub examples: Vec<String>,
}

/// Further details a provider can report for one sense of a word.
#[derive(Debug, Clone)]
pub struct WordDetails {
    pub definition: String,
    pub part_of_speech: String,
    pub derivation: Option<Vec<String>>,
    pub synonyms: Option<Vec<String>>,
    pub similar_to: Option<Vec<String>>,
    pub type_of: Option<Vec<String>>,
}

} // verus!
