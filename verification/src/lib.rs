//! Checking, formatting and completing bibliographies written in BibTeX.
//!
//! The heart of the crate is the linter ([`linter`]), which checks the
//! fields, the entries and the whole of a parsed file ([`bibtex`]), and the
//! detection of misspelled field names and entry types ([`bibtex_spec`]) by
//! an automaton ([`automaton`], [`typo_automaton`]) that accepts the words
//! within one edit ([`edit_distance`]) of a word of a vocabulary.
//!
//! Around it stand the formatter ([`format`]), the database that completes
//! entries ([`bibdb`]), what it takes to fetch entries and documents
//! ([`setup`], [`arxiv_identifiers`]), and helpers on text ([`text`],
//! [`numbers`], [`sorting`], [`groups`], [`report`]).
//!
//! Every function states what it returns, and the statements are proved;
//! what is taken on trust of the parser ([`syntax_tree`]) and of a few other
//! outside functions is said where they are declared.

pub mod arxiv_identifiers;
pub mod author_format;
pub mod automaton;
pub mod bibdb;
pub mod bibtex;
pub mod bibtex_spec;
pub mod edit_distance;
pub mod format;
pub mod groups;
pub mod linter;
pub mod locations;
pub mod numbers;
pub mod report;
pub mod setup;
pub mod sorting;
pub mod syntax_tree;
pub mod text;
pub mod typo_automaton;
pub mod typo_proof;
