//! Generating test functions from fixture files, with the decisions verified:
//! reading the harness entries from the macro's tokens, deciding which tests
//! are ignored, choosing and naming the fixture files, and emitting the test
//! functions as tokens.

pub mod entry;
pub mod escape;
pub mod files;
pub mod generate;
pub mod harness;
pub mod ignore;
pub mod literal;
pub mod pattern;
pub mod text;
pub mod tokens;
