//! A verified model of a small intermediate representation for FHE circuits,
//! with its textual syntax: parsing, formatting and semantic checking.
//!
//! - [`program`]: programs, their model, their accessors, `new`, `check`,
//!   `parse` and `to_string`.
//! - [`instruction`]: instructions, the renaming of their identifiers, the
//!   check of one instruction and its text.
//! - [`plaintext`]: plaintext data and the text of the data of constants.
//! - [`identifiers`]: the table that numbers the names of a program.
//! - [`text`] and [`parse`]: scanning characters, and the grammar of the text
//!   with the readers that follow it.
//! - [`roundtrip`], [`parsed`], [`lines`] and [`checking`]: what holds of the
//!   text that is written and read, of the programs that are read, of the
//!   line numbers of errors, and of programs that pass the check.
//! - [`built`]: what the accessors give back of a program built by `new`, and
//!   how the check, the data and the text of a program relate to its parts.

pub mod text;
pub mod identifiers;
pub mod instruction;
pub mod plaintext;
pub mod program;
pub mod parse;
pub mod roundtrip;
pub mod parsed;
pub mod lines;
pub mod checking;
pub mod built;

