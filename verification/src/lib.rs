//! A parser for ABAP sources.
//!
//! The parser turns a source into a compact semantic tree. It reads the
//! concrete syntax tree of the ABAP grammar where that is sound, and falls back
//! to a line scanner for blocks that the grammar does not support, such as
//! `FORM`.
//!
//! The types of the nodes for programs and blocks:
//!
//! - `program`: the root
//! - `report`: a `REPORT` or `PROGRAM` declaration
//! - `class_definition`, `class_impl`: the parts of a class
//! - `interface`: an interface
//! - `method`: a method inside a class
//! - `form`: a `FORM` subroutine
//! - `function_module`: a function module
//! - `module`: a screen module
//!
//! Blocks hold nodes for their signatures and for the statements of their
//! bodies, so that a change of either shows in the tree.
//!
//! `text` has the operations on strings, `node` the semantic tree. `statement`
//! and `scanner` are the line scanner, `syntax` and `convert` the way through
//! the grammar, and `parser` chooses between the two. `plugin` is what a host
//! sees. The modules with `laws` in their names hold what is proved of all
//! sources.
pub mod case_laws;
pub mod choice_laws;
pub mod convert;
pub mod convert_laws;
pub mod grammar_laws;
pub mod id_laws;
pub mod line_laws;
pub mod node;
pub mod order_laws;
pub mod parser;
pub mod plugin;
pub mod scan_laws;
pub mod scanner;
pub mod statement;
pub mod statement_laws;
pub mod string_laws;
pub mod syntax;
pub mod text;
pub mod text_laws;
pub mod unique_laws;
