//! Static checks of programs in a small statically typed scripting language.
//!
//! A source text is stripped of its line comments and parsed into a
//! [`program::Program`]. Its names are then resolved, and the types of its expressions
//! inferred. The first of these to fail is the error of the text: its syntax, a name
//! that is declared where it is visible already, a name that is used without a
//! declaration, or types that cannot be made to agree.

pub mod text;
pub mod error;
pub mod program;
pub mod grammar_util;
pub mod erase_laws;
pub mod lexer;
pub mod syntax;
pub mod accept;
pub mod grammar;
pub mod agree;
pub mod scope;
pub mod type_graph;
pub mod shape;
pub mod scheme;
pub mod scoping;
pub mod type_system;
pub mod type_check;
pub mod typing;
pub mod typing_laws;
pub mod instance;
pub mod check;
