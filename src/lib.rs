//! Toolchain core for the OpenFGA authorization-model language: a lexer and
//! parser that keep byte spans on every node, a semantic checker, and the
//! projection to the canonical `type_definitions` JSON shape.

pub mod model;
pub mod text;
pub mod checker;
pub mod json;
pub mod lexer;
pub mod parser;
pub mod source_map;
pub mod report;
pub mod editor;
