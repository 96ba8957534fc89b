//! A compiler for a small plain-text markup language.
//!
//! A [`Parser`] scans an in-memory document, consults registered
//! [`extensions::Extension`] grammar rules, and produces a sequence of
//! [`Block`] nodes; an [`Emitter`] renders those nodes into one textual
//! output format.

mod ast;
mod emitter;
pub mod extensions;
mod parser;
mod scanner;

pub use ast::Block;
pub use ast::BlockModel;
pub use ast::Element;
pub use ast::ElementModel;
pub use ast::ExtensionTag;
pub use ast::ParseError;
pub use emitter::Emitter;
pub use emitter::HtmlEmitter;
pub use emitter::TextEmitter;
pub use parser::Parser;
pub use parser::at_builtin_end_of_block;
pub use parser::parse_block;
pub use parser::parse_elements;
pub use parser::parse_elements_stopping;
pub use parser::parse_paragraph_block;
pub use parser::sees_end_of_block;
pub use parser::sees_prefix;
pub use parser::try_block_rules;
pub use parser::try_element_rules;
pub use scanner::Scanner;
