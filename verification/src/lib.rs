//! A compiler from an indentation-based markup language to HTML.
//!
//! A template is scanned into a stream of structural events, the events are
//! folded into a document tree, the tree is expanded by resolving its
//! inclusion nodes, and the expanded tree is written out as HTML.
use vstd::prelude::*;

pub mod text;
pub mod error;
pub mod ast;
pub mod event;
pub mod grammar;
pub mod lexer;
pub mod builder;
pub mod html;
pub mod expand;
pub mod parser;
pub mod laws;
pub mod blank_lines;

pub use ast::{Ast, Node};
pub use error::{Error, ParseError, ParseErrorKind};
pub use event::{Event, TagPart};
pub use parser::{parse, PugParser};
