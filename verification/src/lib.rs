//! Canonical S-expression views of concrete syntax trees.
//!
//! A grammar-based parser hands this library a fully built syntax tree,
//! modelled here as plain data ([`tree::SynNode`]).  The traversal engine
//! walks that tree once with an explicit cursor and construction stack and
//! produces a structured [`sexp::SExp`] value; a pretty printer performs the
//! same walk and renders indented text instead.

pub mod cursor;
pub mod laws;
pub mod pretty;
pub mod sexp;
pub mod traverse;
pub mod tree;

pub use cursor::Cursor;
pub use pretty::dump_sexp;
pub use sexp::{SExp, SExpV};
pub use traverse::{construct_list, to_sexp};
pub use tree::SynNode;
