//! A small compiler front end for arithmetic expressions.
//!
//! The pipeline has three stages, consumed in strict order:
//! a lexer that turns the input string into a token stream while
//! enforcing legal token adjacency with a finite-state machine,
//! a recursive-descent parser that builds a binary expression tree
//! honoring precedence and grouping, and a code generator that walks
//! the tree in post-order and emits one stack instruction per node.

pub mod node;
pub mod token;
