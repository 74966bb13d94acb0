//! An interpreter for a tape language of eight one-character instructions.
//!
//! Source text is tokenized ([`tokenizer`]) and parsed into a tree
//! ([`parser`]), and the tree is executed against a growable byte tape
//! ([`tape`], [`interpreter`]). Every function is verified against a
//! mathematical model: [`syntax`] defines what a source text parses to, and
//! [`semantics`] what a tree does.

pub mod interpreter;
pub mod parser;
pub mod semantics;
pub mod syntax;
pub mod tape;
pub mod tokenizer;
