//! A data-driven RISC-V assembler library.
//!
//! The pipeline has three stages: a spec loader ingests declarative
//! ISA-description documents into a [`model::RiscVSpec`]; a grammar parses
//! assembly text into an abstract syntax tree of [`ast::Node`]; and a binary
//! emitter walks the tree and encodes instructions into a flat byte image
//! through [`bits::BitRangeMap`].

pub mod ast;
pub mod bits;
pub mod doc;
pub mod emit;
pub mod grammar;
pub mod loader;
pub mod model;
pub mod text;
