//! An optimizing middle end for a tape-machine language of eight
//! instructions.
//!
//! A source text is parsed into a syntax tree ([`parser`], [`ast`]), lowered
//! to an intermediate representation ([`ir`]) and rewritten by a fixed
//! sequence of passes ([`optimize`]).  The result can be interpreted
//! ([`eval`]) or written out as C or assembly text ([`c_emitter`],
//! [`x86_emitter`], [`riscv_emitter`]).
//!
//! Every function states what it returns over a mathematical model of its
//! arguments.  [`eval`] also defines what a program means, on an abstract
//! machine whose loops spend fuel, and [`preserve`] proves of each pass on
//! which programs it keeps that meaning.

pub mod ast;
pub mod c_emitter;
pub mod cells;
pub mod eval;
pub mod ir;
pub mod optimize;
pub mod parser;
pub mod preserve;
pub mod riscv_emitter;
pub mod text;
pub mod x86_emitter;
