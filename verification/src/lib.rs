//! An interpreter for Brainfuck, in three stages: a lexer that folds runs of
//! `+`/`-` and `<`/`>` into weighted operations, a resolver that links every
//! `[` to its `]`, and an engine that runs the operations one at a time over
//! a tape of bytes.
//!
//! Every function here is verified against a mathematical model: a program is
//! a sequence of [`symbols::Op`], a jump table a map between positions, and
//! the state of the engine a position, a cursor and a sequence of cells.
//!
//! The engine does no input or output of its own. A driver steps it and
//! serves the console for it; [`runner::run`] is such a driver over bytes in
//! memory.

pub mod engine;
pub mod lexer;
pub mod resolver;
pub mod runner;
pub mod symbols;

pub use engine::{Action, Event, Fault, Machine, TAPE_LEN};
pub use lexer::{append_line, str_to_symbol};
pub use resolver::tunnels;
pub use runner::{run, End, Run};
pub use symbols::SYMBOLS;
