//! A compiler and a bounded interpreter for the eight-instruction tape language.

pub mod compiler;
pub mod errors;
pub mod laws;
pub mod machine;
pub mod tape;

pub use compiler::{parse_bftext, Op};
pub use errors::error_description;
pub use machine::{Action, BFBox, BfProgramm};
pub use tape::Tape;
