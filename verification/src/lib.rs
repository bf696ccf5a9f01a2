//! A small tape machine for an eight-symbol language.
//!
//! Source bytes are read into symbols ([`opcode`]), symbols are compiled into
//! run-length folded instructions with resolved jump targets ([`ir`]), and the
//! instructions are executed on a growable tape of bytes ([`interpreter`]).
//! Every stage is stated over a mathematical model and proved against it:
//! [`loops`] holds the model of matching loop ends to loop starts,
//! [`machine`] the model of a machine and of its steps.

pub mod error;
pub mod interpreter;
pub mod ir;
pub mod loops;
pub mod machine;
pub mod opcode;

pub use error::Error;
pub use interpreter::Interpreter;
pub use machine::Status;
pub use ir::{Code, IR};
pub use opcode::Opcode;
