//! An interpreter for a minimal register-machine language.
//!
//! Programs are lines of text: each line may define a `[label]` and holds one
//! of five instructions — `INCREMENT <reg>`, `DECREMENT <reg>`,
//! `IF <reg> ... GOTO <label>`, `GOTO <label>`, `STOP`. Registers hold
//! non-negative integers; an input register is `X<n>`, the single output
//! register is `Y`, a scratch register is `Z<n>`.
//!
//! The [`parser::Parser`] turns source lines into instructions and a label
//! table, the [`machine_state::MachineState`] executes them, and the
//! [`jump_list::JumpList`] is a label-resolving instruction sequence that
//! back-patches forward jump references in a single left-to-right pass.

pub mod jump_list;
pub mod machine_state;
pub mod parser;
pub mod primitives;
pub mod tables;

pub use machine_state::interpret;
pub use machine_state::MachineState;
pub use parser::Parser;
pub use primitives::Error;
pub use primitives::Instruction;
pub use primitives::Label;
pub use primitives::Register;
pub use primitives::Unsigned;
