//! What holds of the back-ends: the theorems that relate them to each other.
//!
//! A run of a machine shows what it wrote, how much it read and why it
//! stopped. The theorems say that two machines show the same, and that runs
//! that have stopped have left the cursor on the same cell and the same
//! tape.
//!
//! - [`simulation`]: when two machines show the same, in general.
//! - [`equivalence`]: the interpreter of the text and the interpreter of
//!   the tree show the same and leave the same tape, and a run within the
//!   tape shows the same on any tape.
//! - [`neutral_move`]: a move by 0 changes nothing that a program shows or
//!   leaves.
//! - [`rewrites`] and [`optimizer_sound`]: the optimizer keeps what a
//!   program shows and leaves.
//! - [`recompiler_sound`]: on the model of the processor, generated code
//!   shows what the program shows, and leaves its tape when it returns.

pub mod equivalence;
pub mod neutral_move;
pub mod optimizer_sound;
pub mod recompiler_sound;
pub mod rewrites;
pub mod simulation;
