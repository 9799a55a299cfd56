//! A Brainfuck toolkit: a front-end that turns program text into a tree of
//! operations, a peephole optimizer, three tape memories, two interpreters
//! that are driven one step at a time, an x86-64 code generator, a model of
//! the processor on which generated code can be run, and the theorems that
//! say that all of them run the same program.

pub mod bf_memory;
pub mod executors;
pub mod options;
pub mod theorems;
