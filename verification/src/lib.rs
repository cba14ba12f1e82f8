//! Label resolution and canonicalization for bytecode instruction sequences.
//!
//! A function body arrives as an ordered sequence of instructions whose jump
//! targets are symbolic labels.  This library computes the position each label
//! definition denotes, finds the labels that are actually referenced, assigns
//! dense canonical ids in first-use order, rewrites every reference and
//! definition to the canonical id, and deletes definitions nothing references.
//! It also supports duplicating a block with every in-block label identity
//! replaced by a fresh one, so the copy cannot alias the original's control
//! flow.

pub mod fresh;
pub mod instr;
pub mod label;
pub mod relabel;
