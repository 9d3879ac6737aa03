//! Lookup trees and their specialisation into straight-line x86-64 search code.
//!
//! An [`avl::AvlTree`] maps fixed-width keys to values. Once such a tree is
//! read-mostly it can be compiled: [`jit::compile`], [`jit_sse::compile_scalar`]
//! and [`jit_sse::compile_sse`] turn a tree into native code that performs the
//! tree's search with one block of compare-and-branch instructions per node,
//! and hand back the executable region together with the offset of the entry
//! point in it.
//!
//! What is proved of the compilers is stated in two steps. `program` gives the
//! listing of a tree and `listing` the bytes that a listing stands for; a
//! compiler returns exactly those bytes. `machine` gives a model of the
//! processor for the instructions used, and `laws` shows that the bytes of a
//! search tree, run on that model, return for every key what the search of
//! the tree finds.
//!
//! Two things are taken on trust: that dynasmrt's assembler does what
//! `assembler` says of it, and that the processor does what `machine` says of
//! it.

pub mod assembler;
pub mod avl;
pub mod codegen;
pub mod emitter;
pub mod jit;
pub mod jit_sse;
pub mod key;
pub mod laws;
pub mod linking;
pub mod listing;
pub mod machine;
pub mod program;
pub mod search;
pub mod simulation;
pub mod size;
pub mod targets;
pub mod trace;
