//! A bytecode virtual machine for a small functional language with
//! algebraic data types, first-class function references and multi-module
//! programs.
//!
//! The crate has three parts. The linker (`program`) validates a set of raw
//! modules (`bc`) — dependency closure and cross-module ADT agreement —
//! assigns dense global indices to every module, function, datatype and
//! constructor, and rewrites symbolic references into direct indices; the
//! result is a function of the supplied modules alone. The interpreter
//! (`vm`) drives a stack of frames over the linked program, with per-frame
//! locals, registers and operand stack. All runtime values live in a single
//! arena (`heap`) that is periodically compacted by forwarding pointers
//! over the frames' roots: compaction preserves every root's structure and
//! keeps exactly the reachable cells.

pub mod bc;
pub mod context;
pub mod heap;
pub mod lex;
pub mod program;
pub mod seqs;
pub mod vm;
