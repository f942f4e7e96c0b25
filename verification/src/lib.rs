//! A small verified language pipeline: a single-pass compiler that turns a
//! byte stream into a flat, bracket-resolved instruction sequence, and a tape
//! machine that executes such a sequence against a bounded tape of signed
//! byte cells with byte-stream input and output.

pub mod compiler;
pub mod vm;
