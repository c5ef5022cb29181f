//! Compiles a quantized computation graph into the plan of an arithmetic circuit:
//! execution buckets, fused polynomial gates, shared lookup tables, column counts
//! and the order in which regions are laid out.

pub mod circuit;
pub mod graph;
pub mod tensor;
