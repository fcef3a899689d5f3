//! Dense strided tensors over an arbitrary element type.
//!
//! The library keeps every shape, stride, index and broadcasting decision in
//! verified code; the arithmetic on elements is supplied by the caller as a
//! closure, so the same layout logic serves any numeric element type.

pub mod error;
pub mod layout;
pub mod tensor;
pub mod graph;
pub mod text;
