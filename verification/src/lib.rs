//! A small tensor runtime with reverse-mode automatic differentiation.
//!
//! A [`runtime::Runtime`] owns the pool of byte buffers, the computation
//! graph and the gradient slots. A [`tensor::Tensor`] is a small record: a
//! shaped, strided view onto one buffer of the pool, under an identifier
//! that the runtime issued. Views share buffers; what is written through
//! one view is read through every other view of the buffer.
//!
//! The elements of a tensor of 32-bit floating-point numbers are handled as
//! bit patterns. Arithmetic on them is delegated to a scalar unit that the
//! caller hands to the runtime, and every kernel is proved for whatever
//! that unit answers: the layout, the bounds, the order of the operations
//! and the flow of the gradients do not depend on it.
//!
//! Operators ([`ops`]) compute a new tensor and, when an operand tracks
//! gradients, record a node of the graph. [`autograd::backward`] walks the
//! graph from a root and accumulates gradients into the slots.
pub mod autograd;
pub mod error;
pub mod nn;
pub mod ops;
pub mod runtime;
pub mod scalar;
pub mod tensor;

pub use runtime::Runtime;
pub use tensor::Tensor;
