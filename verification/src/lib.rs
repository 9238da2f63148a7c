//! Verified core of a small GPU-oriented numeric stack: the shape algebra and
//! index maps of an N-dimensional tensor with NumPy broadcasting, the index
//! arithmetic of a state-vector quantum simulator, the planning of GPU
//! dispatches for a multilayer perceptron, and the integer side of energy and
//! clock measurement.
//!
//! Floating-point arithmetic and device or process I/O are supplied by the
//! caller: tensors are generic over their element type and take the element
//! operation as a closure.

pub mod energia;
pub mod fita;
pub mod forma;
pub mod leitura;

pub mod perfil;
pub mod plano;
pub mod porta;
pub mod qubit;
pub mod tensor;
