//! Backward pass (input gradient) of 2-D average pooling.
//!
//! Given the gradient flowing into the pooling layer's output, this library
//! computes the gradient with respect to the layer's input, honoring kernel
//! size, stride, padding and the `count_include_pad` boundary-counting policy.
//! Each input cell's gradient is obtained by a closed-form range query over
//! the output coordinates whose pooling window could have touched it, rather
//! than by reverse iteration over windows; the contracts equate that
//! closed-form computation with a full scan over every output cell.
//!
//! Elements are exact rational numbers, so every contract pins the computed
//! values exactly.

pub mod backward;
pub mod conserve;
pub mod kernel;
pub mod laws;
pub mod layout;
pub mod model;
pub mod params;
pub mod range;
pub mod rational;
pub mod tensor;
