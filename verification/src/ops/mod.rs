pub mod binary;
pub mod matmul;
pub mod unary;
