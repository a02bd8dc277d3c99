pub mod layout;
pub mod storage;
pub mod tensor_impl;

pub use storage::Storage;
pub use tensor_impl::DType;
pub use tensor_impl::Tensor;
pub use tensor_impl::TensorView;
