pub mod attention_rope;
pub mod kv_cache;
pub mod linear;

pub use attention_rope::rope;
pub use attention_rope::SimpleRoPE;
pub use kv_cache::KVCache;
pub use linear::Linear;
pub use linear::LinearInt4;
