pub mod engine;
pub mod node;

pub use engine::backward;
pub use node::Node;
pub use node::Op;
