pub mod attend;
pub mod cache;
pub mod causal;
pub mod decode;
pub mod encoding;
pub mod heads;
pub mod parts;
pub mod prefill;
pub mod repeat;
pub mod self_attention;
pub mod steps;
pub mod training;
pub mod turning;
pub mod weighing;

pub use crate::layers::attention::cache::{KVCache, KVCacheInner};
pub use crate::layers::attention::encoding::RotaryEmbedding;
pub use crate::layers::attention::repeat::repeat_kv;
pub use crate::layers::attention::self_attention::SelfAttention;
