pub mod activation;
pub mod attention;
pub mod basic;
pub mod modules;
pub mod norm;
pub mod portions;
pub mod responses;
pub mod rnn;
pub mod shares;

pub use crate::layers::activation::{Gelu, SiLU};
pub use crate::layers::attention::{KVCache, RotaryEmbedding, SelfAttention};
pub use crate::layers::basic::{Dropout, Embedding, Linear};
pub use crate::layers::norm::RMSNorm;
pub use crate::layers::rnn::{LSTM, RNN};
