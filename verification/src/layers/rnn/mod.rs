pub mod adding;
pub mod lstm;
pub mod rnn;

pub use crate::layers::rnn::lstm::LSTM;
pub use crate::layers::rnn::rnn::RNN;
