pub mod levelling;
pub mod rms_norm;

pub use crate::layers::norm::rms_norm::RMSNorm;
