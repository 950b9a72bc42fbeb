use vstd::prelude::*;

pub mod args;
pub mod array;
pub mod autograd;
pub mod chat;
pub mod constants;
pub mod descent;
pub mod deviations;
pub mod dims;
pub mod drawing;
pub mod elements;
pub mod fixed;
pub mod float_bits;
pub mod fpu;
pub mod generation;
pub mod graph;
pub mod kv_cache;
pub mod laws;
pub mod layers;
pub mod live;
pub mod loader;
pub mod loss;
pub mod models;
pub mod module;
pub mod narrowing;
pub mod ops;
pub mod optim;
pub mod precision;
pub mod rounding;
pub mod sampling;
pub mod sending;
pub mod tape;
pub mod trace;

verus! {

}
