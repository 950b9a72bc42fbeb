pub mod arithmetic;
pub mod blocks;
pub mod convolution;
pub mod fused;
pub mod int8_kernels;
pub mod mat;
pub mod matmul;
pub mod matvec;
pub mod methods;
pub mod patches;
pub mod projection;
pub mod rows;
pub mod scatter;
pub mod shape;
pub mod totals;
pub mod windows;
