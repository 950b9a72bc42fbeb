use vstd::prelude::*;

verus! {

/// How the elements of a tensor are stored.
#[derive(Clone, Copy, Debug, PartialEq, Eq, Structural)]
pub enum DType {
    F32,
    F16,
    BF16,
    I8,
}

impl DType {
    pub open spec fn float(self) -> bool {
        self != DType::I8
    }

    /// Whether the elements are floating-point numbers.
    pub fn is_float(self) -> (r: bool)
        ensures
            r == self.float(),
    {
        match self {
            DType::F32 | DType::F16 | DType::BF16 => true,
            DType::I8 => false,
        }
    }
}

/// Which element types new parameters and new runtime buffers get.
#[derive(Clone, Copy, Debug, PartialEq, Eq, Structural)]
pub struct PrecisionConfig {
    pub parameter_dtype: DType,
    pub runtime_dtype: DType,
    /// Whether parameters may be kept in further precisions beside their own. No layer of
    /// this library keeps such a copy, so none asks.
    pub allow_parameter_dtype_copies: bool,
}

} // verus!
