use crate::fpu;
use crate::fpu::Fpu;
use vstd::prelude::*;

verus! {

/// Which vector units for bytes the processor has and the build uses.
#[derive(Clone, Copy, Debug, PartialEq, Eq, Structural)]
pub struct Int8Support {
    pub arm64: bool,
    pub x86: bool,
}

/// The unit that computes products with bytes.
#[derive(Clone, Copy, Debug, PartialEq, Eq, Structural)]
pub enum Int8KernelBackend {
    Portable,
    Arm64Neon,
    X86Avx2,
}

pub open spec fn int8_backend(support: Int8Support) -> Int8KernelBackend {
    if support.arm64 {
        Int8KernelBackend::Arm64Neon
    } else if support.x86 {
        Int8KernelBackend::X86Avx2
    } else {
        Int8KernelBackend::Portable
    }
}

/// The unit in use: that of an ARM processor before that of an x86 one, and none
/// where neither is there.
pub fn active_int8_backend(support: &Int8Support) -> (b: Int8KernelBackend)
    ensures
        b == int8_backend(*support),
{
    if support.arm64 {
        Int8KernelBackend::Arm64Neon
    } else if support.x86 {
        Int8KernelBackend::X86Avx2
    } else {
        Int8KernelBackend::Portable
    }
}

/// The name of the unit in use.
pub fn active_int8_backend_name(support: &Int8Support) -> (name: &'static str)
    ensures
        name@ == (match int8_backend(*support) {
            Int8KernelBackend::Portable => "portable"@,
            Int8KernelBackend::Arm64Neon => "arm64-neon"@,
            Int8KernelBackend::X86Avx2 => "x86-avx2"@,
        }),
{
    match active_int8_backend(support) {
        Int8KernelBackend::Portable => "portable",
        Int8KernelBackend::Arm64Neon => "arm64-neon",
        Int8KernelBackend::X86Avx2 => "x86-avx2",
    }
}

fn dot_len_matches(x: &[u32], row: &[i8]) -> (r: bool)
    ensures
        r == (x@.len() == row@.len()),
{
    x.len() == row.len()
}

fn dot2_len_matches(x: &[u32], row0: &[i8], row1: &[i8]) -> (r: bool)
    ensures
        r == (x@.len() == row0@.len() && x@.len() == row1@.len()),
{
    x.len() == row0.len() && x.len() == row1.len()
}

fn dot3_len_matches(x: &[u32], row0: &[i8], row1: &[i8], row2: &[i8]) -> (r: bool)
    ensures
        r == (x@.len() == row0@.len() && x@.len() == row1@.len() && x@.len() == row2@.len()),
{
    x.len() == row0.len() && x.len() == row1.len() && x.len() == row2.len()
}

/// The product of a vector with a row of bytes, times the step of the bytes.
pub open spec fn scaled_dot<F: Fpu>(f: &F, x: Seq<u32>, row: Seq<i8>, scale: u32, r: u32) -> bool {
    exists|s: u32| fpu::dots_bytes(f, x, row, s) && #[trigger] fpu::muls(f, s, scale, r)
}

/// The product with a row of bytes, as the vector unit computes it.
pub fn dot_unit<F: Fpu>(x: &[u32], row: &[i8], scale: u32, f: &F) -> (r: u32)
    ensures
        scaled_dot(f, x@, row@, scale, r),
{
    let s: u32 = f.dot_bytes(x, row);
    let r: u32 = f.mul(s, scale);
    assert(fpu::dots_bytes(f, x@, row@, s) && fpu::muls(f, s, scale, r));
    r
}

/// The product with a row of bytes, where a vector unit computes it.
pub fn dot_f32_i8_arch<F: Fpu>(x: &[u32], row: &[i8], scale: u32, support: &Int8Support, f: &F) -> (r: Option<u32>)
    ensures
        r is Some <==> x@.len() == row@.len() && int8_backend(*support) != Int8KernelBackend::Portable,
        r matches Some(v) ==> scaled_dot(f, x@, row@, scale, v),
{
    if !dot_len_matches(x, row) {
        return None;
    }
    match active_int8_backend(support) {
        Int8KernelBackend::Portable => None,
        Int8KernelBackend::Arm64Neon | Int8KernelBackend::X86Avx2 => Some(dot_unit(x, row, scale, f)),
    }
}

/// The products with two rows of bytes, where a vector unit computes them.
pub fn dot2_f32_i8_arch<F: Fpu>(
    x: &[u32],
    row0: &[i8],
    scale0: u32,
    row1: &[i8],
    scale1: u32,
    support: &Int8Support,
    f: &F,
) -> (r: Option<(u32, u32)>)
    ensures
        r is Some <==> x@.len() == row0@.len() && x@.len() == row1@.len() && int8_backend(*support)
            != Int8KernelBackend::Portable,
        r matches Some(v) ==> scaled_dot(f, x@, row0@, scale0, v.0) && scaled_dot(f, x@, row1@, scale1, v.1),
{
    if !dot2_len_matches(x, row0, row1) {
        return None;
    }
    match active_int8_backend(support) {
        Int8KernelBackend::Portable => None,
        Int8KernelBackend::Arm64Neon | Int8KernelBackend::X86Avx2 => Some(
            (dot_unit(x, row0, scale0, f), dot_unit(x, row1, scale1, f)),
        ),
    }
}

/// The products with three rows of bytes, where a vector unit computes them.
pub fn dot3_f32_i8_arch<F: Fpu>(
    x: &[u32],
    row0: &[i8],
    scale0: u32,
    row1: &[i8],
    scale1: u32,
    row2: &[i8],
    scale2: u32,
    support: &Int8Support,
    f: &F,
) -> (r: Option<(u32, u32, u32)>)
    ensures
        r is Some <==> x@.len() == row0@.len() && x@.len() == row1@.len() && x@.len() == row2@.len() && int8_backend(
            *support,
        ) != Int8KernelBackend::Portable,
        r matches Some(v) ==> scaled_dot(f, x@, row0@, scale0, v.0) && scaled_dot(f, x@, row1@, scale1, v.1) && scaled_dot(
            f,
            x@,
            row2@,
            scale2,
            v.2,
        ),
{
    if !dot3_len_matches(x, row0, row1, row2) {
        return None;
    }
    match active_int8_backend(support) {
        Int8KernelBackend::Portable => None,
        Int8KernelBackend::Arm64Neon | Int8KernelBackend::X86Avx2 => Some(
            (dot_unit(x, row0, scale0, f), dot_unit(x, row1, scale1, f), dot_unit(x, row2, scale2, f)),
        ),
    }
}

} // verus!
