//! Hardware-decoded video frames: when one can be imported without a copy, and as what.
//!
//! What arrives is biplanar: a full-resolution luma plane and a half-resolution
//! interleaved chroma plane. Both are imported as a texture of their own.

use vstd::prelude::*;

verus! {

/// The texture format of a plane.
#[derive(Debug, Clone, Copy, PartialEq, Eq, Structural)]
pub enum PlaneFormat {
    /// One byte per pixel: luma.
    R8Unorm,
    /// Two bytes per pixel: interleaved chroma.
    Rg8Unorm,
}

/// Whether a decoded frame still lives in GPU memory: it carries a pixel buffer, and that
/// has both planes.
pub fn is_hardware_frame(has_buffer: bool, planes: usize) -> (r: bool)
    ensures
        r == (has_buffer && planes >= 2),
{
    has_buffer && planes >= 2
}

/// The format that a plane is imported as; there are two planes.
pub fn plane_format(plane: usize) -> (f: Option<PlaneFormat>)
    ensures
        f == (if plane == 0 {
            Some(PlaneFormat::R8Unorm)
        } else if plane == 1 {
            Some(PlaneFormat::Rg8Unorm)
        } else {
            None
        }),
{
    if plane == 0 {
        Some(PlaneFormat::R8Unorm)
    } else if plane == 1 {
        Some(PlaneFormat::Rg8Unorm)
    } else {
        None
    }
}

/// The imported frame: both planes, or nothing, so that the caller falls back to the pixel
/// path.
pub fn both_planes<T>(luma: Option<T>, chroma: Option<T>) -> (r: Option<(T, T)>)
    ensures
        r == (match (luma, chroma) {
            (Some(l), Some(c)) => Some((l, c)),
            _ => None,
        }),
{
    match (luma, chroma) {
        (Some(l), Some(c)) => Some((l, c)),
        _ => None,
    }
}

} // verus!
