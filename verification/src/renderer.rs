//! Renderer configuration values. The GPU work itself lives outside
//! this crate; only the settings and their arithmetic are kernel logic.

use vstd::prelude::*;

verus! {

/// Multi-sampling setting: disabled (one sample per pixel) or 4, 8 or
/// 16 samples per pixel.
#[derive(Clone, Copy, Debug, PartialEq, Eq, Structural, Hash)]
pub enum Msaa {
    Disabled,
    X4,
    X8,
    X16,
}

/// Options a renderer is created with.
#[derive(Clone, Copy, Debug, PartialEq, Eq, Structural)]
pub struct RendererOptions {
    pub msaa: Msaa,
}

impl Msaa {
    /// Whether multi-sampling is on at all.
    pub fn enabled(self) -> (r: bool)
        ensures
            r == (self != Msaa::Disabled),
    {
        match self {
            Msaa::Disabled => false,
            _ => true,
        }
    }

    /// The number of samples per pixel this setting asks for.
    pub fn sample_count(self) -> (r: u32)
        ensures
            r == match self {
                Msaa::Disabled => 1u32,
                Msaa::X4 => 4u32,
                Msaa::X8 => 8u32,
                Msaa::X16 => 16u32,
            },
    {
        match self {
            Msaa::Disabled => 1,
            Msaa::X4 => 4,
            Msaa::X8 => 8,
            Msaa::X16 => 16,
        }
    }
}

} // verus!
