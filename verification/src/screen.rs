//! Colors for the framebuffer console.
use vstd::prelude::*;

verus! {

/// An RGB color packed as `0x00RRGGBB`.
#[derive(Clone, Copy, PartialEq, Eq, Structural, Debug)]
pub struct Color(pub u32);

impl Color {
    pub fn red() -> (r: Color)
        ensures
            r.0 == 0xFF0000,
    {
        Color(0xFF0000)
    }

    pub fn green() -> (r: Color)
        ensures
            r.0 == 0xFF00,
    {
        Color(0xFF00)
    }

    pub fn blue() -> (r: Color)
        ensures
            r.0 == 0xFF,
    {
        Color(0xFF)
    }

    pub fn white() -> (r: Color)
        ensures
            r.0 == 0xFFFFFF,
    {
        Color(0xFFFFFF)
    }

    pub fn black() -> (r: Color)
        ensures
            r.0 == 0,
    {
        Color(0)
    }
}

} // verus!
