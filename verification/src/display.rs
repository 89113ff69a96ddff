use vstd::prelude::*;

verus! {

/// Width of the frame buffer in pixels. The buffer always has room for the
/// extended (SUPER-CHIP) resolution; normal mode addresses only the left half.
pub const WIDTH: usize = 128;

/// Height of the frame buffer in pixels; normal mode addresses only the top half.
pub const HEIGHT: usize = 64;

/// Screen mode: plain CHIP-8 draws on a 64x32 grid, the extended SUPER-CHIP
/// mode on the full 128x64 grid.
#[derive(Clone, Copy, Debug, PartialEq, Eq, Structural)]
pub enum DisplayMode {
    Normal,
    Extended,
}

} // verus!
