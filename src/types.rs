use vstd::prelude::*;

verus! {

/// An axis-aligned rectangle: an atlas sub-region or a world-space region.
#[derive(Clone, Copy, Debug, PartialEq, Eq, Structural)]
pub struct Rect {
    pub x: i32,
    pub y: i32,
    pub w: u16,
    pub h: u16,
}

/// An integer point or offset in world space.
#[derive(Clone, Copy, Debug, PartialEq, Eq, Structural)]
pub struct Vec2i(pub i32, pub i32);

/// The pixel size of a decoded image, which is all the tile logic reads of it.
#[derive(Clone, Copy, Debug, PartialEq, Eq, Structural)]
pub struct Texture {
    pub width: usize,
    pub height: usize,
}

impl Texture {
    pub fn new(width: usize, height: usize) -> (r: Self)
        ensures
            r.width == width,
            r.height == height,
    {
        Texture { width, height }
    }

    /// Width and height in pixels.
    pub fn size(&self) -> (r: (usize, usize))
        ensures
            r == (self.width, self.height),
    {
        (self.width, self.height)
    }
}

} // verus!
