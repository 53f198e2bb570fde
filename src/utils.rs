use vstd::prelude::*;

verus! {

/// An axis-aligned rectangle on screen, in pixels.
#[derive(Clone, Copy, Debug, Default, PartialEq, Eq, Structural)]
pub struct Rectangle {
    pub x: u32,
    pub y: u32,
    pub width: u32,
    pub height: u32,
}

/// Space that a dock reserves on each border of its screen.
#[derive(Clone, Copy, Debug, Default, PartialEq, Eq, Structural)]
pub struct Reserved {
    pub left: u32,
    pub right: u32,
    pub bottom: u32,
    pub top: u32,
}

/// Identity and size of one physical screen.
#[derive(Clone, Copy, Debug, Default, PartialEq, Eq, Structural)]
pub struct ScreenInfo {
    pub id: u8,
    pub width: u32,
    pub height: u32,
}

} // verus!
