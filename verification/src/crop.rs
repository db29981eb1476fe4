//! Areas to crop images to.

use vstd::prelude::*;

verus! {

/// An area of an image: its top-left corner and its size, in pixels.
#[derive(Debug)]
pub struct CropArea {
    pub x: u32,
    pub y: u32,
    pub width: u32,
    pub height: u32,
}

} // verus!
