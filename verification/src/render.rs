//! What the main thread and the render worker send each other.

use vstd::prelude::*;

use crate::binary64;
use crate::binary64::widen;
use crate::viewport::Pose;

verus! {

/// A request to render the map around a camera.
#[derive(Clone, Copy)]
pub struct RenderRequest {
    pub pose: Pose,
}

/// A rendered map and the camera it was rendered for.
pub struct RenderResponse {
    /// The pixels, four bytes each.
    pub rgba: Vec<u8>,
    pub snapshot: Pose,
}

impl RenderRequest {
    /// The double-precision pattern of the first coordinate of the center.
    pub fn center_x(&self) -> (bits: u64)
        ensures
            binary64::widened(bits, self.pose@.center_x),
    {
        widen(self.pose.center_x())
    }

    /// The double-precision pattern of the second coordinate of the center.
    pub fn center_y(&self) -> (bits: u64)
        ensures
            binary64::widened(bits, self.pose@.center_y),
    {
        widen(self.pose.center_y())
    }

    /// The double-precision pattern of the resolution in world units per pixel.
    pub fn resolution(&self) -> (bits: u64)
        ensures
            binary64::widened(bits, self.pose@.scale),
    {
        widen(self.pose.scale())
    }
}

} // verus!
