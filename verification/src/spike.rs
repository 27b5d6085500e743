//! A one-shot run: a map rendered once, written to a file and shown for a few frames.

use bevy::image::Image;
use image::RgbaImage;
use vstd::prelude::*;

use crate::texture;
use crate::texture::{new_image, Dimension, PixelFormat, BOTH_WORLDS};

verus! {

/// Width of the rendered map in pixels.
pub const IMAGE_WIDTH: u32 = 1024;

/// Height of the rendered map in pixels.
pub const IMAGE_HEIGHT: u32 = 1024;

/// How many frames are still shown.
pub struct FramesUntilExit(pub u32);

impl FramesUntilExit {
    /// Counts a frame and tells whether it is time to exit: once no frame is left,
    /// every further one says so.
    pub fn exit_after_a_few_frames(&mut self) -> (exit: bool)
        ensures
            exit == (old(self).0 == 0),
            final(self).0 == one_fewer(old(self).0),
            old(self).0 == 0 ==> final(self).0 == 0,
            old(self).0 > 0 ==> final(self).0 == old(self).0 - 1,
    {
        if self.0 == 0 {
            true
        } else {
            self.0 = self.0 - 1;
            false
        }
    }
}

/// How many frames are left after one more, never below none.
pub open spec fn one_fewer(frames: u32) -> u32 {
    if frames == 0 {
        0
    } else {
        (frames - 1) as u32
    }
}

/// How many of `frames` are left after `elapsed` of them.
pub open spec fn frames_left(frames: u32, elapsed: nat) -> u32
    decreases elapsed,
{
    if elapsed == 0 {
        frames
    } else {
        one_fewer(frames_left(frames, (elapsed - 1) as nat))
    }
}

/// Counting goes on: the frames left after some more frames are those left of what was
/// left before, and each frame takes away one until none is left.
pub proof fn law_frames_add_up(frames: u32, elapsed: nat, more: nat)
    ensures
        frames_left(frames, elapsed + more) == frames_left(frames_left(frames, elapsed), more),
        frames_left(frames, 0) == frames,
        one_fewer(0) == 0,
        frames > 0 ==> one_fewer(frames) == frames - 1,
    decreases more,
{
    if more > 0 {
        law_frames_add_up(frames, elapsed, (more - 1) as nat);
    }
}

/// The exit comes on time: after `elapsed` frames none is left exactly if there were
/// at most that many.
pub proof fn law_exits_on_time(frames: u32, elapsed: nat)
    ensures
        frames_left(frames, elapsed) == 0 <==> elapsed >= frames,
        elapsed < frames ==> frames_left(frames, elapsed) == frames - elapsed,
    decreases elapsed,
{
    if elapsed > 0 {
        law_exits_on_time(frames, (elapsed - 1) as nat);
    }
}

/// Calls `RgbaImage::from_raw`, which takes the bytes over as they are if there are at
/// least four for each pixel and gives nothing otherwise, and hands them out again with
/// `into_raw`. It also gives nothing if the bytes of one row are too many for a `usize`,
/// whatever the height, which is ruled out here.
#[verifier::external_body]
fn wrap_rgba(width: u32, height: u32, rgba: Vec<u8>) -> (wrapped: Option<Vec<u8>>)
    requires
        4 * width as nat <= usize::MAX,
    ensures
        wrapped is Some <==> rgba@.len() >= texture::rgba_len(width, height),
        wrapped matches Some(bytes) ==> bytes@ == rgba@,
{
    RgbaImage::from_raw(width, height, rgba).map(|buffer| buffer.into_raw())
}

/// The bytes of the picture to write to a file: as many as the rendered size calls for,
/// or none at all if there are fewer.
pub fn picture_bytes(rgba: Vec<u8>) -> (picture: Option<Vec<u8>>)
    ensures
        picture is Some <==> rgba@.len() >= texture::rgba_len(IMAGE_WIDTH, IMAGE_HEIGHT),
        picture matches Some(bytes) ==> bytes@ == rgba@.take(
            texture::rgba_len(IMAGE_WIDTH, IMAGE_HEIGHT) as int,
        ),
        picture is Some <==> rgba@.len() >= 4_194_304,
        picture matches Some(bytes) ==> bytes@ == rgba@.take(4_194_304),
{
    match wrap_rgba(IMAGE_WIDTH, IMAGE_HEIGHT, rgba) {
        Some(mut bytes) => {
            bytes.truncate((IMAGE_WIDTH * IMAGE_HEIGHT * 4) as usize);
            Some(bytes)
        },
        None => None,
    }
}

/// The image to show.
pub fn setup_image(rgba: Vec<u8>) -> (image: Image)
    requires
        rgba@.len() == texture::rgba_len(IMAGE_WIDTH, IMAGE_HEIGHT),
    ensures
        texture::shows(image, IMAGE_WIDTH, IMAGE_HEIGHT, rgba@),
        texture::image_bytes(image) == rgba@,
        texture::image_width(image) == IMAGE_WIDTH,
        texture::image_height(image) == IMAGE_HEIGHT,
        texture::image_layers(image) == 1,
        texture::image_dimension(image) == Dimension::D2,
        texture::image_format(image) == PixelFormat::Rgba8UnormSrgb,
        texture::image_usage(image) == 3,
{
    new_image(
        IMAGE_WIDTH,
        IMAGE_HEIGHT,
        1,
        Dimension::D2,
        rgba,
        PixelFormat::Rgba8UnormSrgb,
        BOTH_WORLDS,
    )
}

} // verus!
