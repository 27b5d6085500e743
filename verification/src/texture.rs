//! The basemap texture as a Bevy image.

use bevy::asset::RenderAssetUsages;
use bevy::image::Image;
use bevy::render::render_resource::{Extent3d, TextureDimension, TextureFormat};
use vstd::prelude::*;

use crate::viewport::TEXTURE_SIZE;

verus! {

/// Bevy's image asset, held as an opaque value.
#[verifier::external_type_specification]
#[verifier::external_body]
pub struct ExImage(bevy::image::Image);

/// The pixel data that an image holds, row by row.
pub uninterp spec fn image_bytes(image: bevy::image::Image) -> Seq<u8>;

/// The width in pixels of an image.
pub uninterp spec fn image_width(image: bevy::image::Image) -> u32;

/// The height in pixels of an image.
pub uninterp spec fn image_height(image: bevy::image::Image) -> u32;

/// The number of array layers of an image.
pub uninterp spec fn image_layers(image: bevy::image::Image) -> u32;

/// The dimension of an image.
pub uninterp spec fn image_dimension(image: bevy::image::Image) -> Dimension;

/// The pixel format of an image.
pub uninterp spec fn image_format(image: bevy::image::Image) -> PixelFormat;

/// The flags that say in which worlds an image is kept.
pub uninterp spec fn image_usage(image: bevy::image::Image) -> u8;

/// How many axes a texture has.
pub enum Dimension {
    /// One.
    D1,
    /// Two.
    D2,
    /// Three.
    D3,
}

/// How a texture stores its pixels, in four bytes each.
pub enum PixelFormat {
    /// Red, green, blue and alpha, the colors in linear encoding.
    Rgba8Unorm,
    /// Red, green, blue and alpha, the colors in sRGB encoding.
    Rgba8UnormSrgb,
    /// Blue, green, red and alpha, the colors in sRGB encoding.
    Bgra8UnormSrgb,
}

/// The flag of an image that is kept in the main world.
pub const MAIN_WORLD: u8 = 1;

/// The flag of an image that is kept in the render world.
pub const RENDER_WORLD: u8 = 2;

/// The flags of an image that is kept in the main and in the render world.
pub const BOTH_WORLDS: u8 = MAIN_WORLD + RENDER_WORLD;

/// The number of bytes in an image of four-byte pixels.
pub open spec fn rgba_len(width: u32, height: u32) -> nat {
    width as nat * height as nat * 4
}

/// Calls `Image::new`, which stores the extent, the dimension, the format, the usage
/// and the data that it is given in the image. It multiplies width, height and layers
/// as 32-bit numbers and, in debug builds, panics if the data does not have the length
/// that the extent and the format call for, which is four bytes per pixel for each of
/// the formats here; both are ruled out.
#[verifier::external_body]
pub(crate) fn new_image(
    width: u32,
    height: u32,
    layers: u32,
    dimension: Dimension,
    rgba: Vec<u8>,
    format: PixelFormat,
    usage: u8,
) -> (image: Image)
    requires
        width as nat * height as nat <= u32::MAX,
        width as nat * height as nat * layers as nat <= u32::MAX,
        rgba@.len() == rgba_len(width, height) * layers as nat,
    ensures
        image_bytes(image) == rgba@,
        image_width(image) == width,
        image_height(image) == height,
        image_layers(image) == layers,
        image_dimension(image) == dimension,
        image_format(image) == format,
        image_usage(image) == usage,
{
    let dimension = match dimension {
        Dimension::D1 => TextureDimension::D1,
        Dimension::D2 => TextureDimension::D2,
        Dimension::D3 => TextureDimension::D3,
    };
    let format = match format {
        PixelFormat::Rgba8Unorm => TextureFormat::Rgba8Unorm,
        PixelFormat::Rgba8UnormSrgb => TextureFormat::Rgba8UnormSrgb,
        PixelFormat::Bgra8UnormSrgb => TextureFormat::Bgra8UnormSrgb,
    };
    let size = Extent3d { width, height, depth_or_array_layers: layers };
    Image::new(size, dimension, rgba, format, RenderAssetUsages::from_bits_retain(usage))
}

/// Whether an image is a single two-dimensional sheet of sRGB pixels of the given size
/// and content that is kept in both worlds.
pub open spec fn shows(image: Image, width: u32, height: u32, rgba: Seq<u8>) -> bool {
    &&& image_bytes(image) == rgba
    &&& image_width(image) == width
    &&& image_height(image) == height
    &&& image_layers(image) == 1
    &&& image_dimension(image) == Dimension::D2
    &&& image_format(image) == PixelFormat::Rgba8UnormSrgb
    &&& image_usage(image) == BOTH_WORLDS
}

/// The image of a rendered basemap from its RGBA bytes.
pub fn rgba_to_image(rgba: Vec<u8>) -> (image: Image)
    requires
        rgba@.len() == rgba_len(TEXTURE_SIZE, TEXTURE_SIZE),
    ensures
        shows(image, TEXTURE_SIZE, TEXTURE_SIZE, rgba@),
        image_bytes(image) == rgba@,
        image_width(image) == TEXTURE_SIZE,
        image_height(image) == TEXTURE_SIZE,
        image_layers(image) == 1,
        image_dimension(image) == Dimension::D2,
        image_format(image) == PixelFormat::Rgba8UnormSrgb,
        image_usage(image) == 3,
{
    new_image(
        TEXTURE_SIZE,
        TEXTURE_SIZE,
        1,
        Dimension::D2,
        rgba,
        PixelFormat::Rgba8UnormSrgb,
        BOTH_WORLDS,
    )
}

/// The image shown before anything is rendered: transparent black throughout.
pub fn blank_rgba_image() -> (image: Image)
    ensures
        shows(
            image,
            TEXTURE_SIZE,
            TEXTURE_SIZE,
            Seq::new(rgba_len(TEXTURE_SIZE, TEXTURE_SIZE), |i: int| 0u8),
        ),
        image_bytes(image).len() == 4_194_304,
        forall|i: int| 0 <= i < 4_194_304 ==> #[trigger] image_bytes(image)[i] == 0,
        image_width(image) == TEXTURE_SIZE,
        image_height(image) == TEXTURE_SIZE,
        image_layers(image) == 1,
        image_dimension(image) == Dimension::D2,
        image_format(image) == PixelFormat::Rgba8UnormSrgb,
        image_usage(image) == 3,
{
    let len: usize = (TEXTURE_SIZE * TEXTURE_SIZE * 4) as usize;
    let rgba: Vec<u8> = vec![0u8; len];
    assert(rgba@ =~= Seq::new(rgba_len(TEXTURE_SIZE, TEXTURE_SIZE), |i: int| 0u8));
    rgba_to_image(rgba)
}

/// An image has four bytes for each pixel: none without rows, and four more per column
/// with every further row.
pub proof fn law_four_bytes_per_pixel(width: u32, height: u32)
    ensures
        rgba_len(width, 0) == 0,
        height < u32::MAX ==> rgba_len(width, (height + 1) as u32) == rgba_len(width, height) + 4
            * width,
        rgba_len(TEXTURE_SIZE, TEXTURE_SIZE) == 4_194_304,
{
    let w = width as int;
    let h = height as int;
    assert(w * 0 * 4 == 0 && w * (h + 1) * 4 == w * h * 4 + 4 * w) by (nonlinear_arith);
}

/// What an image that shows some pixels is: their bytes in one two-dimensional sheet of
/// the given size, red first, in sRGB encoding, kept in both worlds. So it shows no other
/// pixels and has no other size.
pub proof fn law_image_shows_one_picture(
    image: Image,
    width: u32,
    height: u32,
    rgba: Seq<u8>,
    other_width: u32,
    other_height: u32,
    other: Seq<u8>,
)
    requires
        shows(image, width, height, rgba),
    ensures
        shows(image, other_width, other_height, other) <==> other_width == width && other_height
            == height && other == rgba,
        image_bytes(image) == rgba,
        image_width(image) == width,
        image_height(image) == height,
        image_layers(image) == 1,
        image_dimension(image) == Dimension::D2,
        image_format(image) == PixelFormat::Rgba8UnormSrgb,
        image_usage(image) == MAIN_WORLD + RENDER_WORLD,
{
}

} // verus!
