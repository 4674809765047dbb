//! The output image: an RGB pixel buffer of the `image` crate.
use vstd::prelude::*;

verus! {

/// A rendered picture. Verus does not see inside the buffer; what it holds is
/// described by [`image_pixels`] and [`image_size`].
#[verifier::external_body]
pub struct Image(pub image::RgbImage);

/// What an image holds: the three channels of each pixel, keyed by column and row.
pub uninterp spec fn image_pixels(img: Image) -> Map<(u32, u32), Seq<u8>>;

/// The width and height an image was made with.
pub uninterp spec fn image_size(img: Image) -> (u32, u32);

/// Relies on `image::ImageBuffer::new`: an image of the given size with every
/// channel zero; it panics only where the buffer length overflows `usize`.
#[verifier::external_body]
pub(crate) fn blank_image(width: u32, height: u32) -> (img: Image)
    requires
        width * height * 3 <= usize::MAX,
    ensures
        image_size(img) == (width, height),
        forall|i: u32, j: u32|
            i < width && j < height ==> #[trigger] image_pixels(img).contains_key((i, j))
                && image_pixels(img)[(i, j)] == seq![0u8, 0u8, 0u8],
{
    Image(image::RgbImage::new(width, height))
}

/// Relies on `image::ImageBuffer::put_pixel`: it replaces the pixel at column `x`,
/// row `y`, and panics only outside the image.
#[verifier::external_body]
pub(crate) fn put_pixel(img: &mut Image, x: u32, y: u32, px: [u8; 3])
    requires
        x < image_size(*old(img)).0,
        y < image_size(*old(img)).1,
    ensures
        image_size(*final(img)) == image_size(*old(img)),
        image_pixels(*final(img)) == image_pixels(*old(img)).insert((x, y), px@),
{
    img.0.put_pixel(x, y, image::Rgb(px))
}

} // verus!
