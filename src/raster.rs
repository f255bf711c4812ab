//! The raster images of the `image` crate, as this library sees them: a size,
//! and the RGBA value that reading each pixel gives.
use vstd::prelude::*;

verus! {

#[verifier::external_type_specification]
#[verifier::external_body]
pub struct ExDynamicImage(image::DynamicImage);

/// The four channels of a pixel, in the order red, green, blue, alpha.
pub type Rgba8 = (u8, u8, u8, u8);

/// Width and height of an image.
pub uninterp spec fn image_size(img: image::DynamicImage) -> (u32, u32);

/// The RGBA value that reading each in-bounds pixel `(x, y)` of an image gives.
pub uninterp spec fn image_texels(img: image::DynamicImage) -> Map<(u32, u32), (u8, u8, u8, u8)>;

/// The four bytes of `bytes` from index `k` on, as one pixel.
pub open spec fn rgba_at(bytes: Seq<u8>, k: int) -> Rgba8 {
    (bytes[k], bytes[k + 1], bytes[k + 2], bytes[k + 3])
}

/// Relies on the derived `Clone` of `image::DynamicImage`, which copies the
/// pixel buffer: the copy has the same size and pixels.
pub assume_specification[ <image::DynamicImage as Clone>::clone ](img: &image::DynamicImage) -> (r:
    image::DynamicImage)
    ensures
        image_size(r) == image_size(*img),
        image_texels(r) == image_texels(*img),
;

/// Relies on `GenericImageView::dimensions` of `image::DynamicImage`, which
/// returns the width and height of the image.
#[verifier::external_body]
pub(crate) fn dimensions(img: &image::DynamicImage) -> (r: (u32, u32))
    ensures
        r == image_size(*img),
{
    image::GenericImageView::dimensions(img)
}

/// Relies on `GenericImageView::get_pixel` of `image::DynamicImage`, which
/// reads one pixel as RGBA and panics outside the image.
#[verifier::external_body]
pub(crate) fn read_texel(img: &image::DynamicImage, x: u32, y: u32) -> (r: Rgba8)
    requires
        x < image_size(*img).0,
        y < image_size(*img).1,
    ensures
        r == image_texels(*img)[(x, y)],
{
    let [red, green, blue, alpha] = image::GenericImageView::get_pixel(img, x, y).0;
    (red, green, blue, alpha)
}

/// Relies on `ImageBuffer::from_raw` for `image::RgbaImage`: it accepts a buffer
/// of at least four bytes per pixel and lays pixel `(x, y)` out at the four
/// bytes from `4 * (y * width + x)`, in the order red, green, blue, alpha,
/// which `GenericImageView::get_pixel` of the `DynamicImage` gives back.
#[verifier::external_body]
pub(crate) fn rgba_image_from_raw(width: u32, height: u32, bytes: Vec<u8>) -> (r: Option<
    image::DynamicImage,
>)
    ensures
        r is Some <==> 4 * (width as int) * (height as int) <= bytes@.len(),
        r matches Some(img) ==> image_size(img) == (width, height),
        r matches Some(img) ==> forall|x: u32, y: u32|
            x < width && y < height ==> #[trigger] image_texels(img)[(x, y)] == rgba_at(
                bytes@,
                4 * ((y as int) * (width as int) + (x as int)),
            ),
{
    image::RgbaImage::from_raw(width, height, bytes).map(image::DynamicImage::ImageRgba8)
}

} // verus!
