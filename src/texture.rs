//! Textures: an image with a filtering mode and an edge mode, and the integer
//! side of sampling them, which texel a pixel coordinate reads.
use crate::raster::{
    dimensions, image_size, image_texels, read_texel, rgba_at, rgba_image_from_raw, Rgba8,
};
use crate::utils::{lemma_row_index_bound, lemma_row_position};
use vstd::prelude::*;

verus! {

/// What a texture shows for coordinates outside its image.
#[derive(Clone, Copy, Debug, PartialEq, Eq, Structural)]
pub enum TextureMode {
    /// The nearest edge texel.
    Clamp,
    /// The image tiled over the plane.
    Repeat,
    /// Nothing: a fully transparent black.
    Transparent,
}

/// How a texture is sampled between texel centres.
#[derive(Clone, Copy, Debug, PartialEq, Eq, Structural)]
pub enum TextureFiltering {
    Nearest,
    Bilinear,
}

/// An image sampled with a filtering mode and an edge mode.
#[derive(Clone)]
pub struct Texture(pub image::DynamicImage, pub TextureFiltering, pub TextureMode);

/// `x` brought into `[min, max]`.
pub open spec fn clamped(x: int, min: int, max: int) -> int {
    if x < min {
        min
    } else if x > max {
        max
    } else {
        x
    }
}

/// The texel of a `width` x `height` image that coordinate `(x, y)` reads
/// under the edge mode, or `None` where the mode reads no texel.
pub open spec fn texel_address(mode: TextureMode, x: u32, y: u32, width: u32, height: u32) -> Option<
    (u32, u32),
> {
    match mode {
        TextureMode::Clamp => Some(
            (
                clamped(x as int, 0, width - 1) as u32,
                clamped(y as int, 0, height - 1) as u32,
            ),
        ),
        TextureMode::Repeat => Some(((x % width) as u32, (y % height) as u32)),
        TextureMode::Transparent => None,
    }
}

/// A pixel packed into one `u32` as `0xAARRGGBB`.
pub open spec fn argb(p: Rgba8) -> u32 {
    (p.3 as int * 0x1000000 + p.0 as int * 0x10000 + p.1 as int * 0x100 + p.2 as int) as u32
}

/// The colour of a checkerboard at `(x, y)`: `even` where `x + y` is even,
/// `odd` elsewhere.
pub open spec fn checker(even: Rgba8, odd: Rgba8, x: int, y: int) -> Rgba8 {
    if (x + y) % 2 == 0 {
        even
    } else {
        odd
    }
}

/// Opaque yellow, the even squares of the default background.
pub const BG_EVEN: Rgba8 = (255, 255, 0, 255);

/// Opaque cyan, the odd squares of the default background.
pub const BG_ODD: Rgba8 = (0, 255, 255, 255);

/// `x` brought into `[min, max]`: `min` below it, `max` above it.
pub fn clamp(x: u32, min: u32, max: u32) -> (r: u32)
    ensures
        r == clamped(x as int, min as int, max as int),
{
    if x < min {
        min
    } else if x > max {
        max
    } else {
        x
    }
}

/// Packs a pixel into one `u32` as `0xAARRGGBB`.
pub fn pack_argb(p: Rgba8) -> (r: u32)
    ensures
        r == argb(p),
        r as int == p.3 as int * 0x1000000 + p.0 as int * 0x10000 + p.1 as int * 0x100
            + p.2 as int,
{
    let (red, green, blue, alpha) = p;
    let (r32, g32, b32, a32) = (red as u32, green as u32, blue as u32, alpha as u32);
    assert((a32 << 24u32 | r32 << 16u32 | g32 << 8u32 | b32) == a32 * 0x1000000 + r32 * 0x10000
        + g32 * 0x100 + b32) by (bit_vector)
        requires
            r32 < 256,
            g32 < 256,
            b32 < 256,
            a32 < 256,
    ;
    a32 << 24u32 | r32 << 16u32 | g32 << 8u32 | b32
}

/// The channels of a pixel packed as `0xAARRGGBB`.
pub open spec fn argb_channels(c: u32) -> Rgba8 {
    (
        ((c / 0x10000) % 0x100) as u8,
        ((c / 0x100) % 0x100) as u8,
        (c % 0x100) as u8,
        (c / 0x1000000) as u8,
    )
}

/// Splits a pixel packed as `0xAARRGGBB` into its channels.
pub fn unpack_argb(c: u32) -> (r: Rgba8)
    ensures
        r == argb_channels(c),
{
    let red = (c >> 16u32) & 0xFF;
    let green = (c >> 8u32) & 0xFF;
    let blue = c & 0xFF;
    let alpha = c >> 24u32;
    assert(red == (c / 0x10000) % 0x100 && green == (c / 0x100) % 0x100 && blue == c % 0x100
        && alpha == c / 0x1000000 && alpha < 0x100) by (bit_vector)
        requires
            red == (c >> 16u32) & 0xFF,
            green == (c >> 8u32) & 0xFF,
            blue == c & 0xFF,
            alpha == c >> 24u32,
    ;
    (red as u8, green as u8, blue as u8, alpha as u8)
}

/// Packing a pixel and splitting it again gives the pixel back, and every
/// `u32` is the packing of its channels.
pub proof fn lemma_argb_round_trip(p: Rgba8, c: u32)
    ensures
        argb_channels(argb(p)) == p,
        argb(argb_channels(c)) == c,
{
    let (r, g, b, a) = (p.0 as u32, p.1 as u32, p.2 as u32, p.3 as u32);
    let v = argb(p);
    assert(v == a * 0x1000000 + r * 0x10000 + g * 0x100 + b) by (nonlinear_arith)
        requires
            v == (p.3 as int * 0x1000000 + p.0 as int * 0x10000 + p.1 as int * 0x100
                + p.2 as int) as u32,
            r == p.0,
            g == p.1,
            b == p.2,
            a == p.3,
            r < 256,
            g < 256,
            b < 256,
            a < 256,
    ;
    assert(((v / 0x10000) % 0x100) == r && ((v / 0x100) % 0x100) == g && v % 0x100 == b && v
        / 0x1000000 == a) by (bit_vector)
        requires
            v == a * 0x1000000 + r * 0x10000 + g * 0x100 + b,
            r < 256,
            g < 256,
            b < 256,
            a < 256,
    ;
    assert(((c / 0x1000000) * 0x1000000 + ((c / 0x10000) % 0x100) * 0x10000 + ((c / 0x100)
        % 0x100) * 0x100 + c % 0x100) == c) by (bit_vector);
}

impl Texture {
    /// The texel at `(x, y)` under the texture's edge mode, packed as
    /// `0xAARRGGBB`; zero, a transparent black, where the mode is
    /// `Transparent`. The image must not be empty.
    pub fn get_pixel(&self, x: u32, y: u32) -> (r: u32)
        requires
            image_size(self.0).0 > 0,
            image_size(self.0).1 > 0,
        ensures
            r == match texel_address(self.2, x, y, image_size(self.0).0, image_size(self.0).1) {
                Some(t) => argb(image_texels(self.0)[t]),
                None => 0,
            },
    {
        let (width, height) = dimensions(&self.0);
        match self.2 {
            TextureMode::Clamp => pack_argb(
                read_texel(&self.0, clamp(x, 0, width - 1), clamp(y, 0, height - 1)),
            ),
            TextureMode::Repeat => pack_argb(read_texel(&self.0, x % width, y % height)),
            TextureMode::Transparent => 0,
        }
    }
}

/// The default background: a `width` x `height` checkerboard of opaque
/// yellow and cyan texels, sampled to the nearest texel and repeated over
/// the plane.
pub fn create_bg_texture(width: u32, height: u32) -> (r: Result<Texture, &'static str>)
    requires
        4 * (width as int) * (height as int) <= usize::MAX,
    ensures
        r matches Ok(t) && {
            &&& image_size(t.0) == (width, height)
            &&& forall|x: u32, y: u32|
                x < width && y < height ==> #[trigger] image_texels(t.0)[(x, y)] == checker(
                    BG_EVEN,
                    BG_ODD,
                    x as int,
                    y as int,
                )
            &&& t.1 == TextureFiltering::Nearest
            &&& t.2 == TextureMode::Repeat
        },
{
    checker_texture(width, height, BG_EVEN, BG_ODD, TextureFiltering::Nearest, TextureMode::Repeat)
}

/// A `width` x `height` checkerboard texture: texel `(x, y)` is `even` where
/// `x + y` is even and `odd` elsewhere.
pub fn checker_texture(
    width: u32,
    height: u32,
    even: Rgba8,
    odd: Rgba8,
    filtering: TextureFiltering,
    mode: TextureMode,
) -> (r: Result<Texture, &'static str>)
    requires
        4 * (width as int) * (height as int) <= usize::MAX,
    ensures
        r matches Ok(t) && {
            &&& image_size(t.0) == (width, height)
            &&& forall|x: u32, y: u32|
                x < width && y < height ==> #[trigger] image_texels(t.0)[(x, y)] == checker(
                    even,
                    odd,
                    x as int,
                    y as int,
                )
            &&& t.1 == filtering
            &&& t.2 == mode
        },
{
    let ghost w = width as int;
    let ghost h = height as int;
    assert(w * h <= 4 * w * h) by (nonlinear_arith)
        requires
            w >= 0,
            h >= 0,
    ;
    let total: usize = width as usize * height as usize;
    let mut bytes: Vec<u8> = Vec::new();
    let mut i: usize = 0;
    while i < total
        invariant
            width as int == w,
            height as int == h,
            total == w * h,
            4 * w * h <= usize::MAX,
            i <= total,
            bytes@.len() == 4 * i,
            forall|j: int|
                0 <= j < i ==> #[trigger] rgba_at(bytes@, 4 * j) == checker(even, odd, j % w, j / w),
        decreases total - i,
    {
        proof {
            if w == 0 {
                assert(w * h == 0) by (nonlinear_arith)
                    requires
                        w == 0,
                ;
            }
        }
        let x = i % (width as usize);
        let y = i / (width as usize);
        proof {
            vstd::arithmetic::div_mod::lemma_add_mod_noop(x as int, y as int, 2);
        }
        let (red, green, blue, alpha) = if (x % 2 + y % 2) % 2 == 0 {
            even
        } else {
            odd
        };
        let ghost before = bytes@;
        bytes.push(red);
        bytes.push(green);
        bytes.push(blue);
        bytes.push(alpha);
        proof {
            assert forall|j: int| 0 <= j < i + 1 implies #[trigger] rgba_at(bytes@, 4 * j)
                == checker(even, odd, j % w, j / w) by {
                if j < i {
                    assert(rgba_at(bytes@, 4 * j) == rgba_at(before, 4 * j));
                }
            }
        }
        i = i + 1;
    }
    assert(4 * w * h == 4 * (w * h)) by (nonlinear_arith);
    match rgba_image_from_raw(width, height, bytes) {
        Some(img) => {
            proof {
                assert forall|x: u32, y: u32| x < width && y < height implies #[trigger] image_texels(
                    img,
                )[(x, y)] == checker(even, odd, x as int, y as int) by {
                    lemma_row_position(x as int, y as int, w);
                    lemma_row_index_bound(x as int, y as int, w, h);
                }
            }
            Ok(Texture(img, filtering, mode))
        },
        None => Err("Couldn't create texture"),
    }
}

} // verus!
