use gargantua::texture::{
    checker_texture, clamp, create_bg_texture, pack_argb, unpack_argb, Texture, TextureFiltering, TextureMode,
};
use image::{DynamicImage, GenericImageView, Rgba, RgbaImage};

fn gradient(width: u32, height: u32) -> DynamicImage {
    let mut img = RgbaImage::new(width, height);
    for y in 0..height {
        for x in 0..width {
            img.put_pixel(x, y, Rgba([x as u8, y as u8, 7, 200]));
        }
    }
    DynamicImage::ImageRgba8(img)
}

#[test]
fn clamp_bounds() {
    assert_eq!(clamp(5, 0, 9), 5);
    assert_eq!(clamp(12, 0, 9), 9);
    assert_eq!(clamp(1, 3, 9), 3);
    assert_eq!(clamp(3, 3, 3), 3);
}

#[test]
fn pack_argb_orders_channels() {
    assert_eq!(pack_argb((0x12, 0x34, 0x56, 0x78)), 0x7812_3456);
    assert_eq!(pack_argb((255, 0, 255, 255)), 0xFFFF_00FF);
    assert_eq!(pack_argb((0, 0, 0, 0)), 0);
}

#[test]
fn get_pixel_clamp_mode() {
    let tex = Texture(gradient(4, 3), TextureFiltering::Nearest, TextureMode::Clamp);
    assert_eq!(tex.get_pixel(1, 2), pack_argb((1, 2, 7, 200)));
    assert_eq!(tex.get_pixel(10, 1), pack_argb((3, 1, 7, 200)));
    assert_eq!(tex.get_pixel(2, 99), pack_argb((2, 2, 7, 200)));
}

#[test]
fn get_pixel_repeat_mode() {
    let tex = Texture(gradient(4, 3), TextureFiltering::Nearest, TextureMode::Repeat);
    assert_eq!(tex.get_pixel(5, 7), pack_argb((1, 1, 7, 200)));
    assert_eq!(tex.get_pixel(3, 2), pack_argb((3, 2, 7, 200)));
}

#[test]
fn get_pixel_transparent_mode() {
    let tex = Texture(gradient(4, 3), TextureFiltering::Bilinear, TextureMode::Transparent);
    assert_eq!(tex.get_pixel(1, 1), 0);
    assert_eq!(tex.get_pixel(100, 100), 0);
}

#[test]
fn get_pixel_reads_rgb_image_as_opaque() {
    let mut img = DynamicImage::new_rgb8(2, 2);
    if let Some(buf) = img.as_mut_rgb8() {
        buf.put_pixel(1, 0, image::Rgb([9, 8, 7]));
    }
    let tex = Texture(img, TextureFiltering::Nearest, TextureMode::Clamp);
    assert_eq!(tex.get_pixel(1, 0), 0xFF09_0807);
}

#[test]
fn background_is_checkerboard() {
    let tex = create_bg_texture(50, 50).expect("background");
    assert_eq!(tex.0.dimensions(), (50, 50));
    assert_eq!(tex.1, TextureFiltering::Nearest);
    assert_eq!(tex.2, TextureMode::Repeat);
    let yellow = 0xFFFF_FF00;
    let cyan = 0xFF00_FFFF;
    assert_eq!(tex.get_pixel(0, 0), yellow);
    assert_eq!(tex.get_pixel(1, 0), cyan);
    assert_eq!(tex.get_pixel(0, 1), cyan);
    assert_eq!(tex.get_pixel(7, 9), yellow);
    assert_eq!(tex.get_pixel(50, 0), yellow);
    assert_eq!(tex.get_pixel(51, 50), cyan);
}

#[test]
fn background_of_odd_size() {
    let tex = create_bg_texture(3, 1).expect("background");
    assert_eq!(tex.0.dimensions(), (3, 1));
    assert_eq!(tex.0.get_pixel(2, 0), Rgba([255, 255, 0, 255]));
    assert_eq!(tex.0.get_pixel(1, 0), Rgba([0, 255, 255, 255]));
}

#[test]
fn background_can_be_empty() {
    let tex = create_bg_texture(0, 4).expect("background");
    assert_eq!(tex.0.dimensions(), (0, 4));
}

#[test]
fn checker_texture_with_given_colors() {
    let tex = checker_texture(
        4,
        2,
        (255, 0, 100, 255),
        (100, 0, 255, 255),
        TextureFiltering::Bilinear,
        TextureMode::Transparent,
    )
    .expect("texture");
    assert_eq!(tex.1, TextureFiltering::Bilinear);
    assert_eq!(tex.2, TextureMode::Transparent);
    assert_eq!(tex.0.get_pixel(0, 0), Rgba([255, 0, 100, 255]));
    assert_eq!(tex.0.get_pixel(3, 0), Rgba([100, 0, 255, 255]));
    assert_eq!(tex.0.get_pixel(3, 1), Rgba([255, 0, 100, 255]));
}

#[test]
fn unpack_argb_splits_channels() {
    assert_eq!(unpack_argb(0x7812_3456), (0x12, 0x34, 0x56, 0x78));
    assert_eq!(unpack_argb(0xFFFF_00FF), (255, 0, 255, 255));
    assert_eq!(unpack_argb(0), (0, 0, 0, 0));
}

#[test]
fn argb_round_trip() {
    for &p in &[(1u8, 2u8, 3u8, 4u8), (255, 255, 255, 255), (0, 128, 0, 7)] {
        assert_eq!(unpack_argb(pack_argb(p)), p);
    }
    for &c in &[0u32, 1, 0xDEAD_BEEF, u32::MAX] {
        assert_eq!(pack_argb(unpack_argb(c)), c);
    }
}
