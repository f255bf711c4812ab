use gargantua::render::{
    bounded_workers, tiles, worker_count, Assembler, Progress, Tile, MAX_WORKERS,
    PROGRESS_INTERVAL, TILE_SIZE,
};
use gargantua::texture::{Texture, TextureFiltering, TextureMode};
use image::{DynamicImage, GenericImageView, Rgba, RgbaImage};

fn all_positions(width: u32, height: u32) -> Vec<(u32, u32)> {
    let mut out = Vec::new();
    for tile in tiles(width, height) {
        out.extend(tile.pixels().positions());
    }
    out
}

fn color_of(x: u32, y: u32) -> (u8, u8, u8, u8) {
    (x as u8, y as u8, (x + y) as u8, 255)
}

fn assemble(width: u32, height: u32, order: &[(u32, u32)]) -> (DynamicImage, u64) {
    let mut frame = Assembler::new(width, height);
    for &(x, y) in order {
        frame.receive(x, y, color_of(x, y));
    }
    let misses = frame.misses;
    (frame.finish().expect("image"), misses)
}

#[test]
fn tiles_of_exact_multiple_include_empty_edges() {
    let plan = tiles(64, 32);
    assert_eq!(plan.len(), 3 * 2);
    assert_eq!(plan[0], Tile { x: 0, y: 0, width: 32, height: 32 });
    assert_eq!(plan[1], Tile { x: 32, y: 0, width: 32, height: 32 });
    assert_eq!(plan[2], Tile { x: 64, y: 0, width: 0, height: 32 });
    assert_eq!(plan[3], Tile { x: 0, y: 32, width: 32, height: 0 });
    assert_eq!(plan[5], Tile { x: 64, y: 32, width: 0, height: 0 });
}

#[test]
fn tiles_are_clipped_at_edges() {
    let plan = tiles(70, 40);
    assert_eq!(plan.len(), 6);
    assert_eq!(plan[2], Tile { x: 64, y: 0, width: 6, height: 32 });
    assert_eq!(plan[4], Tile { x: 32, y: 32, width: 32, height: 8 });
    assert_eq!(plan[5], Tile { x: 64, y: 32, width: 6, height: 8 });
    assert_eq!(TILE_SIZE, 32);
}

#[test]
fn tiles_of_empty_image() {
    assert_eq!(tiles(0, 0), vec![Tile { x: 0, y: 0, width: 0, height: 0 }]);
    assert!(all_positions(0, 9).is_empty());
}

#[test]
fn tile_walks_hand_out_each_pixel_once() {
    let (width, height) = (70u32, 40u32);
    let mut seen = vec![0u32; (width * height) as usize];
    let positions = all_positions(width, height);
    assert_eq!(positions.len(), (width * height) as usize);
    for (x, y) in positions {
        assert!(x < width && y < height);
        seen[(y * width + x) as usize] += 1;
    }
    assert!(seen.iter().all(|&n| n == 1));
}

#[test]
fn assembly_is_order_independent_and_misses_nothing() {
    let (width, height) = (45u32, 33u32);
    let forward = all_positions(width, height);
    let mut backward = forward.clone();
    backward.reverse();
    let mut interleaved = Vec::new();
    let (even, odd): (Vec<_>, Vec<_>) = forward.iter().enumerate().partition(|(i, _)| i % 2 == 0);
    interleaved.extend(odd.into_iter().map(|(_, p)| *p));
    interleaved.extend(even.into_iter().map(|(_, p)| *p));

    let (a, misses_a) = assemble(width, height, &forward);
    let (b, misses_b) = assemble(width, height, &backward);
    let (c, misses_c) = assemble(width, height, &interleaved);
    assert_eq!((misses_a, misses_b, misses_c), (0, 0, 0));
    assert_eq!(a.dimensions(), (width, height));
    assert_eq!(a.as_bytes(), b.as_bytes());
    assert_eq!(a.as_bytes(), c.as_bytes());
    assert_eq!(a.get_pixel(44, 32), Rgba([44, 32, 76, 255]));
}

#[test]
fn out_of_bounds_result_is_a_miss() {
    let mut frame = Assembler::new(10, 10);
    frame.receive(10, 0, (1, 2, 3, 4));
    frame.receive(0, 10, (1, 2, 3, 4));
    frame.receive(3, 4, (9, 9, 9, 9));
    assert_eq!(frame.misses, 2);
    assert_eq!(frame.received, 3);
    let img = frame.finish().expect("image");
    assert_eq!(img.get_pixel(3, 4), Rgba([9, 9, 9, 9]));
    assert_eq!(img.get_pixel(0, 0), Rgba([0, 0, 0, 0]));
}

#[test]
fn later_result_overwrites_pixel() {
    let mut frame = Assembler::new(2, 1);
    frame.receive(1, 0, (1, 1, 1, 1));
    frame.receive(1, 0, (2, 2, 2, 2));
    let img = frame.finish().expect("image");
    assert_eq!(img.get_pixel(1, 0), Rgba([2, 2, 2, 2]));
}

#[test]
fn progress_is_reported_every_interval() {
    let mut frame = Assembler::new(20, 5);
    let mut reports = Vec::new();
    for i in 0..100u32 {
        if let Some(p) = frame.receive(i % 20, i / 20, (0, 0, 0, 255)) {
            reports.push(p);
        }
    }
    assert_eq!(PROGRESS_INTERVAL, 40);
    assert_eq!(
        reports,
        vec![
            Progress { completed: 0, total: 100, misses: 0 },
            Progress { completed: 40, total: 100, misses: 0 },
            Progress { completed: 80, total: 100, misses: 0 },
        ]
    );
}

#[test]
fn progress_report_counts_earlier_misses() {
    let mut frame = Assembler::new(1, 1);
    for _ in 0..40 {
        frame.receive(5, 5, (0, 0, 0, 0));
    }
    let report = frame.receive(0, 0, (0, 0, 0, 0));
    assert_eq!(report, Some(Progress { completed: 40, total: 1, misses: 40 }));
}

#[test]
fn status_text_plain_and_with_misses() {
    let plain = Progress { completed: 3, total: 10, misses: 0 };
    assert_eq!(plain.status_text(), "Raytracing...");
    let missed = Progress { completed: 3, total: 10, misses: 1207 };
    assert_eq!(missed.status_text(), "Raytracing (1207 missed/overshot pixels)...");
}

#[test]
fn worker_bounds() {
    assert_eq!(bounded_workers(4), 4);
    assert_eq!(bounded_workers(30), 30);
    assert_eq!(bounded_workers(64), MAX_WORKERS);
    let n = worker_count();
    assert!(n >= 1 && n <= MAX_WORKERS);
}

fn uniform_texture(color: [u8; 4]) -> Texture {
    let img = RgbaImage::from_pixel(4, 4, Rgba(color));
    Texture(DynamicImage::ImageRgba8(img), TextureFiltering::Nearest, TextureMode::Repeat)
}

fn unpack(argb: u32) -> (u8, u8, u8, u8) {
    ((argb >> 16) as u8, (argb >> 8) as u8, argb as u8, (argb >> 24) as u8)
}

// A pinhole camera at the origin looking down -z, a unit sphere five units in
// front of it.
fn trace(sphere: &Texture, background: &Texture, x: u32, y: u32) -> (u8, u8, u8, u8) {
    let size = 10.0f64;
    let half = (30.0f64.to_radians() / 2.0).tan();
    let dx = ((x as f64 + 0.5) / size * 2.0 - 1.0) * half;
    let dy = (1.0 - (y as f64 + 0.5) / size * 2.0) * half;
    let len = (dx * dx + dy * dy + 1.0).sqrt();
    let dir = [dx / len, dy / len, -1.0 / len];
    let center = [0.0, 0.0, -5.0];
    let adj = dir[0] * center[0] + dir[1] * center[1] + dir[2] * center[2];
    let d2 = 25.0 - adj * adj;
    if d2 <= 1.0 {
        unpack(sphere.get_pixel(x % 4, y % 4))
    } else {
        unpack(background.get_pixel(x, y))
    }
}

fn render_scene() -> DynamicImage {
    let sphere = uniform_texture([200, 10, 10, 255]);
    let background = uniform_texture([0, 0, 80, 255]);
    let mut frame = Assembler::new(10, 10);
    let mut plan = tiles(10, 10);
    plan.reverse();
    for tile in plan {
        for (x, y) in tile.pixels().positions() {
            frame.receive(x, y, trace(&sphere, &background, x, y));
        }
    }
    assert_eq!(frame.misses, 0);
    frame.finish().expect("image")
}

#[test]
fn flat_scene_renders_disc() {
    let img = render_scene();
    assert_eq!(img.dimensions(), (10, 10));
    let sphere = Rgba([200, 10, 10, 255]);
    let background = Rgba([0, 0, 80, 255]);
    assert_eq!(img.get_pixel(4, 4), sphere);
    assert_eq!(img.get_pixel(5, 5), sphere);
    assert_eq!(img.get_pixel(0, 0), background);
    assert_eq!(img.get_pixel(9, 9), background);
    assert_eq!(img.get_pixel(0, 9), background);
    let disc = img.pixels().filter(|(_, _, p)| *p == sphere).count();
    let rest = img.pixels().filter(|(_, _, p)| *p == background).count();
    assert!(disc > 0 && rest > 0);
    assert_eq!(disc + rest, 100);
    let again = render_scene();
    assert_eq!(img.as_bytes(), again.as_bytes());
}
