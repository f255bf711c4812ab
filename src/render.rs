//! The tiled render engine, less its threads: how an image is cut into tiles
//! of work, how many workers share them, and how the pixel results that come
//! back in any order are assembled into the output image with a count of the
//! results that fell outside it and reports of progress.
use crate::raster::{image_size, image_texels, rgba_at, rgba_image_from_raw, Rgba8};
use crate::utils::{
    in_rect, lemma_rect_walk_exact, lemma_row_index_bound, lemma_row_position, DimIterator,
    WalkState,
};
use vstd::arithmetic::div_mod::{lemma_fundamental_div_mod, lemma_fundamental_div_mod_converse};
use vstd::prelude::*;

verus! {

/// The side of the square tiles that the image is cut into.
pub const TILE_SIZE: u32 = 32;

/// The most workers that a render uses, whatever the machine offers.
pub const MAX_WORKERS: usize = 30;

/// A progress report is due for every this many results received.
pub const PROGRESS_INTERVAL: u64 = 40;

/// A rectangle of the image, handed to one worker as a unit.
#[derive(Clone, Copy, Debug, PartialEq, Eq, Structural)]
pub struct Tile {
    pub x: u32,
    pub y: u32,
    pub width: u32,
    pub height: u32,
}

pub open spec fn min_int(a: int, b: int) -> int {
    if a < b {
        a
    } else {
        b
    }
}

/// Number of tile columns for an image of the given width: one more than
/// the number of whole tiles, so the last column may be narrow or empty.
pub open spec fn tile_columns(width: u32) -> nat {
    (1 + width / TILE_SIZE) as nat
}

/// Number of tile rows for an image of the given height.
pub open spec fn tile_rows(height: u32) -> nat {
    (1 + height / TILE_SIZE) as nat
}

/// The tile in column `cx` and row `cy`, clipped to the image.
pub open spec fn tile_at(width: u32, height: u32, cx: int, cy: int) -> Tile {
    let x = TILE_SIZE * cx;
    let y = TILE_SIZE * cy;
    Tile {
        x: x as u32,
        y: y as u32,
        width: min_int(TILE_SIZE as int, width - x) as u32,
        height: min_int(TILE_SIZE as int, height - y) as u32,
    }
}

/// The tiles of a `width` x `height` image, row by row, each row left to
/// right.
pub open spec fn tile_plan(width: u32, height: u32) -> Seq<Tile> {
    let cols = tile_columns(width) as int;
    Seq::new(tile_rows(height) * tile_columns(width), |t: int| tile_at(width, height, t % cols, t / cols))
}

impl Tile {
    /// Whether pixel `(x, y)` lies in the tile.
    pub open spec fn contains(self, x: int, y: int) -> bool {
        self.x <= x < self.x + self.width && self.y <= y < self.y + self.height
    }

    /// The walk over the tile's pixels that this tile starts with.
    pub open spec fn walk(self) -> WalkState {
        WalkState {
            width: self.width as nat,
            height: self.height as nat,
            sx: self.x as nat,
            sy: self.y as nat,
            emitted: 0,
        }
    }

    /// A walk over the tile's pixels, in row order.
    pub fn pixels(&self) -> (r: DimIterator<u32>)
        ensures
            r.wf(),
            r@ == self.walk(),
    {
        DimIterator::create(self.width, self.height, self.x, self.y)
    }
}

proof fn lemma_tile_in_image(width: u32, height: u32, cx: int, cy: int)
    requires
        0 <= cx < tile_columns(width),
        0 <= cy < tile_rows(height),
    ensures
        TILE_SIZE * cx <= width,
        TILE_SIZE * cy <= height,
        tile_at(width, height, cx, cy).x == TILE_SIZE * cx,
        tile_at(width, height, cx, cy).y == TILE_SIZE * cy,
        tile_at(width, height, cx, cy).x + tile_at(width, height, cx, cy).width <= width,
        tile_at(width, height, cx, cy).y + tile_at(width, height, cx, cy).height <= height,
{
    assert(TILE_SIZE * cx <= width) by (nonlinear_arith)
        requires
            0 <= cx <= width / 32,
            width >= 0,
    {
        assert(32 * (width / 32) <= width);
    }
    assert(TILE_SIZE * cy <= height) by (nonlinear_arith)
        requires
            0 <= cy <= height / 32,
            height >= 0,
    {
        assert(32 * (height / 32) <= height);
    }
}

/// The tiles of a `width` x `height` image, in the order of `tile_plan`.
pub fn tiles(width: u32, height: u32) -> (r: Vec<Tile>)
    ensures
        r@ == tile_plan(width, height),
{
    let num_columns: u32 = 1 + width / TILE_SIZE;
    let num_rows: u32 = 1 + height / TILE_SIZE;
    let ghost cols = num_columns as int;
    let mut out: Vec<Tile> = Vec::new();
    let mut cy: u32 = 0;
    while cy < num_rows
        invariant
            num_columns == tile_columns(width),
            num_rows == tile_rows(height),
            cols == num_columns,
            cy <= num_rows,
            out@.len() == cy * cols,
            forall|t: int| 0 <= t < out@.len() ==> #[trigger] out@[t] == tile_at(width, height, t % cols, t / cols),
        decreases num_rows - cy,
    {
        let mut cx: u32 = 0;
        while cx < num_columns
            invariant
                num_columns == tile_columns(width),
                num_rows == tile_rows(height),
                cols == num_columns,
                cy < num_rows,
                cx <= num_columns,
                out@.len() == cy * cols + cx,
                forall|t: int| 0 <= t < out@.len() ==> #[trigger] out@[t] == tile_at(width, height, t % cols, t / cols),
            decreases num_columns - cx,
        {
            proof {
                lemma_tile_in_image(width, height, cx as int, cy as int);
                lemma_row_position(cx as int, cy as int, cols);
            }
            let x = TILE_SIZE * cx;
            let y = TILE_SIZE * cy;
            let x_size = if TILE_SIZE < width - x { TILE_SIZE } else { width - x };
            let y_size = if TILE_SIZE < height - y { TILE_SIZE } else { height - y };
            out.push(Tile { x, y, width: x_size, height: y_size });
            cx = cx + 1;
        }
        proof {
            assert((cy + 1) * cols == cy * cols + cols) by (nonlinear_arith);
        }
        cy = cy + 1;
    }
    proof {
        assert(out@ =~= tile_plan(width, height));
    }
    out
}

/// How many workers to use when the machine offers `available`: as many,
/// up to `MAX_WORKERS`.
pub fn bounded_workers(available: usize) -> (r: usize)
    ensures
        r == min_int(available as int, MAX_WORKERS as int),
{
    if available < MAX_WORKERS {
        available
    } else {
        MAX_WORKERS
    }
}

/// Relies on `num_cpus::get`, the number of logical CPUs available to this
/// process, which is at least one.
#[verifier::external_body]
fn available_cpus() -> (r: usize)
    ensures
        r >= 1,
{
    num_cpus::get()
}

/// The number of workers for a render on this machine: the logical CPUs
/// available, up to `MAX_WORKERS`.
pub fn worker_count() -> (r: usize)
    ensures
        1 <= r <= MAX_WORKERS,
{
    bounded_workers(available_cpus())
}

/// A pixel result as it comes back from a worker: its position and colour.
pub type PixelResult = (u32, u32, Rgba8);

/// The state of an image being assembled: its size, its pixels row by row,
/// how many results have come in and how many of them fell outside it.
pub struct Frame {
    pub width: nat,
    pub height: nat,
    pub pixels: Seq<Rgba8>,
    pub received: nat,
    pub misses: nat,
}

/// A `width` x `height` image before any result came in: all pixels
/// transparent black.
pub open spec fn blank_frame(width: nat, height: nat) -> Frame {
    Frame {
        width,
        height,
        pixels: Seq::new(width * height, |i: int| (0u8, 0u8, 0u8, 0u8)),
        received: 0,
        misses: 0,
    }
}

/// Whether a result's position lies in a `width` x `height` image.
pub open spec fn in_image(m: PixelResult, width: nat, height: nat) -> bool {
    m.0 < width && m.1 < height
}

/// Where the pixel `(x, y)` stands among the pixels of a frame of the
/// given width.
pub open spec fn pixel_index(width: nat, x: int, y: int) -> int {
    y * width + x
}

/// One result taken in: written at its position if that lies in the image,
/// counted as a miss otherwise.
pub open spec fn frame_step(f: Frame, m: PixelResult) -> Frame {
    if in_image(m, f.width, f.height) {
        Frame {
            pixels: f.pixels.update(pixel_index(f.width, m.0 as int, m.1 as int), m.2),
            received: f.received + 1,
            ..f
        }
    } else {
        Frame { received: f.received + 1, misses: f.misses + 1, ..f }
    }
}

/// The results taken in one after the other.
pub open spec fn assemble(f: Frame, results: Seq<PixelResult>) -> Frame
    decreases results.len(),
{
    if results.len() == 0 {
        f
    } else {
        frame_step(assemble(f, results.drop_last()), results.last())
    }
}

/// A report of progress: how many results of how many came in, and how
/// many of them missed the image.
#[derive(Clone, Copy, Debug, PartialEq, Eq, Structural)]
pub struct Progress {
    pub completed: u64,
    pub total: u64,
    pub misses: u64,
}

/// The digit `d` as a character.
pub open spec fn digit_char(d: nat) -> char {
    seq!['0', '1', '2', '3', '4', '5', '6', '7', '8', '9'][d as int]
}

/// `n` written in decimal, without sign or leading zeros.
pub open spec fn decimal(n: nat) -> Seq<char>
    decreases n,
{
    if n < 10 {
        seq![digit_char(n)]
    } else {
        decimal(n / 10).push(digit_char(n % 10))
    }
}

/// Relies on `ToString` for `u64`, which writes the number in decimal, with
/// no sign and no leading zeros.
#[verifier::external_body]
fn decimal_text(n: u64) -> (r: String)
    ensures
        r@ == decimal(n as nat),
{
    n.to_string()
}

impl Progress {
    /// The status line shown with this report.
    pub open spec fn status(self) -> Seq<char> {
        if self.misses > 0 {
            "Raytracing ("@ + decimal(self.misses as nat) + " missed/overshot pixels)..."@
        } else {
            "Raytracing..."@
        }
    }

    /// The status line: plain while every result so far landed in the
    /// image, with the number of misses once there are any.
    pub fn status_text(&self) -> (r: String)
        ensures
            r@ == self.status(),
    {
        if self.misses > 0 {
            let mut text = String::from_str("Raytracing (");
            let count = decimal_text(self.misses);
            text.append(count.as_str());
            text.append(" missed/overshot pixels)...");
            text
        } else {
            String::from_str("Raytracing...")
        }
    }
}

/// Takes in pixel results in any order and builds the output image.
pub struct Assembler {
    pub width: u32,
    pub height: u32,
    pub pixels: Vec<Rgba8>,
    pub received: u64,
    pub misses: u64,
}

impl View for Assembler {
    type V = Frame;

    open spec fn view(&self) -> Frame {
        Frame {
            width: self.width as nat,
            height: self.height as nat,
            pixels: self.pixels@,
            received: self.received as nat,
            misses: self.misses as nat,
        }
    }
}

impl Assembler {
    /// One pixel per position of the image, and room for its bytes.
    pub open spec fn wf(&self) -> bool {
        &&& self.pixels@.len() == self.width * self.height
        &&& 4 * (self.width as int) * (self.height as int) <= usize::MAX
        &&& self.misses <= self.received
    }

    /// The report due when the next result comes in, if one is.
    pub open spec fn report_due(&self) -> Option<Progress> {
        if self.received % PROGRESS_INTERVAL == 0 {
            Some(
                Progress {
                    completed: self.received,
                    total: (self.width * self.height) as u64,
                    misses: self.misses,
                },
            )
        } else {
            None
        }
    }

    /// An empty `width` x `height` image: every pixel transparent black.
    pub fn new(width: u32, height: u32) -> (r: Self)
        requires
            4 * (width as int) * (height as int) <= usize::MAX,
        ensures
            r.wf(),
            r@ == blank_frame(width as nat, height as nat),
    {
        let ghost w = width as int;
        let ghost h = height as int;
        assert(w * h <= 4 * w * h) by (nonlinear_arith)
            requires
                w >= 0,
                h >= 0,
        ;
        let total: usize = width as usize * height as usize;
        let mut pixels: Vec<Rgba8> = Vec::new();
        let mut i: usize = 0;
        while i < total
            invariant
                total == w * h,
                i <= total,
                pixels@ =~= Seq::new(i as nat, |k: int| (0u8, 0u8, 0u8, 0u8)),
            decreases total - i,
        {
            pixels.push((0, 0, 0, 0));
            i = i + 1;
        }
        Assembler { width, height, pixels, received: 0, misses: 0 }
    }

    /// Takes in one result: writes it at its position if that lies in the
    /// image, counts a miss otherwise. Returns the progress report due for
    /// every `PROGRESS_INTERVAL` results, made before this one is counted.
    pub fn receive(&mut self, x: u32, y: u32, color: Rgba8) -> (r: Option<Progress>)
        requires
            old(self).wf(),
            old(self).received < u64::MAX,
        ensures
            final(self).wf(),
            final(self)@ == frame_step(old(self)@, (x, y, color)),
            r == old(self).report_due(),
    {
        let ghost w = self.width as int;
        let ghost h = self.height as int;
        let report = if self.received % PROGRESS_INTERVAL == 0 {
            proof {
                assert(w * h <= u64::MAX) by (nonlinear_arith)
                    requires
                        0 <= w <= u32::MAX,
                        0 <= h <= u32::MAX,
                ;
            }
            Some(
                Progress {
                    completed: self.received,
                    total: self.width as u64 * self.height as u64,
                    misses: self.misses,
                },
            )
        } else {
            None
        };
        if x < self.width && y < self.height {
            proof {
                lemma_row_index_bound(x as int, y as int, w, h);
                assert(w * h <= 4 * w * h) by (nonlinear_arith)
                    requires
                        w >= 0,
                        h >= 0,
                ;
            }
            let i = y as usize * self.width as usize + x as usize;
            self.pixels.set(i, color);
        } else {
            self.misses = self.misses + 1;
        }
        self.received = self.received + 1;
        report
    }

    /// The assembled image: `width` x `height`, each pixel as it was last
    /// written, transparent black where nothing was.
    pub fn finish(self) -> (r: Result<image::DynamicImage, &'static str>)
        requires
            self.wf(),
        ensures
            r matches Ok(img) && {
                &&& image_size(img) == (self.width, self.height)
                &&& forall|x: u32, y: u32|
                    x < self.width && y < self.height ==> #[trigger] image_texels(img)[(x, y)]
                        == self.pixels@[pixel_index(self.width as nat, x as int, y as int)]
            },
    {
        let ghost w = self.width as int;
        let ghost h = self.height as int;
        let ghost pixels = self.pixels@;
        assert(4 * w * h == 4 * (w * h)) by (nonlinear_arith);
        let total: usize = self.pixels.len();
        let mut bytes: Vec<u8> = Vec::new();
        let mut i: usize = 0;
        while i < total
            invariant
                total == pixels.len(),
                pixels == self.pixels@,
                4 * total <= usize::MAX,
                i <= total,
                bytes@.len() == 4 * i,
                forall|j: int| 0 <= j < i ==> #[trigger] rgba_at(bytes@, 4 * j) == pixels[j],
            decreases total - i,
        {
            let (red, green, blue, alpha) = self.pixels[i];
            let ghost before = bytes@;
            bytes.push(red);
            bytes.push(green);
            bytes.push(blue);
            bytes.push(alpha);
            proof {
                assert forall|j: int| 0 <= j < i + 1 implies #[trigger] rgba_at(bytes@, 4 * j)
                    == pixels[j] by {
                    if j < i {
                        assert(rgba_at(bytes@, 4 * j) == rgba_at(before, 4 * j));
                    }
                }
            }
            i = i + 1;
        }
        assert(4 * w * h == 4 * (w * h)) by (nonlinear_arith);
        match rgba_image_from_raw(self.width, self.height, bytes) {
            Some(img) => {
                proof {
                    assert forall|x: u32, y: u32| x < w && y < h implies #[trigger] image_texels(
                        img,
                    )[(x, y)] == pixels[pixel_index(w as nat, x as int, y as int)] by {
                        lemma_row_index_bound(x as int, y as int, w, h);
                    }
                }
                Ok(img)
            },
            None => Err("Couldn't create image"),
        }
    }
}

/// Whether `(x, y)` is a pixel of a `width` x `height` image.
pub open spec fn pixel_in(width: u32, height: u32, x: int, y: int) -> bool {
    0 <= x < width && 0 <= y < height
}

/// Tile `t` of the plan is the one in column `t % columns`, row
/// `t / columns`, and those lie in the plan's grid.
proof fn lemma_plan_entry(width: u32, height: u32, t: int)
    requires
        0 <= t < tile_plan(width, height).len(),
    ensures
        0 <= t % (tile_columns(width) as int) < tile_columns(width),
        0 <= t / (tile_columns(width) as int) < tile_rows(height),
        tile_plan(width, height)[t] == tile_at(
            width,
            height,
            t % (tile_columns(width) as int),
            t / (tile_columns(width) as int),
        ),
{
    let cols = tile_columns(width) as int;
    let rows = tile_rows(height) as int;
    lemma_fundamental_div_mod(t, cols);
    let q = t / cols;
    let r = t % cols;
    assert(0 <= q < rows) by (nonlinear_arith)
        requires
            t == cols * q + r,
            0 <= r < cols,
            0 <= t < rows * cols,
    ;
}

/// The tiles of the plan lie inside the image, and every pixel of the image
/// lies in exactly one of them.
pub proof fn lemma_tile_plan_partitions(width: u32, height: u32)
    ensures
        forall|t: int|
            0 <= t < tile_plan(width, height).len() ==> {
                &&& (#[trigger] tile_plan(width, height)[t]).x + tile_plan(width, height)[t].width
                    <= width
                &&& tile_plan(width, height)[t].y + tile_plan(width, height)[t].height <= height
            },
        forall|x: int, y: int|
            #[trigger] pixel_in(width, height, x, y) ==> exists|t: int|
                0 <= t < tile_plan(width, height).len() && #[trigger] tile_plan(
                    width,
                    height,
                )[t].contains(x, y),
        forall|t1: int, t2: int, x: int, y: int|
            0 <= t1 < tile_plan(width, height).len() && 0 <= t2 < tile_plan(width, height).len()
                && #[trigger] tile_plan(width, height)[t1].contains(x, y) && #[trigger] tile_plan(
                width,
                height,
            )[t2].contains(x, y) ==> t1 == t2,
{
    let plan = tile_plan(width, height);
    let cols = tile_columns(width) as int;
    assert forall|t: int| 0 <= t < plan.len() implies {
        &&& (#[trigger] plan[t]).x + plan[t].width <= width
        &&& plan[t].y + plan[t].height <= height
    } by {
        lemma_plan_entry(width, height, t);
        lemma_tile_in_image(width, height, t % cols, t / cols);
    }
    assert forall|x: int, y: int| #[trigger] pixel_in(width, height, x, y) implies exists|t: int|
        0 <= t < plan.len() && #[trigger] plan[t].contains(x, y) by {
        let cx = x / 32;
        let cy = y / 32;
        assert(cx <= width / 32 && cy <= height / 32) by (nonlinear_arith)
            requires
                0 <= x < width,
                0 <= y < height,
                cx == x / 32,
                cy == y / 32,
        ;
        lemma_tile_in_image(width, height, cx, cy);
        lemma_row_position(cx, cy, cols);
        lemma_row_index_bound(cx, cy, cols, tile_rows(height) as int);
        lemma_fundamental_div_mod(x, 32);
        lemma_fundamental_div_mod(y, 32);
        let rows = tile_rows(height) as int;
        assert(rows * cols == cols * rows) by (nonlinear_arith);
        let t = cy * cols + cx;
        assert(plan[t].contains(x, y));
    }
    assert forall|t1: int, t2: int, x: int, y: int|
        0 <= t1 < plan.len() && 0 <= t2 < plan.len() && #[trigger] plan[t1].contains(x, y)
            && #[trigger] plan[t2].contains(x, y) implies t1 == t2 by {
        lemma_plan_entry(width, height, t1);
        lemma_plan_entry(width, height, t2);
        lemma_tile_in_image(width, height, t1 % cols, t1 / cols);
        lemma_tile_in_image(width, height, t2 % cols, t2 / cols);
        lemma_fundamental_div_mod_converse(x, 32, t1 % cols, x - 32 * (t1 % cols));
        lemma_fundamental_div_mod_converse(x, 32, t2 % cols, x - 32 * (t2 % cols));
        lemma_fundamental_div_mod_converse(y, 32, t1 / cols, y - 32 * (t1 / cols));
        lemma_fundamental_div_mod_converse(y, 32, t2 / cols, y - 32 * (t2 / cols));
        lemma_fundamental_div_mod(t1, cols);
        lemma_fundamental_div_mod(t2, cols);
    }
}

/// The positions that the walk over tile `t` of the plan hands out.
pub open spec fn tile_positions(width: u32, height: u32, t: int) -> Seq<(u32, u32)> {
    tile_plan(width, height)[t].walk().positions()
}

/// Walking every tile of the plan hands out each pixel of the image exactly
/// once, and nothing outside the image: whatever the order in which the
/// tiles are walked, every pixel gets exactly one result.
pub proof fn lemma_tile_walks_cover_each_pixel_once(width: u32, height: u32)
    ensures
        forall|t: int, i: int|
            0 <= t < tile_plan(width, height).len() && 0 <= i < tile_positions(width, height, t).len()
                ==> pixel_in(
                width,
                height,
                (#[trigger] tile_positions(width, height, t)[i]).0 as int,
                tile_positions(width, height, t)[i].1 as int,
            ),
        forall|x: int, y: int|
            #[trigger] pixel_in(width, height, x, y) ==> exists|t: int, i: int|
                0 <= t < tile_plan(width, height).len() && 0 <= i < tile_positions(
                    width,
                    height,
                    t,
                ).len() && #[trigger] tile_positions(width, height, t)[i] == (x as u32, y as u32),
        forall|t1: int, i1: int, t2: int, i2: int|
            0 <= t1 < tile_plan(width, height).len() && 0 <= i1 < tile_positions(
                width,
                height,
                t1,
            ).len() && 0 <= t2 < tile_plan(width, height).len() && 0 <= i2 < tile_positions(
                width,
                height,
                t2,
            ).len() && #[trigger] tile_positions(width, height, t1)[i1] == #[trigger] tile_positions(
                width,
                height,
                t2,
            )[i2] ==> t1 == t2 && i1 == i2,
{
    let plan = tile_plan(width, height);
    lemma_tile_plan_partitions(width, height);
    assert forall|t: int| 0 <= t < plan.len() implies {
        let w = (#[trigger] plan[t]).walk();
        &&& w.sx + w.width <= u32::MAX + 1
        &&& w.sy + w.height <= u32::MAX + 1
        &&& tile_positions(width, height, t) == w.positions()
        &&& tile_positions(width, height, t).len() == w.width * w.height
    } by {}
    assert forall|t: int, i: int|
        0 <= t < plan.len() && 0 <= i < tile_positions(width, height, t).len() implies pixel_in(
        width,
        height,
        (#[trigger] tile_positions(width, height, t)[i]).0 as int,
        tile_positions(width, height, t)[i].1 as int,
    ) by {
        let w = plan[t].walk();
        lemma_rect_walk_exact(w.width, w.height, w.sx, w.sy);
        assert(in_rect(
            w.width,
            w.height,
            w.sx,
            w.sy,
            w.positions()[i].0 as nat,
            w.positions()[i].1 as nat,
        ));
    }
    assert forall|x: int, y: int| #[trigger] pixel_in(width, height, x, y) implies exists|t: int, i: int|
        0 <= t < plan.len() && 0 <= i < tile_positions(width, height, t).len()
            && #[trigger] tile_positions(width, height, t)[i] == (x as u32, y as u32) by {
        let t = choose|t: int| 0 <= t < plan.len() && #[trigger] plan[t].contains(x, y);
        let w = plan[t].walk();
        lemma_rect_walk_exact(w.width, w.height, w.sx, w.sy);
        assert(in_rect(w.width, w.height, w.sx, w.sy, x as nat, y as nat));
    }
    assert forall|t1: int, i1: int, t2: int, i2: int|
        0 <= t1 < plan.len() && 0 <= i1 < tile_positions(width, height, t1).len() && 0 <= t2
            < plan.len() && 0 <= i2 < tile_positions(width, height, t2).len()
            && #[trigger] tile_positions(width, height, t1)[i1] == #[trigger] tile_positions(
            width,
            height,
            t2,
        )[i2] implies t1 == t2 && i1 == i2 by {
        let w1 = plan[t1].walk();
        let w2 = plan[t2].walk();
        lemma_rect_walk_exact(w1.width, w1.height, w1.sx, w1.sy);
        lemma_rect_walk_exact(w2.width, w2.height, w2.sx, w2.sy);
        let p = tile_positions(width, height, t1)[i1];
        assert(in_rect(w1.width, w1.height, w1.sx, w1.sy, p.0 as nat, p.1 as nat));
        assert(in_rect(w2.width, w2.height, w2.sx, w2.sy, p.0 as nat, p.1 as nat));
        assert(plan[t1].contains(p.0 as int, p.1 as int));
        assert(plan[t2].contains(p.0 as int, p.1 as int));
    }
}

/// The position that a result is for.
pub open spec fn position(m: PixelResult) -> (u32, u32) {
    (m.0, m.1)
}

/// At most one result per position.
pub open spec fn distinct_positions(results: Seq<PixelResult>) -> bool {
    forall|i: int, j: int|
        0 <= i < results.len() && 0 <= j < results.len() && i != j ==> position(#[trigger] results[i])
            != position(#[trigger] results[j])
}

/// Taking in results keeps the frame's size and counts each of them.
proof fn lemma_assemble_shape(f: Frame, results: Seq<PixelResult>)
    requires
        f.pixels.len() == f.width * f.height,
    ensures
        assemble(f, results).width == f.width,
        assemble(f, results).height == f.height,
        assemble(f, results).pixels.len() == f.pixels.len(),
        assemble(f, results).received == f.received + results.len(),
        assemble(f, results).misses <= f.misses + results.len(),
    decreases results.len(),
{
    if results.len() > 0 {
        let rest = results.drop_last();
        let m = results.last();
        lemma_assemble_shape(f, rest);
        if in_image(m, f.width, f.height) {
            lemma_row_index_bound(m.0 as int, m.1 as int, f.width as int, f.height as int);
        }
    }
}

/// Two pixels of an image of width `width` stand at the same index only if
/// they are the same pixel.
proof fn lemma_pixel_index_injective(width: nat, x1: int, y1: int, x2: int, y2: int)
    requires
        0 <= x1 < width,
        0 <= x2 < width,
        0 <= y1,
        0 <= y2,
        pixel_index(width as nat, x1, y1) == pixel_index(width as nat, x2, y2),
    ensures
        x1 == x2 && y1 == y2,
{
    lemma_row_position(x1, y1, width as int);
    lemma_row_position(x2, y2, width as int);
}

/// Results that all lie in the image produce no miss: every one of them is
/// written into the image.
pub proof fn lemma_in_image_results_miss_nothing(
    width: u32,
    height: u32,
    results: Seq<PixelResult>,
)
    requires
        forall|i: int| 0 <= i < results.len() ==> in_image(#[trigger] results[i], width as nat, height as nat),
    ensures
        assemble(blank_frame(width as nat, height as nat), results).misses == 0,
        assemble(blank_frame(width as nat, height as nat), results).received == results.len(),
    decreases results.len(),
{
    if results.len() > 0 {
        let rest = results.drop_last();
        assert forall|i: int| 0 <= i < rest.len() implies in_image(
            #[trigger] rest[i],
            width as nat,
            height as nat,
        ) by {
            assert(rest[i] == results[i]);
        }
        lemma_in_image_results_miss_nothing(width, height, rest);
        lemma_assemble_shape(blank_frame(width as nat, height as nat), rest);
        assert(in_image(results[results.len() - 1], width as nat, height as nat));
    }
}

/// With at most one result per position, each pixel of the assembled image
/// holds the result for its position, and stays transparent black where no
/// result came.
pub proof fn lemma_assembled_pixels(width: u32, height: u32, results: Seq<PixelResult>)
    requires
        distinct_positions(results),
    ensures
        forall|i: int|
            0 <= i < results.len() && in_image(#[trigger] results[i], width as nat, height as nat) ==> assemble(
                blank_frame(width as nat, height as nat),
                results,
            ).pixels[pixel_index(width as nat, results[i].0 as int, results[i].1 as int)] == results[i].2,
        forall|x: u32, y: u32|
            x < width && y < height && (forall|i: int|
                0 <= i < results.len() ==> position(#[trigger] results[i]) != (x, y))
                ==> #[trigger] assemble(blank_frame(width as nat, height as nat), results).pixels[pixel_index(
                width as nat,
                x as int,
                y as int,
            )] == (0u8, 0u8, 0u8, 0u8),
    decreases results.len(),
{
    let blank = blank_frame(width as nat, height as nat);
    let w = width as int;
    let h = height as int;
    if results.len() == 0 {
        assert forall|x: u32, y: u32|
            x < width && y < height && (forall|i: int|
                0 <= i < results.len() ==> position(#[trigger] results[i]) != (x, y)) implies #[trigger] assemble(
            blank,
            results,
        ).pixels[pixel_index(width as nat, x as int, y as int)] == (0u8, 0u8, 0u8, 0u8) by {
            lemma_row_index_bound(x as int, y as int, w, h);
        }
    } else {
        let n = results.len() - 1;
        let rest = results.drop_last();
        let last = results[n];
        assert forall|i: int, j: int|
            0 <= i < rest.len() && 0 <= j < rest.len() && i != j implies position(#[trigger] rest[i])
            != position(#[trigger] rest[j]) by {
            assert(rest[i] == results[i] && rest[j] == results[j]);
        }
        lemma_assembled_pixels(width, height, rest);
        lemma_assemble_shape(blank, rest);
        let before = assemble(blank, rest);
        let after = assemble(blank, results);
        assert(after == frame_step(before, last));
        let li = pixel_index(width as nat, last.0 as int, last.1 as int);
        if in_image(last, width as nat, height as nat) {
            lemma_row_index_bound(last.0 as int, last.1 as int, w, h);
        }
        assert forall|i: int|
            0 <= i < results.len() && in_image(
                #[trigger] results[i],
                width as nat,
                height as nat,
            ) implies after.pixels[pixel_index(
            width as nat,
            results[i].0 as int,
            results[i].1 as int,
        )] == results[i].2 by {
            let k = pixel_index(width as nat, results[i].0 as int, results[i].1 as int);
            lemma_row_index_bound(results[i].0 as int, results[i].1 as int, w, h);
            if i < n {
                assert(rest[i] == results[i]);
                assert(before.pixels[k] == results[i].2);
                if in_image(last, width as nat, height as nat) {
                    if k == li {
                        lemma_pixel_index_injective(
                            width as nat,
                            results[i].0 as int,
                            results[i].1 as int,
                            last.0 as int,
                            last.1 as int,
                        );
                        assert(position(results[i]) == position(results[n]));
                    }
                    assert(after.pixels == before.pixels.update(li, last.2));
                }
            }
        }
        assert forall|x: u32, y: u32|
            x < width && y < height && (forall|i: int|
                0 <= i < results.len() ==> position(#[trigger] results[i]) != (x, y)) implies #[trigger] after.pixels[pixel_index(
            width as nat,
            x as int,
            y as int,
        )] == (0u8, 0u8, 0u8, 0u8) by {
            let k = pixel_index(width as nat, x as int, y as int);
            lemma_row_index_bound(x as int, y as int, w, h);
            assert forall|i: int| 0 <= i < rest.len() implies position(#[trigger] rest[i]) != (x, y) by {
                assert(rest[i] == results[i]);
            }
            assert(before.pixels[k] == (0u8, 0u8, 0u8, 0u8));
            assert(position(results[n]) != (x, y));
            if in_image(last, width as nat, height as nat) {
                if k == li {
                    lemma_pixel_index_injective(width as nat, x as int, y as int, last.0 as int, last.1 as int);
                }
            }
        }
    }
}

/// The assembled image does not depend on the order in which the results
/// come in: two orders of the same results, each with at most one result
/// per position, give the same pixels.
pub proof fn lemma_assembly_order_independent(
    width: u32,
    height: u32,
    a: Seq<PixelResult>,
    b: Seq<PixelResult>,
)
    requires
        distinct_positions(a),
        distinct_positions(b),
        a.to_multiset() == b.to_multiset(),
    ensures
        assemble(blank_frame(width as nat, height as nat), a).pixels == assemble(
            blank_frame(width as nat, height as nat),
            b,
        ).pixels,
{
    broadcast use vstd::seq_lib::group_to_multiset_ensures;

    let blank = blank_frame(width as nat, height as nat);
    let pa = assemble(blank, a).pixels;
    let pb = assemble(blank, b).pixels;
    lemma_assemble_shape(blank, a);
    lemma_assemble_shape(blank, b);
    lemma_assembled_pixels(width, height, a);
    lemma_assembled_pixels(width, height, b);
    assert forall|k: int| 0 <= k < pa.len() implies pa[k] == pb[k] by {
        let w = width as int;
        let h = height as int;
        assert(w > 0) by (nonlinear_arith)
            requires
                0 <= k < w * h,
                h >= 0,
        ;
        lemma_fundamental_div_mod(k, w);
        let x = k % w;
        let y = k / w;
        assert(y < h) by (nonlinear_arith)
            requires
                k == w * y + x,
                0 <= x,
                k < w * h,
                w > 0,
        ;
        assert(y >= 0) by (nonlinear_arith)
            requires
                k == w * y + x,
                x < w,
                k >= 0,
                w > 0,
        ;
        assert(k == pixel_index(width as nat, x, y));
        if exists|i: int| 0 <= i < a.len() && position(#[trigger] a[i]) == (x as u32, y as u32) {
            let i = choose|i: int| 0 <= i < a.len() && position(#[trigger] a[i]) == (x as u32, y as u32);
            assert(a.contains(a[i]));
            assert(b.to_multiset().count(a[i]) > 0);
            assert(b.contains(a[i]));
            let j = choose|j: int| 0 <= j < b.len() && b[j] == a[i];
            assert(in_image(a[i], width as nat, height as nat));
            assert(in_image(b[j], width as nat, height as nat));
        } else {
            assert forall|j: int| 0 <= j < b.len() implies position(#[trigger] b[j]) != (
                x as u32,
                y as u32,
            ) by {
                if position(b[j]) == (x as u32, y as u32) {
                    assert(b.contains(b[j]));
                    assert(a.to_multiset().count(b[j]) > 0);
                    assert(a.contains(b[j]));
                }
            }
            assert(pb[pixel_index(width as nat, (x as u32) as int, (y as u32) as int)] == (
                0u8,
                0u8,
                0u8,
                0u8,
            ));
            assert(pa[pixel_index(width as nat, (x as u32) as int, (y as u32) as int)] == (
                0u8,
                0u8,
                0u8,
                0u8,
            ));
        }
    }
    assert(pa =~= pb);
}

/// Whether a result is for a position that the walk over some tile of the
/// plan hands out.
pub open spec fn from_tile_walk(width: u32, height: u32, m: PixelResult) -> bool {
    exists|t: int, i: int|
        0 <= t < tile_plan(width, height).len() && 0 <= i < tile_positions(width, height, t).len()
            && #[trigger] tile_positions(width, height, t)[i] == position(m)
}

/// Since the tiles are clipped to the image, results for the positions that
/// the tile walks hand out never miss it, whatever their number and order.
pub proof fn lemma_tiled_results_miss_nothing(width: u32, height: u32, results: Seq<PixelResult>)
    requires
        forall|k: int| 0 <= k < results.len() ==> from_tile_walk(width, height, #[trigger] results[k]),
    ensures
        assemble(blank_frame(width as nat, height as nat), results).misses == 0,
{
    lemma_tile_walks_cover_each_pixel_once(width, height);
    assert forall|k: int| 0 <= k < results.len() implies in_image(
        #[trigger] results[k],
        width as nat,
        height as nat,
    ) by {
        assert(from_tile_walk(width, height, results[k]));
        let (t, i) = choose|t: int, i: int|
            0 <= t < tile_plan(width, height).len() && 0 <= i < tile_positions(width, height, t).len()
                && #[trigger] tile_positions(width, height, t)[i] == position(results[k]);
        assert(pixel_in(
            width,
            height,
            tile_positions(width, height, t)[i].0 as int,
            tile_positions(width, height, t)[i].1 as int,
        ));
    }
    lemma_in_image_results_miss_nothing(width, height, results);
}

} // verus!
