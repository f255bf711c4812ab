use vstd::arithmetic::div_mod::{lemma_fundamental_div_mod, lemma_fundamental_div_mod_converse};
use vstd::prelude::*;

verus! {

/// The positions of a `width` x `height` rectangle whose top-left corner is
/// `(sx, sy)`, in row order: left to right, then top to bottom.
pub open spec fn rect_walk(width: nat, height: nat, sx: nat, sy: nat) -> Seq<(u32, u32)> {
    Seq::new(width * height, |i: int| ((sx + i % (width as int)) as u32, (sy + i / (width as int)) as u32))
}

/// Whether `(x, y)` lies in the rectangle at `(sx, sy)` of the given size.
pub open spec fn in_rect(width: nat, height: nat, sx: nat, sy: nat, x: nat, y: nat) -> bool {
    sx <= x < sx + width && sy <= y < sy + height
}

/// What a walk over a rectangle is, as a value: its size, its corner, and how
/// many of its positions have been handed out.
pub struct WalkState {
    pub width: nat,
    pub height: nat,
    pub sx: nat,
    pub sy: nat,
    pub emitted: nat,
}

impl WalkState {
    pub open spec fn total(self) -> nat {
        self.width * self.height
    }

    /// Every position of the rectangle can be written as a pair of `u32`.
    pub open spec fn fits(self) -> bool {
        self.width == 0 || self.height == 0 || (self.sx + self.width <= u32::MAX + 1 && self.sy
            + self.height <= u32::MAX + 1)
    }

    pub open spec fn positions(self) -> Seq<(u32, u32)> {
        rect_walk(self.width, self.height, self.sx, self.sy)
    }

    /// The positions not yet handed out.
    pub open spec fn remaining(self) -> Seq<(u32, u32)> {
        self.positions().subrange(self.emitted as int, self.total() as int)
    }
}

/// Walks the positions of a rectangle of pixels in row order.
#[derive(Debug)]
pub struct DimIterator<T> {
    width: T,
    height: T,
    x: T,
    y: T,
    sx: T,
    sy: T,
    started: bool,
    done: bool,
}

impl View for DimIterator<u32> {
    type V = WalkState;

    closed spec fn view(&self) -> WalkState {
        let w = self.width as nat;
        let h = self.height as nat;
        WalkState {
            width: w,
            height: h,
            sx: self.sx as nat,
            sy: self.sy as nat,
            emitted: if self.done {
                w * h
            } else if !self.started {
                0
            } else {
                (self.y as nat) * w + (self.x as nat) + 1
            },
        }
    }
}

impl DimIterator<u32> {
    /// The internal position agrees with the number of positions handed out.
    pub closed spec fn wf(&self) -> bool {
        &&& self.started && !self.done ==> {
            &&& self.x < self.width
            &&& self.y < self.height
        }
        &&& !self.started ==> self.x == 0 && self.y == 0
    }

    /// A walk over the `width` x `height` rectangle whose corner is `(x, y)`.
    pub fn create(width: u32, height: u32, x: u32, y: u32) -> (r: Self)
        ensures
            r.wf(),
            r@ == (WalkState {
                width: width as nat,
                height: height as nat,
                sx: x as nat,
                sy: y as nat,
                emitted: 0,
            }),
    {
        Self { width, height, x: 0, y: 0, sx: x, sy: y, started: false, done: false }
    }

    /// A walk over the `width` x `height` rectangle whose corner is the origin.
    pub fn new(width: u32, height: u32) -> (r: Self)
        ensures
            r.wf(),
            r@ == (WalkState {
                width: width as nat,
                height: height as nat,
                sx: 0,
                sy: 0,
                emitted: 0,
            }),
    {
        Self { width, height, x: 0, y: 0, sx: 0, sy: 0, started: false, done: false }
    }

    /// Hands out the next position of the walk, or `None` once all were.
    pub fn next(&mut self) -> (r: Option<(u32, u32)>)
        requires
            old(self).wf(),
            old(self)@.fits(),
        ensures
            final(self).wf(),
            final(self)@.width == old(self)@.width,
            final(self)@.height == old(self)@.height,
            final(self)@.sx == old(self)@.sx,
            final(self)@.sy == old(self)@.sy,
            old(self)@.emitted < old(self)@.total() ==> {
                &&& r == Some(old(self)@.positions()[old(self)@.emitted as int])
                &&& final(self)@.emitted == old(self)@.emitted + 1
            },
            old(self)@.emitted >= old(self)@.total() ==> {
                &&& r is None
                &&& final(self)@.emitted == old(self)@.emitted
            },
    {
        let ghost w = self.width as int;
        let ghost h = self.height as int;
        proof {
            if self.started && !self.done {
                lemma_row_index_bound(self.x as int, self.y as int, w, h);
            }
        }
        if self.done {
            return None;
        }
        if self.width == 0 || self.height == 0 {
            self.done = true;
            proof {
                vstd::arithmetic::mul::lemma_mul_basics(w);
                vstd::arithmetic::mul::lemma_mul_basics(h);
            }
            return None;
        }
        if !self.started {
            self.started = true;
            proof {
                lemma_row_position(0, 0, w);
                vstd::arithmetic::mul::lemma_mul_strictly_positive(w, h);
            }
            return Some((self.sx, self.sy));
        }
        self.x = self.x + 1;
        if self.x >= self.width {
            self.x = 0;
            proof {
                assert((self.y as int + 1) * w == self.y as int * w + w) by (nonlinear_arith);
            }
            if self.y + 1 >= self.height {
                self.done = true;
                proof {
                    assert(self.y as int + 1 == h);
                    assert(h * w == w * h) by (nonlinear_arith);
                }
                return None;
            }
            self.y = self.y + 1;
        }
        proof {
            lemma_row_position(self.x as int, self.y as int, w);
            lemma_row_index_bound(self.x as int, self.y as int, w, h);
        }
        Some((self.sx + self.x, self.sy + self.y))
    }

    /// The positions that the walk has yet to hand out, in order.
    pub fn positions(self) -> (r: Vec<(u32, u32)>)
        requires
            self.wf(),
            self@.fits(),
        ensures
            r@ == self@.remaining(),
    {
        let ghost init = self@;
        let ghost start = self@.emitted;
        let ghost total = self@.total();
        proof {
            lemma_emitted_bound(&self);
        }
        let mut it = self;
        let mut out: Vec<(u32, u32)> = Vec::new();
        loop
            invariant
                it.wf(),
                it@.fits(),
                it@.width == init.width,
                it@.height == init.height,
                it@.sx == init.sx,
                it@.sy == init.sy,
                init == self@,
                start == init.emitted,
                total == init.total(),
                start <= it@.emitted <= total,
                total == it@.total(),
                out@ == init.positions().subrange(start as int, it@.emitted as int),
            decreases total - it@.emitted,
        {
            let ghost before: int = it@.emitted as int;
            match it.next() {
                Some(p) => {
                    proof {
                        assert(out@.push(p) =~= init.positions().subrange(
                            start as int,
                            before + 1,
                        ));
                    }
                    out.push(p);
                },
                None => {
                    assert(out@ =~= init.remaining());
                    return out;
                },
            }
        }
    }
}

proof fn lemma_emitted_bound(it: &DimIterator<u32>)
    requires
        it.wf(),
    ensures
        it@.emitted <= it@.total(),
{
    if it.started && !it.done {
        lemma_row_index_bound(it.x as int, it.y as int, it.width as int, it.height as int);
    }
}

/// The index `y * w + x` of a position in a row of width `w` gives back the
/// position by division and remainder.
pub(crate) proof fn lemma_row_position(x: int, y: int, w: int)
    requires
        0 <= x < w,
        0 <= y,
    ensures
        (y * w + x) % w == x,
        (y * w + x) / w == y,
{
    lemma_fundamental_div_mod_converse(y * w + x, w, y, x);
}

pub(crate) proof fn lemma_row_index_bound(x: int, y: int, w: int, h: int)
    requires
        0 <= x < w,
        0 <= y < h,
    ensures
        y * w + x + 1 <= w * h,
{
    assert(y * w + x + 1 <= (y + 1) * w) by (nonlinear_arith)
        requires
            0 <= x < w,
    ;
    assert((y + 1) * w <= h * w) by (nonlinear_arith)
        requires
            y + 1 <= h,
            0 <= w,
    ;
    assert(h * w == w * h) by (nonlinear_arith);
}

/// Position `i` of a row-order walk over a `width` x `height` rectangle
/// lies in that rectangle.
pub(crate) proof fn lemma_walk_position_in_rect(width: nat, height: nat, sx: nat, sy: nat, i: int)
    requires
        0 <= i < width * height,
        sx + width <= u32::MAX + 1,
        sy + height <= u32::MAX + 1,
    ensures
        in_rect(
            width,
            height,
            sx,
            sy,
            rect_walk(width, height, sx, sy)[i].0 as nat,
            rect_walk(width, height, sx, sy)[i].1 as nat,
        ),
        rect_walk(width, height, sx, sy)[i].0 == sx + i % (width as int),
        rect_walk(width, height, sx, sy)[i].1 == sy + i / (width as int),
{
    let w = width as int;
    let h = height as int;
    assert(w > 0) by (nonlinear_arith)
        requires
            0 <= i < w * h,
            h >= 0,
    ;
    lemma_fundamental_div_mod(i, w);
    let q = i / w;
    let r = i % w;
    assert(q < h) by (nonlinear_arith)
        requires
            i == w * q + r,
            0 <= r,
            i < w * h,
            w > 0,
    ;
    assert(q >= 0) by (nonlinear_arith)
        requires
            i == w * q + r,
            r < w,
            i >= 0,
            w > 0,
    ;
}

/// A walk over a rectangle hands out every position of the rectangle, each
/// exactly once, and no position outside it.
pub proof fn lemma_rect_walk_exact(width: nat, height: nat, sx: nat, sy: nat)
    requires
        sx + width <= u32::MAX + 1,
        sy + height <= u32::MAX + 1,
    ensures
        forall|i: int|
            0 <= i < width * height ==> in_rect(
                width,
                height,
                sx,
                sy,
                (#[trigger] rect_walk(width, height, sx, sy)[i]).0 as nat,
                rect_walk(width, height, sx, sy)[i].1 as nat,
            ),
        forall|i: int, j: int|
            0 <= i < width * height && 0 <= j < width * height && #[trigger] rect_walk(
                width,
                height,
                sx,
                sy,
            )[i] == #[trigger] rect_walk(width, height, sx, sy)[j] ==> i == j,
        forall|x: nat, y: nat|
            #[trigger] in_rect(width, height, sx, sy, x, y) ==> exists|i: int|
                0 <= i < width * height && rect_walk(width, height, sx, sy)[i] == (x as u32, y as u32),
{
    let w = width as int;
    let walk = rect_walk(width, height, sx, sy);
    assert forall|i: int| 0 <= i < width * height implies in_rect(
        width,
        height,
        sx,
        sy,
        (#[trigger] walk[i]).0 as nat,
        walk[i].1 as nat,
    ) by {
        lemma_walk_position_in_rect(width, height, sx, sy, i);
    }
    assert forall|i: int, j: int|
        0 <= i < width * height && 0 <= j < width * height && #[trigger] walk[i]
            == #[trigger] walk[j] implies i == j by {
        lemma_walk_position_in_rect(width, height, sx, sy, i);
        lemma_walk_position_in_rect(width, height, sx, sy, j);
        lemma_fundamental_div_mod(i, w);
        lemma_fundamental_div_mod(j, w);
    }
    assert forall|x: nat, y: nat| #[trigger] in_rect(width, height, sx, sy, x, y) implies exists|i: int|
        0 <= i < width * height && walk[i] == (x as u32, y as u32) by {
        let i = (y - sy) * w + (x - sx);
        lemma_row_position(x - sx, y - sy, w);
        lemma_row_index_bound(x - sx, y - sy, w, height as int);
        assert(walk[i] == (x as u32, y as u32));
    }
}

} // verus!
