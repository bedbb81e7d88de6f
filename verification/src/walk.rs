//! The order in which the pixels of a tile are rendered, and when a tile
//! stops early.
//!
//! A tile is walked row by row from the top, each row from the left. After
//! every pixel the renderer says whether it was asked to stop; once it was,
//! the walk is over for good, with the pixels so far rendered.

use vstd::arithmetic::div_mod::{lemma_fundamental_div_mod, lemma_fundamental_div_mod_converse};
use vstd::prelude::*;

verus! {

/// What to do next in a tile.
#[derive(Clone, Copy, Debug, PartialEq, Eq, Structural)]
pub enum Step {
    /// Render pixel `(x, y)` of the tile.
    Pixel { x: u32, y: u32 },
    /// The tile is finished: mark its progress complete.
    Done,
}

/// A walk over the pixels of one tile.
#[derive(Clone, Copy, Debug, PartialEq, Eq, Structural)]
pub struct TileWalk {
    /// Width of the tile in pixels.
    pub width: u32,
    /// Height of the tile in pixels.
    pub height: u32,
    /// How many pixels were handed out so far.
    pub handed_out: u64,
    /// Whether the walk was stopped early.
    pub stopped: bool,
}

impl TileWalk {
    /// The walk hands out no further pixel: it was stopped, or every pixel
    /// of the tile was handed out.
    pub open spec fn finished(&self) -> bool {
        self.stopped || self.handed_out >= self.width * self.height
    }

    /// The step that follows, when the renderer reports `stop_requested`.
    pub open spec fn next_step(&self, stop_requested: bool) -> Step {
        if self.finished() || stop_requested {
            Step::Done
        } else {
            Step::Pixel {
                x: (self.handed_out % (self.width as u64)) as u32,
                y: (self.handed_out / (self.width as u64)) as u32,
            }
        }
    }

    /// Every pixel of the tile has exactly one turn: `(x, y)` is handed out
    /// after `y * width + x` others, and at no other time.
    pub proof fn lemma_one_turn_each(width: u32, height: u32, x: u32, y: u32, turn: u64)
        requires
            x < width,
            y < height,
        ensures
            (TileWalk { width, height, handed_out: turn, stopped: false }).next_step(false) == (
            Step::Pixel { x, y }) <==> turn == y * width + x,
    {
        let w = width as int;
        let t = turn as int;
        assert(y * w + x < w * height) by (nonlinear_arith)
            requires
                0 <= x < w,
                0 <= y < height,
        ;
        let walk = TileWalk { width, height, handed_out: turn, stopped: false };
        if t == y * w + x {
            lemma_fundamental_div_mod_converse(t, w, y as int, x as int);
            assert(turn % (width as u64) == x && turn / (width as u64) == y);
        } else if t < w * height {
            lemma_fundamental_div_mod(t, w);
            assert(t / w < height) by (nonlinear_arith)
                requires
                    t == w * (t / w) + t % w,
                    0 <= t % w < w,
                    t < w * height,
            ;
            assert(w * (t / w) == (t / w) * w) by (nonlinear_arith);
            assert(walk.next_step(false) == Step::Pixel { x: (t % w) as u32, y: (t / w) as u32 });
        }
    }

    /// A walk at the first pixel of a tile of `width` by `height` pixels.
    pub fn new(width: u32, height: u32) -> (walk: TileWalk)
        ensures
            walk == (TileWalk { width, height, handed_out: 0, stopped: false }),
    {
        TileWalk { width, height, handed_out: 0, stopped: false }
    }

    /// Hands out the next pixel, or ends the walk.
    ///
    /// `stop_requested` is what the renderer observed after the pixel
    /// before; for the first step it is `false`. A stop request ends the
    /// walk whatever is left of the tile.
    pub fn step(&mut self, stop_requested: bool) -> (step: Step)
        ensures
            step == old(self).next_step(stop_requested),
            final(self).width == old(self).width,
            final(self).height == old(self).height,
            final(self).stopped == (old(self).stopped || stop_requested),
            final(self).handed_out == if step is Done {
                old(self).handed_out
            } else {
                (old(self).handed_out + 1) as u64
            },
            step matches Step::Pixel { x, y } ==> x < old(self).width && y < old(self).height
                && old(self).handed_out == y * old(self).width + x,
    {
        assert(self.width * self.height <= u64::MAX) by (nonlinear_arith)
            requires
                self.width <= u32::MAX,
                self.height <= u32::MAX,
        ;
        let total: u64 = (self.width as u64) * (self.height as u64);
        if stop_requested {
            self.stopped = true;
        }
        if self.stopped || self.handed_out >= total {
            return Step::Done;
        }
        let at: u64 = self.handed_out;
        let width: u64 = self.width as u64;
        proof {
            assert(width > 0) by (nonlinear_arith)
                requires
                    at < width * self.height,
                    at >= 0,
                    self.height >= 0,
            ;
            lemma_fundamental_div_mod(at as int, width as int);
            assert(at / width < self.height) by (nonlinear_arith)
                requires
                    at == width * (at / width) + at % width,
                    0 <= at % width < width,
                    at < width * self.height,
            ;
            assert(width * (at / width) == (at / width) * width) by (nonlinear_arith);
        }
        self.handed_out = at + 1;
        Step::Pixel { x: (at % width) as u32, y: (at / width) as u32 }
    }
}

} // verus!
