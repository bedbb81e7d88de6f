//! The tile grid of an image: equal tiles that cover the image without gap
//! or overlap.

use crate::tiling::{is_tiling, lemma_tiling_exists, pick_tiling_dimensions, tiling_dimensions};
use vstd::arithmetic::div_mod::{lemma_fundamental_div_mod, lemma_fundamental_div_mod_converse};
use vstd::prelude::*;

verus! {

/// Why an image cannot be cut into the requested number of tiles.
#[derive(Clone, Copy, Debug, PartialEq, Eq, Structural)]
pub enum TilingError {
    /// No tiles were requested.
    NoTiles,
    /// The columns of the grid do not divide the width of the image.
    WidthNotDivisible,
    /// The rows of the grid do not divide the height of the image.
    HeightNotDivisible,
}

/// An image of `width` by `height` pixels cut into `tiles_x` columns and
/// `tiles_y` rows of tiles, each `tile_width` by `tile_height` pixels.
#[derive(Clone, Copy, Debug, PartialEq, Eq, Structural)]
pub struct TileGrid {
    /// Width of the image in pixels.
    pub width: u32,
    /// Height of the image in pixels.
    pub height: u32,
    /// Number of tiles side by side.
    pub tiles_x: u32,
    /// Number of tiles on top of each other.
    pub tiles_y: u32,
    /// Width of each tile in pixels.
    pub tile_width: u32,
    /// Height of each tile in pixels.
    pub tile_height: u32,
}

/// What `TileGrid::plan` answers: the grid of `tiling_dimensions`, if it
/// divides the image evenly, else the first reason why not.
pub open spec fn planned(n: int, w: int, h: int) -> Result<TileGrid, TilingError> {
    let (x, y) = tiling_dimensions(n, w, h);
    if n <= 0 {
        Err(TilingError::NoTiles)
    } else if w % x != 0 {
        Err(TilingError::WidthNotDivisible)
    } else if h % y != 0 {
        Err(TilingError::HeightNotDivisible)
    } else {
        Ok(
            TileGrid {
                width: w as u32,
                height: h as u32,
                tiles_x: x as u32,
                tiles_y: y as u32,
                tile_width: (w / x) as u32,
                tile_height: (h / y) as u32,
            },
        )
    }
}

/// A tile grid that divides its image evenly partitions it: columns times
/// rows is the tile count, and the tiles, each `w / x` by `h / y` pixels,
/// hold `w * h` pixels together.
pub proof fn lemma_tiling_partitions(n: int, w: int, h: int, x: int, y: int)
    requires
        n > 0,
        w >= 0,
        h >= 0,
        is_tiling((x, y), n, w, h),
        w % x == 0,
        h % y == 0,
    ensures
        x >= 1,
        y >= 1,
        x * y == n,
        n * ((w / x) * (h / y)) == w * h,
{
    lemma_fundamental_div_mod(n, y);
    assert(x >= 1 && x * y == n) by (nonlinear_arith)
        requires
            n == y * x,
            n > 0,
            y >= 1,
    ;
    lemma_fundamental_div_mod(w, x);
    lemma_fundamental_div_mod(h, y);
    let (tw, th) = (w / x, h / y);
    assert((x * y) * (tw * th) == (x * tw) * (y * th)) by (nonlinear_arith);
}

/// Whenever a grid is planned, it partitions the image: columns times rows
/// is the tile count, columns divide the width and rows the height, and the
/// tiles together hold exactly the pixels of the image.
pub proof fn lemma_planned_partitions(n: u32, w: u32, h: u32)
    ensures
        planned(n as int, w as int, h as int) matches Ok(grid) ==> {
            &&& grid.wf()
            &&& grid.width == w && grid.height == h
            &&& grid.tiles_x * grid.tiles_y == n
            &&& w % grid.tiles_x == 0
            &&& h % grid.tiles_y == 0
            &&& grid.spec_count() * (grid.tile_width * grid.tile_height) == w * h
        },
{
    let (n, w, h) = (n as int, w as int, h as int);
    if let Ok(grid) = planned(n, w, h) {
        let (x, y) = tiling_dimensions(n, w, h);
        lemma_tiling_exists(n, w, h);
        lemma_tiling_partitions(n, w, h, x, y);
        assert(x <= n && y <= n) by (nonlinear_arith)
            requires
                x * y == n,
                x >= 1,
                y >= 1,
        ;
        lemma_fundamental_div_mod(w, x);
        lemma_fundamental_div_mod(h, y);
        let (tw, th) = (w / x, h / y);
        assert(0 <= tw <= w && 0 <= th <= h) by (nonlinear_arith)
            requires
                w == x * tw,
                h == y * th,
                x >= 1,
                y >= 1,
                w >= 0,
                h >= 0,
        ;
        assert(x * tw == tw * x && y * th == th * y) by (nonlinear_arith);
        grid.lemma_pixel_count();
    }
}

/// The layout of a planned grid, whatever the size of the image: there are
/// as many tiles as were asked for; tile `id` is `w / x` by `h / y` pixels
/// and lies at `((id % x) * (w / x), (id / x) * (h / y))`, within the image;
/// no pixel lies in two tiles and every pixel of the image lies in one; and
/// the tiles hold `w * h` pixels together.
pub proof fn lemma_planned_layout(n: u32, w: u32, h: u32)
    ensures
        planned(n as int, w as int, h as int) matches Ok(grid) ==> {
            &&& grid.spec_count() == n
            &&& grid.tile_width == w / grid.tiles_x
            &&& grid.tile_height == h / grid.tiles_y
            &&& forall|id: int|
                0 <= id < n ==> {
                    &&& #[trigger] grid.offset_x_of(id) == (id % (grid.tiles_x as int)) * (w
                        / grid.tiles_x)
                    &&& grid.offset_y_of(id) == (id / (grid.tiles_x as int)) * (h / grid.tiles_y)
                    &&& 0 <= grid.offset_x_of(id)
                    &&& grid.offset_x_of(id) + grid.tile_width <= w
                    &&& 0 <= grid.offset_y_of(id)
                    &&& grid.offset_y_of(id) + grid.tile_height <= h
                }
            &&& forall|a: int, b: int, px: int, py: int|
                #[trigger] grid.tile_holds(a, px, py) && #[trigger] grid.tile_holds(b, px, py)
                    ==> a == b
            &&& forall|px: int, py: int|
                0 <= px < w && 0 <= py < h ==> #[trigger] grid.tile_holds(
                    grid.tile_of(px, py),
                    px,
                    py,
                )
            &&& n * (grid.tile_width * grid.tile_height) == w * h
        },
{
    lemma_planned_partitions(n, w, h);
    if let Ok(grid) = planned(n as int, w as int, h as int) {
        let (tx, ty) = (grid.tiles_x as int, grid.tiles_y as int);
        let (tw, th) = (grid.tile_width as int, grid.tile_height as int);
        lemma_fundamental_div_mod_converse(w as int, tx, tw, 0);
        lemma_fundamental_div_mod_converse(h as int, ty, th, 0);
        assert forall|id: int| 0 <= id < n implies {
            &&& 0 <= #[trigger] grid.offset_x_of(id)
            &&& grid.offset_x_of(id) + tw <= w
            &&& 0 <= grid.offset_y_of(id)
            &&& grid.offset_y_of(id) + th <= h
        } by {
            let c = id % tx;
            let r = id / tx;
            lemma_fundamental_div_mod(id, tx);
            assert(0 <= r < ty) by (nonlinear_arith)
                requires
                    id == tx * r + c,
                    0 <= c < tx,
                    0 <= id < tx * ty,
            ;
            assert(0 <= c * tw && c * tw + tw <= tx * tw) by (nonlinear_arith)
                requires
                    0 <= c < tx,
                    tw >= 0,
            ;
            assert(0 <= r * th && r * th + th <= ty * th) by (nonlinear_arith)
                requires
                    0 <= r < ty,
                    th >= 0,
            ;
        }
        assert forall|a: int, b: int, px: int, py: int|
            #[trigger] grid.tile_holds(a, px, py) && #[trigger] grid.tile_holds(
                b,
                px,
                py,
            ) implies a == b by {
            grid.lemma_pixel_in_one_tile(a, px, py);
            grid.lemma_pixel_in_one_tile(b, px, py);
        }
        assert forall|px: int, py: int| 0 <= px < w && 0 <= py < h implies #[trigger] grid.tile_holds(
            grid.tile_of(px, py),
            px,
            py,
        ) by {
            grid.lemma_pixel_is_covered(px, py);
        }
    }
}

impl TileGrid {
    /// The tiles fill the image exactly, and there is at least one.
    pub open spec fn wf(&self) -> bool {
        &&& self.tiles_x >= 1
        &&& self.tiles_y >= 1
        &&& self.tiles_x * self.tiles_y <= u32::MAX
        &&& self.tiles_x * self.tile_width == self.width
        &&& self.tiles_y * self.tile_height == self.height
    }

    /// The number of tiles.
    pub open spec fn spec_count(&self) -> int {
        self.tiles_x * self.tiles_y
    }

    /// The column of tile `id`; tiles are numbered row by row.
    pub open spec fn column_of(&self, id: int) -> int {
        id % (self.tiles_x as int)
    }

    /// The row of tile `id`.
    pub open spec fn row_of(&self, id: int) -> int {
        id / (self.tiles_x as int)
    }

    /// The left edge of tile `id` in the image.
    pub open spec fn offset_x_of(&self, id: int) -> int {
        self.column_of(id) * self.tile_width
    }

    /// The top edge of tile `id` in the image.
    pub open spec fn offset_y_of(&self, id: int) -> int {
        self.row_of(id) * self.tile_height
    }

    /// Pixel `(px, py)` of the image lies in tile `id`.
    pub open spec fn tile_holds(&self, id: int, px: int, py: int) -> bool {
        &&& 0 <= id < self.spec_count()
        &&& self.offset_x_of(id) <= px < self.offset_x_of(id) + self.tile_width
        &&& self.offset_y_of(id) <= py < self.offset_y_of(id) + self.tile_height
    }

    /// The tile that pixel `(px, py)` of the image lies in.
    pub open spec fn tile_of(&self, px: int, py: int) -> int {
        (py / (self.tile_height as int)) * self.tiles_x + px / (self.tile_width as int)
    }

    /// Cuts an image of `nx` by `ny` pixels into `n_tiles` tiles.
    ///
    /// Fails when no tiles are asked for, or when the grid that
    /// `pick_tiling_dimensions` chooses does not divide the width (tested
    /// first) or the height evenly.
    pub fn plan(n_tiles: u32, nx: u32, ny: u32) -> (out: Result<TileGrid, TilingError>)
        ensures
            out == planned(n_tiles as int, nx as int, ny as int),
            out matches Ok(grid) ==> {
                &&& grid.wf()
                &&& grid.width == nx
                &&& grid.height == ny
                &&& grid.tiles_x * grid.tiles_y == n_tiles
                &&& nx % grid.tiles_x == 0
                &&& ny % grid.tiles_y == 0
                &&& is_tiling(
                    (grid.tiles_x as int, grid.tiles_y as int),
                    n_tiles as int,
                    nx as int,
                    ny as int,
                )
            },
    {
        if n_tiles == 0 {
            return Err(TilingError::NoTiles);
        }
        let (x, y) = pick_tiling_dimensions(n_tiles, nx, ny);
        assert(x >= 1 && y >= 1) by (nonlinear_arith)
            requires
                x * y == n_tiles,
                n_tiles > 0,
        ;
        if nx % x != 0 {
            return Err(TilingError::WidthNotDivisible);
        }
        if ny % y != 0 {
            return Err(TilingError::HeightNotDivisible);
        }
        proof {
            lemma_fundamental_div_mod(nx as int, x as int);
            lemma_fundamental_div_mod(ny as int, y as int);
        }
        Ok(
            TileGrid {
                width: nx,
                height: ny,
                tiles_x: x,
                tiles_y: y,
                tile_width: nx / x,
                tile_height: ny / y,
            },
        )
    }

    /// The tiles hold as many pixels as the image: the tile count times the
    /// pixels of one tile is `width * height`.
    pub proof fn lemma_pixel_count(&self)
        requires
            self.wf(),
        ensures
            self.spec_count() * (self.tile_width * self.tile_height) == self.width * self.height,
    {
        let (tx, ty) = (self.tiles_x as int, self.tiles_y as int);
        let (tw, th) = (self.tile_width as int, self.tile_height as int);
        assert((tx * ty) * (tw * th) == (tx * tw) * (ty * th)) by (nonlinear_arith);
    }

    /// No gap: every pixel of the image lies in the tile `tile_of` names.
    pub proof fn lemma_pixel_is_covered(&self, px: int, py: int)
        requires
            self.wf(),
            0 <= px < self.width,
            0 <= py < self.height,
        ensures
            self.tile_holds(self.tile_of(px, py), px, py),
    {
        let (tx, ty) = (self.tiles_x as int, self.tiles_y as int);
        let (tw, th) = (self.tile_width as int, self.tile_height as int);
        assert(tw > 0 && th > 0) by (nonlinear_arith)
            requires
                tx * tw > 0,
                ty * th > 0,
                tx >= 1,
                ty >= 1,
        ;
        let c = px / tw;
        let r = py / th;
        lemma_fundamental_div_mod(px, tw);
        lemma_fundamental_div_mod(py, th);
        assert(0 <= c < tx) by (nonlinear_arith)
            requires
                px == tw * c + px % tw,
                0 <= px % tw < tw,
                0 <= px < tx * tw,
        ;
        assert(0 <= r < ty) by (nonlinear_arith)
            requires
                py == th * r + py % th,
                0 <= py % th < th,
                0 <= py < ty * th,
        ;
        let id = r * tx + c;
        lemma_fundamental_div_mod_converse(id, tx, r, c);
        assert(0 <= id < tx * ty) by (nonlinear_arith)
            requires
                id == r * tx + c,
                0 <= c < tx,
                0 <= r < ty,
        ;
        assert(c * tw == tw * c && r * th == th * r) by (nonlinear_arith);
    }

    /// No overlap: a pixel lies in no tile but the one `tile_of` names.
    pub proof fn lemma_pixel_in_one_tile(&self, id: int, px: int, py: int)
        requires
            self.wf(),
            self.tile_holds(id, px, py),
        ensures
            id == self.tile_of(px, py),
            0 <= px < self.width,
            0 <= py < self.height,
    {
        let (tx, ty) = (self.tiles_x as int, self.tiles_y as int);
        let (tw, th) = (self.tile_width as int, self.tile_height as int);
        let c = id % tx;
        let r = id / tx;
        lemma_fundamental_div_mod(id, tx);
        assert(0 <= r < ty) by (nonlinear_arith)
            requires
                id == tx * r + c,
                0 <= c < tx,
                0 <= id < tx * ty,
        ;
        lemma_fundamental_div_mod_converse(px, tw, c, px - c * tw);
        lemma_fundamental_div_mod_converse(py, th, r, py - r * th);
        assert(r * tx == tx * r) by (nonlinear_arith);
        assert(px < tx * tw) by (nonlinear_arith)
            requires
                px < c * tw + tw,
                0 <= c < tx,
                tw > 0,
        ;
        assert(py < ty * th) by (nonlinear_arith)
            requires
                py < r * th + th,
                0 <= r < ty,
                th > 0,
        ;
    }

    /// Do the tiles fill the image exactly?
    pub fn is_valid(&self) -> (valid: bool)
        ensures
            valid == self.wf(),
    {
        let (tx, ty) = (self.tiles_x as u64, self.tiles_y as u64);
        let (tw, th) = (self.tile_width as u64, self.tile_height as u64);
        assert(tx * ty <= u64::MAX && tx * tw <= u64::MAX && ty * th <= u64::MAX)
            by (nonlinear_arith)
            requires
                tx <= u32::MAX,
                ty <= u32::MAX,
                tw <= u32::MAX,
                th <= u32::MAX,
        ;
        tx >= 1 && ty >= 1 && tx * ty <= u32::MAX as u64 && tx * tw == self.width as u64 && ty
            * th == self.height as u64
    }

    /// The number of tiles.
    pub fn count(&self) -> (n: u32)
        requires
            self.wf(),
        ensures
            n == self.spec_count(),
    {
        self.tiles_x * self.tiles_y
    }
}

} // verus!
