//! Tiles: the parts of an image that are rendered independently and then put
//! back together.

use crate::canvas::{
    blank_pixels, can_allocate, canvas_dimensions, canvas_pixels, fits_memory, inside, pasted,
    Canvas, Colour,
};
use crate::grid::TileGrid;
use vstd::arithmetic::div_mod::lemma_fundamental_div_mod;
use vstd::prelude::*;

verus! {

/// A part of the final image. A tile knows where it lies in the image, and
/// nothing of the other tiles.
pub struct Tile {
    /// Number of the tile; tiles are numbered row by row.
    pub tile_id: u32,
    /// Column of the tile in the grid.
    pub tile_x: u32,
    /// Row of the tile in the grid.
    pub tile_y: u32,
    /// Left edge of the tile in the image.
    pub offset_x: u32,
    /// Top edge of the tile in the image.
    pub offset_y: u32,
    /// The pixels of the tile, copied into the image when all tiles are done.
    pub pixels: Canvas,
}

impl Tile {
    /// The tile is tile `tile_id` of `grid`: its column, row, offsets and
    /// size are those the grid gives that number.
    pub open spec fn placed_in(&self, grid: TileGrid) -> bool {
        &&& 0 <= self.tile_id < grid.spec_count()
        &&& self.tile_x == grid.column_of(self.tile_id as int)
        &&& self.tile_y == grid.row_of(self.tile_id as int)
        &&& self.offset_x == grid.offset_x_of(self.tile_id as int)
        &&& self.offset_y == grid.offset_y_of(self.tile_id as int)
        &&& canvas_dimensions(self.pixels) == (grid.tile_width as nat, grid.tile_height as nat)
    }

    /// The number of pixels of the tile.
    pub open spec fn pixel_count(&self) -> nat {
        self.pixels.spec_width() * self.pixels.spec_height()
    }

    /// Pixel `(px, py)` of the image lies in the tile.
    pub open spec fn covers(&self, px: int, py: int) -> bool {
        inside(canvas_dimensions(self.pixels), px - self.offset_x, py - self.offset_y)
    }

    /// Where in the image the camera samples for pixel `(x, y)` of the tile:
    /// the column counted from the left, the row counted from the bottom of
    /// an image `ny` pixels high, `ny - (y + offset_y) + 1`.
    pub open spec fn spec_sample_origin(&self, ny: u32, x: u32, y: u32) -> (int, int) {
        (x + self.offset_x, ny - (y + self.offset_y) + 1)
    }

    /// The tile lies within an image of the dimensions `dims`.
    pub open spec fn fits(&self, dims: (nat, nat)) -> bool {
        &&& self.offset_x + self.pixels.spec_width() <= dims.0
        &&& self.offset_y + self.pixels.spec_height() <= dims.1
    }

    /// Where in the image the camera samples for pixel `(x, y)` of the tile.
    /// The rows of the image are sampled bottom up.
    pub fn sample_origin(&self, ny: u32, x: u32, y: u32) -> (origin: (i64, i64))
        ensures
            (origin.0 as int, origin.1 as int) == self.spec_sample_origin(ny, x, y),
    {
        (x as i64 + self.offset_x as i64, ny as i64 - (y as i64 + self.offset_y as i64) + 1)
    }
}

/// The pixels of all `tiles` together.
pub open spec fn pixel_total(tiles: Seq<Tile>) -> nat
    decreases tiles.len(),
{
    if tiles.len() == 0 {
        0
    } else {
        pixel_total(tiles.drop_last()) + tiles.last().pixel_count()
    }
}

/// One of `tiles` has the number `id`.
pub open spec fn has_tile(tiles: Seq<Tile>, id: int) -> bool {
    exists|k: int| 0 <= k < tiles.len() && (#[trigger] tiles[k]).tile_id == id
}

/// In a checkerboard of tiles every other tile is left out: tile `id` stays
/// when its column and its row are both even or both odd. Without the
/// checkerboard every tile stays.
pub open spec fn stays(grid: TileGrid, id: int, checkerboard: bool) -> bool {
    !checkerboard || grid.column_of(id) % 2 == grid.row_of(id) % 2
}

/// A black image of the dimensions `dims` with `tiles` copied onto it one
/// after the other, each at its offsets.
pub open spec fn assembled(tiles: Seq<Tile>, dims: (nat, nat)) -> Map<(int, int), Colour>
    decreases tiles.len(),
{
    if tiles.len() == 0 {
        blank_pixels(dims)
    } else {
        pasted(
            assembled(tiles.drop_last(), dims),
            canvas_pixels(tiles.last().pixels),
            canvas_dimensions(tiles.last().pixels),
            tiles.last().offset_x as int,
            tiles.last().offset_y as int,
        )
    }
}

/// Tiles of one grid hold as many pixels as their number times the pixels of
/// one tile.
pub proof fn lemma_pixel_total(grid: TileGrid, tiles: Seq<Tile>)
    requires
        forall|k: int| 0 <= k < tiles.len() ==> (#[trigger] tiles[k]).placed_in(grid),
    ensures
        pixel_total(tiles) == tiles.len() * (grid.tile_width * grid.tile_height),
    decreases tiles.len(),
{
    if tiles.len() > 0 {
        let rest = tiles.drop_last();
        assert forall|k: int| 0 <= k < rest.len() implies (#[trigger] rest[k]).placed_in(grid) by {
            assert(rest[k] == tiles[k]);
        }
        lemma_pixel_total(grid, rest);
        assert(tiles[tiles.len() - 1].placed_in(grid));
        assert((rest.len() + 1) * (grid.tile_width * grid.tile_height) == rest.len() * (
        grid.tile_width * grid.tile_height) + grid.tile_width * grid.tile_height)
            by (nonlinear_arith);
    }
}

/// The assembled image has a colour for exactly the coordinates inside its
/// dimensions.
pub proof fn lemma_assembled_domain(tiles: Seq<Tile>, dims: (nat, nat))
    ensures
        forall|p: (int, int)|
            (#[trigger] assembled(tiles, dims).contains_key(p)) <==> inside(dims, p.0, p.1),
    decreases tiles.len(),
{
    if tiles.len() > 0 {
        let rest = tiles.drop_last();
        lemma_assembled_domain(rest, dims);
        assert forall|p: (int, int)|
            (#[trigger] assembled(tiles, dims).contains_key(p)) <==> inside(
                dims,
                p.0,
                p.1,
            ) by {
            assert(assembled(tiles, dims).contains_key(p) <==> assembled(rest, dims).contains_key(
                p,
            ));
        }
    }
}

/// Where no tile lies, the assembled image is black.
pub proof fn lemma_assembled_uncovered(tiles: Seq<Tile>, dims: (nat, nat), px: int, py: int)
    requires
        inside(dims, px, py),
        forall|j: int| 0 <= j < tiles.len() ==> !(#[trigger] tiles[j]).covers(px, py),
    ensures
        assembled(tiles, dims)[(px, py)] == (0u8, 0u8, 0u8),
    decreases tiles.len(),
{
    if tiles.len() > 0 {
        let rest = tiles.drop_last();
        assert(!tiles[tiles.len() - 1].covers(px, py));
        assert forall|j: int| 0 <= j < rest.len() implies !(#[trigger] rest[j]).covers(px, py) by {
            assert(rest[j] == tiles[j]);
        }
        lemma_assembled_domain(rest, dims);
        assert(assembled(rest, dims).contains_key((px, py)));
        lemma_assembled_uncovered(rest, dims, px, py);
    }
}

/// Where tile `i` lies and no later tile does, the assembled image shows
/// the pixel of tile `i`.
pub proof fn lemma_assembled_pixel(tiles: Seq<Tile>, dims: (nat, nat), i: int, px: int, py: int)
    requires
        inside(dims, px, py),
        0 <= i < tiles.len(),
        tiles[i].covers(px, py),
        forall|j: int| i < j < tiles.len() ==> !(#[trigger] tiles[j]).covers(px, py),
    ensures
        assembled(tiles, dims)[(px, py)] == tiles[i].pixels.spec_pixel(
            px - tiles[i].offset_x,
            py - tiles[i].offset_y,
        ),
    decreases tiles.len(),
{
    let rest = tiles.drop_last();
    lemma_assembled_domain(rest, dims);
    assert(assembled(rest, dims).contains_key((px, py)));
    if i < tiles.len() - 1 {
        assert(!tiles[tiles.len() - 1].covers(px, py));
        assert(rest[i] == tiles[i]);
        assert forall|j: int| i < j < rest.len() implies !(#[trigger] rest[j]).covers(px, py) by {
            assert(rest[j] == tiles[j]);
        }
        lemma_assembled_pixel(rest, dims, i, px, py);
    }
}

/// Tiles of one grid with different numbers share no pixel.
pub proof fn lemma_tiles_apart(grid: TileGrid, a: Tile, b: Tile, px: int, py: int)
    requires
        grid.wf(),
        a.placed_in(grid),
        b.placed_in(grid),
        a.tile_id != b.tile_id,
    ensures
        !(a.covers(px, py) && b.covers(px, py)),
{
    if a.covers(px, py) && b.covers(px, py) {
        grid.lemma_pixel_in_one_tile(a.tile_id as int, px, py);
        grid.lemma_pixel_in_one_tile(b.tile_id as int, px, py);
    }
}

/// Tiles of one grid, no number twice, come out of the assembly unchanged:
/// pixel `(x, y)` of tile `i` is the pixel of the image at the tile's
/// offsets plus `(x, y)`.
pub proof fn lemma_assembled_tile(grid: TileGrid, tiles: Seq<Tile>, i: int, x: int, y: int)
    requires
        grid.wf(),
        forall|k: int| 0 <= k < tiles.len() ==> (#[trigger] tiles[k]).placed_in(grid),
        forall|k: int, l: int| 0 <= k < l < tiles.len() ==> tiles[k].tile_id != tiles[l].tile_id,
        0 <= i < tiles.len(),
        inside((grid.tile_width as nat, grid.tile_height as nat), x, y),
    ensures
        inside((grid.width as nat, grid.height as nat), tiles[i].offset_x + x, tiles[i].offset_y + y),
        assembled(tiles, (grid.width as nat, grid.height as nat))[(
            tiles[i].offset_x + x,
            tiles[i].offset_y + y,
        )] == tiles[i].pixels.spec_pixel(x, y),
{
    let dims = (grid.width as nat, grid.height as nat);
    let px = tiles[i].offset_x + x;
    let py = tiles[i].offset_y + y;
    assert(tiles[i].placed_in(grid));
    assert(tiles[i].covers(px, py));
    grid.lemma_pixel_in_one_tile(tiles[i].tile_id as int, px, py);
    assert forall|j: int| i < j < tiles.len() implies !(#[trigger] tiles[j]).covers(px, py) by {
        lemma_tiles_apart(grid, tiles[i], tiles[j], px, py);
    }
    lemma_assembled_pixel(tiles, dims, i, px, py);
}

/// With every tile of the grid there, no number twice, the assembled image
/// has no gap: each of its pixels is the pixel of the one tile that it lies
/// in, the tile that `tile_of` names.
pub proof fn lemma_assembled_complete(grid: TileGrid, tiles: Seq<Tile>, px: int, py: int) -> (k:
    int)
    requires
        grid.wf(),
        forall|k: int| 0 <= k < tiles.len() ==> (#[trigger] tiles[k]).placed_in(grid),
        forall|k: int, l: int| 0 <= k < l < tiles.len() ==> tiles[k].tile_id != tiles[l].tile_id,
        forall|id: int| 0 <= id < grid.spec_count() ==> #[trigger] has_tile(tiles, id),
        inside((grid.width as nat, grid.height as nat), px, py),
    ensures
        0 <= k < tiles.len(),
        tiles[k].tile_id == grid.tile_of(px, py),
        tiles[k].covers(px, py),
        assembled(tiles, (grid.width as nat, grid.height as nat))[(px, py)]
            == tiles[k].pixels.spec_pixel(px - tiles[k].offset_x, py - tiles[k].offset_y),
{
    grid.lemma_pixel_is_covered(px, py);
    let id = grid.tile_of(px, py);
    assert(has_tile(tiles, id));
    let k = choose|k: int| 0 <= k < tiles.len() && (#[trigger] tiles[k]).tile_id == id;
    assert(tiles[k].placed_in(grid));
    assert(tiles[k].covers(px, py));
    lemma_assembled_tile(grid, tiles, k, px - tiles[k].offset_x, py - tiles[k].offset_y);
    k
}

impl TileGrid {
    /// Tile `tile_id` of the grid, all black.
    pub fn blank_tile(&self, tile_id: u32) -> (tile: Tile)
        requires
            self.wf(),
            tile_id < self.spec_count(),
            fits_memory(self.tile_width as int, self.tile_height as int),
        ensures
            tile.tile_id == tile_id,
            tile.placed_in(*self),
            canvas_pixels(tile.pixels) == blank_pixels(
                (self.tile_width as nat, self.tile_height as nat),
            ),
    {
        let x: u32 = tile_id % self.tiles_x;
        let y: u32 = tile_id / self.tiles_x;
        proof {
            let (tx, ty) = (self.tiles_x as int, self.tiles_y as int);
            let (tw, th) = (self.tile_width as int, self.tile_height as int);
            lemma_fundamental_div_mod(tile_id as int, tx);
            assert(y < ty) by (nonlinear_arith)
                requires
                    tile_id == tx * y + x,
                    0 <= x < tx,
                    tile_id < tx * ty,
            ;
            assert(x * tw <= tx * tw && y * th <= ty * th) by (nonlinear_arith)
                requires
                    0 <= x < tx,
                    0 <= y < ty,
                    tw >= 0,
                    th >= 0,
            ;
        }
        Tile {
            tile_id,
            tile_x: x,
            tile_y: y,
            offset_x: x * self.tile_width,
            offset_y: y * self.tile_height,
            pixels: Canvas::new(self.tile_width, self.tile_height),
        }
    }

    /// The tiles to render, all black, in the order of their numbers.
    ///
    /// With `checkerboard` set, only the tiles that `stays` names are made.
    /// Without it the tiles are all there and together hold exactly the
    /// pixels of the image.
    pub fn make_tiles(&self, checkerboard: bool) -> (tiles: Vec<Tile>)
        requires
            self.wf(),
            fits_memory(self.tile_width as int, self.tile_height as int),
        ensures
            forall|i: int|
                0 <= i < tiles@.len() ==> {
                    &&& (#[trigger] tiles@[i]).placed_in(*self)
                    &&& stays(*self, tiles@[i].tile_id as int, checkerboard)
                    &&& canvas_pixels(tiles@[i].pixels) == blank_pixels(
                        (self.tile_width as nat, self.tile_height as nat),
                    )
                },
            forall|i: int, j: int|
                0 <= i < j < tiles@.len() ==> tiles@[i].tile_id < tiles@[j].tile_id,
            forall|id: int|
                0 <= id < self.spec_count() && stays(*self, id, checkerboard) ==> #[trigger] has_tile(
                    tiles@,
                    id,
                ),
            !checkerboard ==> tiles@.len() == self.spec_count(),
            !checkerboard ==> pixel_total(tiles@) == self.width * self.height,
    {
        let count: u32 = self.count();
        let mut tiles: Vec<Tile> = Vec::new();
        let mut id: u32 = 0;
        while id < count
            invariant
                self.wf(),
                fits_memory(self.tile_width as int, self.tile_height as int),
                count == self.spec_count(),
                id <= count,
                forall|i: int|
                    0 <= i < tiles@.len() ==> {
                        &&& (#[trigger] tiles@[i]).placed_in(*self)
                        &&& stays(*self, tiles@[i].tile_id as int, checkerboard)
                        &&& tiles@[i].tile_id < id
                        &&& canvas_pixels(tiles@[i].pixels) == blank_pixels(
                            (self.tile_width as nat, self.tile_height as nat),
                        )
                    },
                forall|i: int, j: int|
                    0 <= i < j < tiles@.len() ==> tiles@[i].tile_id < tiles@[j].tile_id,
                forall|k: int|
                    0 <= k < id && stays(*self, k, checkerboard) ==> #[trigger] has_tile(tiles@, k),
                !checkerboard ==> tiles@.len() == id,
            decreases count - id,
        {
            let x: u32 = id % self.tiles_x;
            let y: u32 = id / self.tiles_x;
            if !checkerboard || x % 2 == y % 2 {
                let tile = self.blank_tile(id);
                let ghost before = tiles@;
                tiles.push(tile);
                proof {
                    assert forall|k: int|
                        0 <= k < id + 1 && stays(*self, k, checkerboard) implies #[trigger] has_tile(
                        tiles@,
                        k,
                    ) by {
                        if k < id {
                            assert(has_tile(before, k));
                            let i = choose|i: int|
                                0 <= i < before.len() && (#[trigger] before[i]).tile_id == k;
                            assert(tiles@[i].tile_id == k);
                        } else {
                            assert(tiles@[before.len() as int].tile_id == k);
                        }
                    }
                }
            }
            id = id + 1;
        }
        proof {
            lemma_pixel_total(*self, tiles@);
            self.lemma_pixel_count();
        }
        tiles
    }
}

/// Copies `tiles` into a black image of `width` by `height` pixels, one
/// after the other, each at its offsets.
///
/// There is no image when one of the tiles reaches beyond those dimensions,
/// or when an image of that size cannot be allocated.
pub fn assemble(width: u32, height: u32, tiles: &Vec<Tile>) -> (image: Option<Canvas>)
    ensures
        image is Some <==> fits_memory(width as int, height as int) && forall|i: int|
            0 <= i < tiles@.len() ==> (#[trigger] tiles@[i]).fits((width as nat, height as nat)),
        image matches Some(canvas) ==> {
            &&& canvas_dimensions(canvas) == (width as nat, height as nat)
            &&& canvas_pixels(canvas) == assembled(tiles@, (width as nat, height as nat))
        },
{
    if !can_allocate(width, height) {
        return None;
    }
    let ghost dims = (width as nat, height as nat);
    let mut canvas = Canvas::new(width, height);
    let mut i: usize = 0;
    while i < tiles.len()
        invariant
            0 <= i <= tiles@.len(),
            dims == (width as nat, height as nat),
            canvas_dimensions(canvas) == dims,
            canvas_pixels(canvas) == assembled(tiles@.take(i as int), dims),
            forall|k: int| 0 <= k < i ==> (#[trigger] tiles@[k]).fits(dims),
        decreases tiles@.len() - i,
    {
        let tile = &tiles[i];
        let copied = canvas.paste(&tile.pixels, tile.offset_x, tile.offset_y);
        if !copied {
            assert(!tiles@[i as int].fits(dims));
            return None;
        }
        proof {
            let next = tiles@.take(i + 1);
            assert(next.drop_last() =~= tiles@.take(i as int));
            assert(next.last() == tiles@[i as int]);
        }
        i = i + 1;
    }
    assert(tiles@.take(i as int) =~= tiles@);
    Some(canvas)
}

} // verus!
