//! Choosing the tile grid: how many tiles lie side by side and how many on
//! top of each other, for a requested number of tiles and an image size.
//!
//! The grid is as close to square tiles as the factors of the tile count
//! allow. All of it is whole-number arithmetic: the ideal number of rows is
//! the rounded square root of `tiles * height / width`, and ratios are
//! compared by cross-multiplication.

use crate::math::{
    factors, is_factor, is_rounded_root, lemma_rounded_root, rounded_root, rounded_sqrt,
};
use vstd::prelude::*;

verus! {

/// The larger of two numbers.
pub open spec fn larger(a: int, b: int) -> int {
    if a >= b {
        a
    } else {
        b
    }
}

/// The smaller of two numbers.
pub open spec fn smaller(a: int, b: int) -> int {
    if a <= b {
        a
    } else {
        b
    }
}

/// `a` misses `ideal` by a strictly smaller ratio than `b` does.
///
/// The ratio of a candidate to the ideal is taken larger over smaller, so
/// that falling short and overshooting weigh the same:
/// `larger(a, ideal) / smaller(a, ideal) < larger(b, ideal) / smaller(b, ideal)`.
/// With an ideal of zero every ratio is unbounded and no candidate is closer
/// than another.
pub open spec fn closer(a: int, b: int, ideal: int) -> bool {
    larger(a, ideal) * smaller(b, ideal) < larger(b, ideal) * smaller(a, ideal)
}

/// `y` is the factor of `n` nearest to `ideal`: no factor is closer, and
/// every smaller factor is strictly further away. With no factors at all
/// (`n == 0`) the answer is 1.
pub open spec fn is_nearest_factor(y: int, n: int, ideal: int) -> bool {
    if n <= 0 {
        y == 1
    } else {
        &&& is_factor(y, n)
        &&& forall|g: int| is_factor(g, n) ==> !closer(g, y, ideal)
        &&& forall|g: int| is_factor(g, n) && g < y ==> closer(y, g, ideal)
    }
}

/// At most one number is the nearest factor.
pub proof fn lemma_nearest_factor_unique(y1: int, y2: int, n: int, ideal: int)
    requires
        is_nearest_factor(y1, n, ideal),
        is_nearest_factor(y2, n, ideal),
    ensures
        y1 == y2,
{
}

/// Every number has a nearest factor, whatever the ideal.
pub proof fn lemma_nearest_factor_exists(n: int, ideal: int) -> (y: int)
    requires
        ideal >= 0,
    ensures
        is_nearest_factor(y, n, ideal),
{
    if n <= 0 {
        1
    } else {
        lemma_nearest_factor_upto(n, ideal, n)
    }
}

/// The nearest among the factors of `n` that are not above `upto`.
proof fn lemma_nearest_factor_upto(n: int, ideal: int, upto: int) -> (y: int)
    requires
        ideal >= 0,
        1 <= upto <= n,
    ensures
        is_factor(y, n),
        y <= upto,
        forall|g: int| is_factor(g, n) && g <= upto ==> !closer(g, y, ideal),
        forall|g: int| is_factor(g, n) && g < y ==> closer(y, g, ideal),
    decreases upto,
{
    if upto == 1 {
        1
    } else {
        let before = lemma_nearest_factor_upto(n, ideal, upto - 1);
        if is_factor(upto, n) && closer(upto, before, ideal) {
            assert forall|g: int| is_factor(g, n) && g < upto implies closer(upto, g, ideal) by {
                lemma_closer_chain(upto, before, g, ideal);
            }
            upto
        } else {
            before
        }
    }
}

/// The ideal number of tile rows for `n` tiles on a `w` by `h` image:
/// the square root of `n * h / w`, rounded; zero for an image without width.
pub open spec fn ideal_rows(n: int, w: int, h: int) -> int {
    if w <= 0 {
        0
    } else {
        rounded_root(n * h, w)
    }
}

/// `(x, y)` is the tile grid for `n` tiles on a `w` by `h` image: `y` rows,
/// the factor of `n` nearest to the ideal, and `x = n / y` columns.
pub open spec fn is_tiling(grid: (int, int), n: int, w: int, h: int) -> bool {
    &&& is_nearest_factor(grid.1, n, ideal_rows(n, w, h))
    &&& grid.0 == n / grid.1
}

/// The tile grid for `n` tiles on a `w` by `h` image, as `(columns, rows)`.
pub open spec fn tiling_dimensions(n: int, w: int, h: int) -> (int, int) {
    choose|grid: (int, int)| is_tiling(grid, n, w, h)
}

/// Every tile count and image size has a tile grid, and `tiling_dimensions`
/// is it.
pub proof fn lemma_tiling_exists(n: int, w: int, h: int)
    requires
        n >= 0,
        h >= 0,
    ensures
        is_tiling(tiling_dimensions(n, w, h), n, w, h),
{
    if w > 0 {
        assert(n * h >= 0) by (nonlinear_arith)
            requires
                n >= 0,
                h >= 0,
        ;
        lemma_rounded_root(n * h, w);
    }
    let y = lemma_nearest_factor_exists(n, ideal_rows(n, w, h));
    assert(is_tiling((n / y, y), n, w, h));
}

/// At most one pair is the tile grid.
pub proof fn lemma_tiling_unique(a: (int, int), b: (int, int), n: int, w: int, h: int)
    requires
        is_tiling(a, n, w, h),
        is_tiling(b, n, w, h),
    ensures
        a == b,
{
    lemma_nearest_factor_unique(a.1, b.1, n, ideal_rows(n, w, h));
}

/// Is `a` closer to `ideal` than `b`?
fn is_closer(a: u32, b: u32, ideal: u64) -> (r: bool)
    ensures
        r == closer(a as int, b as int, ideal as int),
{
    let a_wide: u64 = a as u64;
    let b_wide: u64 = b as u64;
    let a_hi: u64 = if a_wide >= ideal { a_wide } else { ideal };
    let a_lo: u64 = if a_wide <= ideal { a_wide } else { ideal };
    let b_hi: u64 = if b_wide >= ideal { b_wide } else { ideal };
    let b_lo: u64 = if b_wide <= ideal { b_wide } else { ideal };
    assert(a_hi * b_lo <= u128::MAX && b_hi * a_lo <= u128::MAX) by (nonlinear_arith)
        requires
            a_hi <= u64::MAX,
            b_hi <= u64::MAX,
            a_lo <= u64::MAX,
            b_lo <= u64::MAX,
    ;
    (a_hi as u128) * (b_lo as u128) < (b_hi as u128) * (a_lo as u128)
}

/// Ratios compare like numbers: what is closer than `b` is closer than
/// anything that is not closer than `b`.
proof fn lemma_closer_chain(a: int, b: int, c: int, ideal: int)
    requires
        a >= 1,
        b >= 1,
        c >= 1,
        ideal >= 0,
        closer(a, b, ideal),
        !closer(c, b, ideal),
    ensures
        closer(a, c, ideal),
{
    let (ah, al) = (larger(a, ideal), smaller(a, ideal));
    let (bh, bl) = (larger(b, ideal), smaller(b, ideal));
    let (ch, cl) = (larger(c, ideal), smaller(c, ideal));
    assert(ah * cl < ch * al) by (nonlinear_arith)
        requires
            ah * bl < bh * al,
            ch * bl >= bh * cl,
            ah >= 1,
            bh >= 1,
            ch >= 1,
            al >= 0,
            bl >= 0,
            cl >= 0,
            al == 0 <==> bl == 0,
            al == 0 <==> cl == 0,
    ;
}

/// The factor of `n` nearest to `ideal`.
pub fn nearest_factor(n: u32, ideal: u64) -> (y: u32)
    ensures
        is_nearest_factor(y as int, n as int, ideal as int),
{
    let candidates = factors(n);
    if candidates.len() == 0 {
        proof {
            if n > 0 {
                assert(is_factor(1, n as int));
                assert(candidates@.contains(1u32));
            }
        }
        return 1;
    }
    let mut best: u32 = candidates[0];
    let ghost mut at: int = 0;
    let mut i: usize = 1;
    while i < candidates.len()
        invariant
            1 <= i <= candidates@.len(),
            0 <= at < i,
            best == candidates@[at],
            forall|k: int|
                0 <= k < candidates@.len() ==> is_factor(
                    #[trigger] candidates@[k] as int,
                    n as int,
                ),
            forall|k: int, l: int| 0 <= k < l < candidates@.len() ==> candidates@[k] < candidates@[l],
            forall|k: int|
                0 <= k < i ==> !closer(#[trigger] candidates@[k] as int, best as int, ideal as int),
            forall|k: int|
                0 <= k < at ==> closer(best as int, #[trigger] candidates@[k] as int, ideal as int),
        decreases candidates@.len() - i,
    {
        let next: u32 = candidates[i];
        if is_closer(next, best, ideal) {
            proof {
                assert forall|k: int| 0 <= k < i implies closer(
                    next as int,
                    #[trigger] candidates@[k] as int,
                    ideal as int,
                ) by {
                    assert(is_factor(candidates@[k] as int, n as int));
                    assert(is_factor(candidates@[at] as int, n as int));
                    lemma_closer_chain(
                        next as int,
                        best as int,
                        candidates@[k] as int,
                        ideal as int,
                    );
                }
                assert forall|k: int| 0 <= k < i + 1 implies !closer(
                    #[trigger] candidates@[k] as int,
                    next as int,
                    ideal as int,
                ) by {
                    if k < i {
                        assert(closer(next as int, candidates@[k] as int, ideal as int));
                    }
                }
                at = i as int;
            }
            best = next;
        }
        i = i + 1;
    }
    proof {
        assert(is_factor(candidates@[at] as int, n as int));
        assert forall|g: int| is_factor(g, n as int) implies !closer(
            g,
            best as int,
            ideal as int,
        ) by {
            assert(candidates@.contains(g as u32));
            let k = choose|k: int| 0 <= k < candidates@.len() && candidates@[k] == g as u32;
            assert(!closer(candidates@[k] as int, best as int, ideal as int));
        }
        assert forall|g: int| is_factor(g, n as int) && g < best implies closer(
            best as int,
            g,
            ideal as int,
        ) by {
            assert(candidates@.contains(g as u32));
            let k = choose|k: int| 0 <= k < candidates@.len() && candidates@[k] == g as u32;
            if k >= at {
                assert(k > at ==> candidates@[at] < candidates@[k]);
            }
            assert(closer(best as int, candidates@[k] as int, ideal as int));
        }
    }
    best
}

/// The ideal number of tile rows: the rounded square root of `n * h / w`.
pub fn ideal_tile_rows(n: u32, w: u32, h: u32) -> (k: u64)
    ensures
        k == ideal_rows(n as int, w as int, h as int),
        w > 0 ==> is_rounded_root(k as int, n * h, w as int),
{
    if w == 0 {
        return 0;
    }
    assert(4 * (n * h) <= u128::MAX && n * h <= u64::MAX) by (nonlinear_arith)
        requires
            n <= u32::MAX,
            h <= u32::MAX,
    ;
    let area: u128 = (n as u128) * (h as u128);
    rounded_sqrt(area, w as u128)
}

/// The tile grid `(columns, rows)` for `n_tiles` tiles on an image of `nx`
/// by `ny` pixels.
///
/// The rows are the factor of `n_tiles` nearest to the ideal row count, the
/// columns are `n_tiles / rows`; for `n_tiles > 0` their product is
/// `n_tiles`. Whether the grid divides the image evenly is not decided here.
pub fn pick_tiling_dimensions(n_tiles: u32, nx: u32, ny: u32) -> (grid: (u32, u32))
    ensures
        is_tiling((grid.0 as int, grid.1 as int), n_tiles as int, nx as int, ny as int),
        (grid.0 as int, grid.1 as int) == tiling_dimensions(n_tiles as int, nx as int, ny as int),
        n_tiles > 0 ==> grid.0 * grid.1 == n_tiles,
        n_tiles == 0 ==> grid == (0u32, 1u32),
{
    let ideal = ideal_tile_rows(n_tiles, nx, ny);
    let y = nearest_factor(n_tiles, ideal);
    let x = n_tiles / y;
    proof {
        if n_tiles > 0 {
            vstd::arithmetic::div_mod::lemma_fundamental_div_mod(n_tiles as int, y as int);
            assert(x * y == y * x) by (nonlinear_arith);
        }
        let found = (x as int, y as int);
        assert(is_tiling(found, n_tiles as int, nx as int, ny as int));
        lemma_tiling_unique(
            found,
            tiling_dimensions(n_tiles as int, nx as int, ny as int),
            n_tiles as int,
            nx as int,
            ny as int,
        );
    }
    (x, y)
}

} // verus!
