//! Whole-number helpers: the factors of a number, and square roots without
//! rounding error.

use vstd::prelude::*;

verus! {

/// `d` is a factor of `n`: it lies in `1..=n` and divides `n` exactly.
/// Zero has no factors in this sense.
pub open spec fn is_factor(d: int, n: int) -> bool {
    1 <= d <= n && n % d == 0
}

/// All factors of `num`, smallest first.
///
/// The result is strictly increasing, holds only factors of `num`, and holds
/// every one of them; `factors(0)` is empty.
pub fn factors(num: u32) -> (out: Vec<u32>)
    ensures
        forall|i: int, j: int| 0 <= i < j < out@.len() ==> out@[i] < out@[j],
        forall|i: int| 0 <= i < out@.len() ==> is_factor(#[trigger] out@[i] as int, num as int),
        forall|d: u32| is_factor(d as int, num as int) ==> out@.contains(d),
{
    let mut out: Vec<u32> = Vec::new();
    let mut cur: u32 = 0;
    while cur < num
        invariant
            cur <= num,
            forall|i: int, j: int| 0 <= i < j < out@.len() ==> out@[i] < out@[j],
            forall|i: int|
                0 <= i < out@.len() ==> is_factor(#[trigger] out@[i] as int, num as int)
                    && out@[i] <= cur,
            forall|d: u32| is_factor(d as int, num as int) && d <= cur ==> out@.contains(d),
        decreases num - cur,
    {
        cur = cur + 1;
        if num % cur == 0 {
            let ghost before = out@;
            out.push(cur);
            assert forall|d: u32| is_factor(d as int, num as int) && d <= cur implies out@.contains(
                d,
            ) by {
                if d == cur {
                    assert(out@[before.len() as int] == d);
                } else {
                    let k = choose|k: int| 0 <= k < before.len() && before[k] == d;
                    assert(out@[k] == d);
                }
            }
        }
    }
    out
}

/// `r` is the square root of `v`, rounded down.
pub open spec fn is_floor_sqrt(r: int, v: int) -> bool {
    0 <= r && r * r <= v < (r + 1) * (r + 1)
}

/// `k` is the square root of the fraction `num / den`, rounded to the nearest
/// whole number, a half rounding up: `k - 1/2 <= sqrt(num / den) < k + 1/2`,
/// written without fractions.
pub open spec fn is_rounded_root(k: int, num: int, den: int) -> bool {
    &&& 0 <= k
    &&& k > 0 ==> (2 * k - 1) * (2 * k - 1) * den <= 4 * num
    &&& 4 * num < (2 * k + 1) * (2 * k + 1) * den
}

/// The square root of `num / den` rounded to the nearest whole number, for
/// `den > 0`.
pub open spec fn rounded_root(num: int, den: int) -> int {
    choose|k: int| is_rounded_root(k, num, den)
}

/// Every fraction that is not negative has a rounded square root, and
/// `rounded_root` is it.
pub proof fn lemma_rounded_root(num: int, den: int)
    requires
        num >= 0,
        den > 0,
    ensures
        is_rounded_root(rounded_root(num, den), num, den),
{
    let k = lemma_rounded_root_from(0, num, den);
    assert(is_rounded_root(k, num, den));
}

/// Searches upwards from `from` for the rounded square root.
proof fn lemma_rounded_root_from(from: int, num: int, den: int) -> (k: int)
    requires
        num >= 0,
        den > 0,
        from >= 0,
        from > 0 ==> (2 * from - 1) * (2 * from - 1) * den <= 4 * num,
    ensures
        is_rounded_root(k, num, den),
    decreases 4 * num - from,
{
    if 4 * num < (2 * from + 1) * (2 * from + 1) * den {
        from
    } else {
        assert(from < 4 * num) by (nonlinear_arith)
            requires
                (2 * from + 1) * (2 * from + 1) * den <= 4 * num,
                den > 0,
                from >= 0,
        ;
        lemma_rounded_root_from(from + 1, num, den)
    }
}

/// A fraction has at most one rounded square root.
pub proof fn lemma_rounded_root_unique(k1: int, k2: int, num: int, den: int)
    requires
        den > 0,
        is_rounded_root(k1, num, den),
        is_rounded_root(k2, num, den),
    ensures
        k1 == k2,
{
    if k1 < k2 {
        lemma_odd_squares_grow(k1, k2, den);
    } else if k2 < k1 {
        lemma_odd_squares_grow(k2, k1, den);
    }
}

/// The upper rounding boundary of `a` is not above the lower one of any
/// larger `b`.
proof fn lemma_odd_squares_grow(a: int, b: int, den: int)
    requires
        0 <= a < b,
        den > 0,
    ensures
        (2 * a + 1) * (2 * a + 1) * den <= (2 * b - 1) * (2 * b - 1) * den,
{
    assert((2 * a + 1) * (2 * a + 1) <= (2 * b - 1) * (2 * b - 1)) by (nonlinear_arith)
        requires
            0 <= a < b,
    ;
    assert((2 * a + 1) * (2 * a + 1) * den <= (2 * b - 1) * (2 * b - 1) * den)
        by (nonlinear_arith)
        requires
            (2 * a + 1) * (2 * a + 1) <= (2 * b - 1) * (2 * b - 1),
            den > 0,
    ;
}

/// The square root of `v`, rounded down.
pub fn floor_sqrt(v: u128) -> (r: u64)
    ensures
        is_floor_sqrt(r as int, v as int),
{
    let mut lo: u128 = 0;
    let mut hi: u128 = 0x1_0000_0000_0000_0000;
    assert(hi * hi > v) by (nonlinear_arith)
        requires
            hi == 0x1_0000_0000_0000_0000,
            v <= u128::MAX,
    ;
    while hi - lo > 1
        invariant
            lo < hi <= 0x1_0000_0000_0000_0000,
            lo * lo <= v < hi * hi,
        decreases hi - lo,
    {
        let mid: u128 = lo + (hi - lo) / 2;
        assert(mid * mid <= u128::MAX) by (nonlinear_arith)
            requires
                mid < 0x1_0000_0000_0000_0000,
        ;
        if mid * mid <= v {
            lo = mid;
        } else {
            hi = mid;
        }
    }
    lo as u64
}

/// The square root of `num / den`, rounded to the nearest whole number.
pub fn rounded_sqrt(num: u128, den: u128) -> (k: u64)
    requires
        den > 0,
        4 * num <= u128::MAX,
    ensures
        is_rounded_root(k as int, num as int, den as int),
        k == rounded_root(num as int, den as int),
{
    let q: u128 = 4 * num / den;
    let r: u64 = floor_sqrt(q);
    let k: u64 = ((r as u128 + 1) / 2) as u64;
    proof {
        lemma_rounding_bounds(k as int, r as int, q as int, 4 * num as int, den as int);
        assert(is_rounded_root(k as int, num as int, den as int));
        lemma_rounded_root_unique(
            k as int,
            rounded_root(num as int, den as int),
            num as int,
            den as int,
        );
    }
    k
}

/// From the floor `r` of the square root of `q = floor(num4 / den)`, the
/// rounding boundaries of `k = floor((r + 1) / 2)` enclose `num4 / den`.
proof fn lemma_rounding_bounds(k: int, r: int, q: int, num4: int, den: int)
    requires
        den > 0,
        num4 >= 0,
        q == num4 / den,
        is_floor_sqrt(r, q),
        k == (r + 1) / 2,
    ensures
        0 <= k,
        k > 0 ==> (2 * k - 1) * (2 * k - 1) * den <= num4,
        num4 < (2 * k + 1) * (2 * k + 1) * den,
{
    assert(q * den <= num4 < (q + 1) * den) by (nonlinear_arith)
        requires
            den > 0,
            num4 >= 0,
            q == num4 / den,
    ;
    if k > 0 {
        assert((2 * k - 1) * (2 * k - 1) <= r * r) by (nonlinear_arith)
            requires
                0 <= 2 * k - 1 <= r,
        ;
        assert((2 * k - 1) * (2 * k - 1) * den <= q * den) by (nonlinear_arith)
            requires
                (2 * k - 1) * (2 * k - 1) <= q,
                den > 0,
        ;
    }
    assert((r + 1) * (r + 1) <= (2 * k + 1) * (2 * k + 1)) by (nonlinear_arith)
        requires
            0 <= r + 1 <= 2 * k + 1,
    ;
    assert((q + 1) * den <= (2 * k + 1) * (2 * k + 1) * den) by (nonlinear_arith)
        requires
            q + 1 <= (2 * k + 1) * (2 * k + 1),
            den > 0,
    ;
}

} // verus!
