use vstd::prelude::*;

verus! {

/// The distance between two integers.
pub open spec fn abs_diff(a: int, b: int) -> int {
    if a >= b {
        a - b
    } else {
        b - a
    }
}

/// A pixel of a `w` by `h` grid at column `x` and row `y` has a flat index
/// below `w * h`.
pub proof fn lemma_index_in_grid(x: int, y: int, w: int, h: int)
    requires
        0 <= x < w,
        0 <= y < h,
    ensures
        0 <= y * w + x < w * h,
{
    assert(y * w + x < w * h) by (nonlinear_arith)
        requires 0 <= x < w, 0 <= y < h;
    assert(0 <= y * w) by (nonlinear_arith)
        requires 0 <= x < w, 0 <= y < h;
}

/// A flat index below `w * h` splits into a column below `w` and a row below
/// `h`, and the two give the index back.
pub proof fn lemma_split_index(p: int, w: int, h: int)
    requires
        0 <= p < w * h,
        w > 0,
    ensures
        0 <= p % w < w,
        0 <= p / w < h,
        (p / w) * w + p % w == p,
{
    vstd::arithmetic::div_mod::lemma_fundamental_div_mod(p, w);
    assert(0 <= p / w) by (nonlinear_arith)
        requires 0 <= p, w > 0;
    assert(p / w < h) by (nonlinear_arith)
        requires 0 <= p < w * h, w > 0, p == w * (p / w) + p % w, 0 <= p % w < w;
    assert(0 <= p % w < w) by (nonlinear_arith)
        requires w > 0, 0 <= p;
    assert((p / w) * w == w * (p / w)) by (nonlinear_arith);
}

/// Element `c` of cell `q` in a grid whose cells hold `k` elements each lies
/// below `n * k` when `q < n`.
pub proof fn lemma_cell_in_range(q: int, c: int, n: int, k: int)
    requires
        0 <= q < n,
        0 <= c < k,
    ensures
        0 <= q * k + c < n * k,
{
    assert(q * k + c < n * k) by (nonlinear_arith)
        requires 0 <= q < n, 0 <= c < k;
    assert(0 <= q * k) by (nonlinear_arith)
        requires 0 <= q < n, 0 <= c < k;
}

/// A common positive factor of numerator and denominator leaves the floor of
/// the quotient unchanged.
pub proof fn lemma_div_cancel(a: int, b: int, k: int)
    requires
        a >= 0,
        b > 0,
        k > 0,
    ensures
        (a * k) / (b * k) == a / b,
{
    let q = a / b;
    let r = a % b;
    vstd::arithmetic::div_mod::lemma_fundamental_div_mod(a, b);
    assert(a * k == q * (b * k) + r * k) by (nonlinear_arith)
        requires a == b * q + r;
    assert(0 <= r * k < b * k) by (nonlinear_arith)
        requires 0 <= r < b, k > 0;
    vstd::arithmetic::div_mod::lemma_fundamental_div_mod_converse(a * k, b * k, q, r * k);
}

/// A quotient of a sum bounded by `d * m` is at most `m`.
pub proof fn lemma_div_bound(x: int, d: int, m: int)
    requires
        0 <= x <= d * m,
        d > 0,
    ensures
        0 <= x / d <= m,
{
    vstd::arithmetic::div_mod::lemma_div_pos_is_pos(x, d);
    vstd::arithmetic::div_mod::lemma_div_is_ordered(x, d * m, d);
    vstd::arithmetic::div_mod::lemma_div_multiples_vanish(m, d);
}

} // verus!
