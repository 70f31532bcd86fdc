use vstd::prelude::*;
use crate::arith::{lemma_index_in_grid, lemma_split_index};

verus! {

/// Half of `n`, rounded up: an odd last row or column keeps a pixel of its
/// own on the level above.
pub open spec fn half_up(n: int) -> int {
    (n + 1) / 2
}

/// The side of level `k` of a pyramid over a side of `n`: halved `k` times,
/// rounding up.
pub open spec fn level_dim(n: int, k: nat) -> int
    decreases k,
{
    if k == 0 {
        n
    } else {
        half_up(level_dim(n, (k - 1) as nat))
    }
}

/// How many times a `w` by `h` grid halves before a side falls below two.
pub open spec fn pyramid_depth(w: int, h: int) -> nat
    decreases w,
{
    if w >= 2 && h >= 2 {
        1 + pyramid_depth(half_up(w), half_up(h))
    } else {
        0
    }
}

/// The column (or row) that stands in for `x + 1` on a side of `n`: the
/// border is repeated.
pub open spec fn next_in(x: int, n: int) -> int {
    if x + 1 < n {
        x + 1
    } else {
        x
    }
}

/// A `w` by `h` plane shrunk to half size, rounding up, each value the floor
/// of the mean of the two by two block it covers, the border repeated where
/// a side is odd.
pub open spec fn shrink(s: Seq<int>, w: int, h: int) -> Seq<int> {
    Seq::new(
        (half_up(w) * half_up(h)) as nat,
        |i: int|
            {
                let x = 2 * (i % half_up(w));
                let y = 2 * (i / half_up(w));
                let x1 = next_in(x, w);
                let y1 = next_in(y, h);
                (s[y * w + x] + s[y * w + x1] + s[y1 * w + x] + s[y1 * w + x1]) / 4
            },
    )
}

/// A plane of half the size, rounding up, grown to `w` by `h`, each value
/// repeated over its two by two block.
pub open spec fn expand(s: Seq<int>, w: int, h: int) -> Seq<int> {
    Seq::new((w * h) as nat, |i: int| s[((i / w) / 2) * half_up(w) + (i % w) / 2])
}

pub open spec fn plane_sub(a: Seq<int>, b: Seq<int>) -> Seq<int> {
    Seq::new(a.len(), |i: int| a[i] - b[i])
}

pub open spec fn plane_add(a: Seq<int>, b: Seq<int>) -> Seq<int> {
    Seq::new(a.len(), |i: int| a[i] + b[i])
}

/// Level `k` of the Gaussian pyramid of a `w` by `h` plane.
pub open spec fn gauss(s: Seq<int>, w: int, h: int, k: nat) -> Seq<int>
    decreases k,
{
    if k == 0 {
        s
    } else {
        shrink(gauss(s, w, h, (k - 1) as nat), level_dim(w, (k - 1) as nat), level_dim(h, (k - 1) as nat))
    }
}

/// Level `k` of the Laplacian pyramid with top level `top`: what a level
/// holds beyond the expanded level above it; the top holds itself.
pub open spec fn laplace(s: Seq<int>, w: int, h: int, k: nat, top: nat) -> Seq<int> {
    if k >= top {
        gauss(s, w, h, k)
    } else {
        plane_sub(gauss(s, w, h, k), expand(gauss(s, w, h, k + 1), level_dim(w, k), level_dim(h, k)))
    }
}

/// A blended Laplacian pyramid `levels` (levels 0 to `top`) collapsed from
/// the top down to level `k`: each level plus the expansion of the one above.
pub open spec fn collapse_from(levels: Seq<Seq<int>>, w: int, h: int, k: nat, top: nat) -> Seq<int>
    decreases top - k,
{
    if k >= top {
        levels[top as int]
    } else {
        plane_add(levels[k as int], expand(collapse_from(levels, w, h, k + 1, top), level_dim(w, k), level_dim(h, k)))
    }
}

/// Every value of `s` lies in `[lo, hi]`.
pub open spec fn within(s: Seq<int>, lo: int, hi: int) -> bool {
    forall|i: int| 0 <= i < s.len() ==> lo <= #[trigger] s[i] <= hi
}

/// The level sides of a grid that halves `pyramid_depth` times.
pub proof fn lemma_level_dims(w: int, h: int, k: nat)
    requires
        w >= 0,
        h >= 0,
        k <= pyramid_depth(w, h),
    ensures
        pyramid_depth(level_dim(w, k), level_dim(h, k)) == pyramid_depth(w, h) - k,
        k < pyramid_depth(w, h) ==> {
            &&& level_dim(w, k) >= 2
            &&& level_dim(h, k) >= 2
            &&& level_dim(w, k + 1) == half_up(level_dim(w, k))
            &&& level_dim(h, k + 1) == half_up(level_dim(h, k))
        },
    decreases k,
{
    if k > 0 {
        lemma_level_dims(w, h, (k - 1) as nat);
    }
    let lw = level_dim(w, k);
    let lh = level_dim(h, k);
    if k < pyramid_depth(w, h) {
        assert(pyramid_depth(lw, lh) > 0);
        assert(lw >= 2 && lh >= 2);
        assert(level_dim(w, k + 1) == half_up(lw));
    }
}

/// Shrinking keeps values within bounds.
pub proof fn lemma_shrink_within(s: Seq<int>, w: int, h: int, lo: int, hi: int)
    requires
        s.len() == w * h,
        w >= 0,
        h >= 0,
        within(s, lo, hi),
    ensures
        within(shrink(s, w, h), lo, hi),
        shrink(s, w, h).len() == half_up(w) * half_up(h),
{
    let w2 = half_up(w);
    let h2 = half_up(h);
    assert(w2 * h2 >= 0) by (nonlinear_arith)
        requires w2 >= 0, h2 >= 0;
    assert forall|i: int| 0 <= i < shrink(s, w, h).len() implies lo <= #[trigger] shrink(s, w, h)[i] <= hi by {
        assert(w2 > 0) by (nonlinear_arith)
            requires 0 <= i < w2 * h2, w2 >= 0, h2 >= 0;
        lemma_split_index(i, w2, h2);
        let x = 2 * (i % w2);
        let y = 2 * (i / w2);
        let x1 = next_in(x, w);
        let y1 = next_in(y, h);
        lemma_index_in_grid(x, y, w, h);
        lemma_index_in_grid(x1, y, w, h);
        lemma_index_in_grid(x, y1, w, h);
        lemma_index_in_grid(x1, y1, w, h);
    }
}

/// Every level of a Gaussian pyramid stays within the bounds of its base.
pub proof fn lemma_gauss_within(s: Seq<int>, w: int, h: int, k: nat, lo: int, hi: int)
    requires
        s.len() == w * h,
        w >= 0,
        h >= 0,
        within(s, lo, hi),
    ensures
        within(gauss(s, w, h, k), lo, hi),
        gauss(s, w, h, k).len() == level_dim(w, k) * level_dim(h, k),
    decreases k,
{
    if k > 0 {
        lemma_gauss_within(s, w, h, (k - 1) as nat, lo, hi);
        lemma_level_dim_nonneg(w, (k - 1) as nat);
        lemma_level_dim_nonneg(h, (k - 1) as nat);
        lemma_shrink_within(
            gauss(s, w, h, (k - 1) as nat),
            level_dim(w, (k - 1) as nat),
            level_dim(h, (k - 1) as nat),
            lo,
            hi,
        );
    }
}

pub proof fn lemma_level_dim_nonneg(n: int, k: nat)
    requires
        n >= 0,
    ensures
        level_dim(n, k) >= 0,
        level_dim(n, k) <= n,
    decreases k,
{
    if k > 0 {
        lemma_level_dim_nonneg(n, (k - 1) as nat);
    }
}

/// The values of a plane of machine integers.
pub open spec fn ints(v: Seq<i64>) -> Seq<int> {
    Seq::new(v.len(), |i: int| v[i] as int)
}

/// The half-size plane of a `w` by `h` plane.
pub fn shrink_plane(s: &Vec<i64>, w: usize, h: usize) -> (r: Vec<i64>)
    requires
        s@.len() == w * h,
        within(ints(s@), 0, 0x1000_0000_0000_0000),
    ensures
        ints(r@) == shrink(ints(s@), w as int, h as int),
{
    let w2 = w / 2 + w % 2;
    let h2 = h / 2 + h % 2;
    let len = s.len();
    proof {
        assert(w2 == half_up(w as int) && h2 == half_up(h as int));
        assert(w2 * h2 <= w * h) by (nonlinear_arith)
            requires 0 <= w2 <= w, 0 <= h2 <= h;
    }
    let n = w2 * h2;
    let mut out: Vec<i64> = Vec::with_capacity(n);
    let mut i: usize = 0;
    while i < n
        invariant
            s@.len() == w * h,
            len == s@.len(),
            within(ints(s@), 0, 0x1000_0000_0000_0000),
            w2 == half_up(w as int),
            h2 == half_up(h as int),
            n == w2 * h2,
            i <= n,
            out@.len() == i,
            forall|j: int| 0 <= j < i ==> #[trigger] out@[j] as int == shrink(ints(s@), w as int, h as int)[j],
        decreases n - i,
    {
        proof {
            assert(w2 > 0) by (nonlinear_arith)
                requires i < w2 * h2, w2 >= 0, h2 >= 0, i >= 0;
            lemma_split_index(i as int, w2 as int, h2 as int);
        }
        let x = 2 * (i % w2);
        let y = 2 * (i / w2);
        let x1 = if x + 1 < w { x + 1 } else { x };
        let y1 = if y + 1 < h { y + 1 } else { y };
        proof {
            lemma_index_in_grid(x as int, y as int, w as int, h as int);
            lemma_index_in_grid(x1 as int, y as int, w as int, h as int);
            lemma_index_in_grid(x as int, y1 as int, w as int, h as int);
            lemma_index_in_grid(x1 as int, y1 as int, w as int, h as int);
        }
        let a = s[y * w + x];
        let b = s[y * w + x1];
        let c = s[y1 * w + x];
        let d = s[y1 * w + x1];
        proof {
            assert(ints(s@)[y * w + x] == a);
            assert(ints(s@)[y * w + x1] == b);
            assert(ints(s@)[y1 * w + x] == c);
            assert(ints(s@)[y1 * w + x1] == d);
        }
        out.push((a + b + c + d) / 4);
        i = i + 1;
    }
    proof {
        assert(ints(out@) =~= shrink(ints(s@), w as int, h as int));
    }
    out
}

/// The `w` by `h` plane grown from one of half the size, rounding up.
pub fn expand_plane(s: &Vec<i64>, w: usize, h: usize) -> (r: Vec<i64>)
    requires
        s@.len() == half_up(w as int) * half_up(h as int),
        w * h <= usize::MAX,
    ensures
        ints(r@) == expand(ints(s@), w as int, h as int),
{
    let n = w * h;
    let w2 = w / 2 + w % 2;
    let len = s.len();
    let mut out: Vec<i64> = Vec::with_capacity(n);
    let mut i: usize = 0;
    while i < n
        invariant
            s@.len() == half_up(w as int) * half_up(h as int),
            len == s@.len(),
            n == w * h,
            w2 == half_up(w as int),
            i <= n,
            out@.len() == i,
            forall|j: int| 0 <= j < i ==> #[trigger] out@[j] as int == expand(ints(s@), w as int, h as int)[j],
        decreases n - i,
    {
        proof {
            assert(w > 0) by (nonlinear_arith)
                requires i < w * h, w >= 0, h >= 0, i >= 0;
            lemma_split_index(i as int, w as int, h as int);
        }
        let x = (i % w) / 2;
        let y = (i / w) / 2;
        proof {
            lemma_index_in_grid(x as int, y as int, w2 as int, half_up(h as int));
        }
        let v = s[y * w2 + x];
        proof {
            assert(ints(s@)[y * w2 + x] == v);
        }
        out.push(v);
        i = i + 1;
    }
    proof {
        assert(ints(out@) =~= expand(ints(s@), w as int, h as int));
    }
    out
}

/// The difference of two planes of one size.
pub fn sub_planes(a: &Vec<i64>, b: &Vec<i64>) -> (r: Vec<i64>)
    requires
        a@.len() == b@.len(),
        within(ints(a@), -0x1000_0000_0000_0000, 0x1000_0000_0000_0000),
        within(ints(b@), -0x1000_0000_0000_0000, 0x1000_0000_0000_0000),
    ensures
        ints(r@) == plane_sub(ints(a@), ints(b@)),
{
    let n = a.len();
    let mut out: Vec<i64> = Vec::with_capacity(n);
    let mut i: usize = 0;
    while i < n
        invariant
            n == a@.len(),
            n == b@.len(),
            within(ints(a@), -0x1000_0000_0000_0000, 0x1000_0000_0000_0000),
            within(ints(b@), -0x1000_0000_0000_0000, 0x1000_0000_0000_0000),
            i <= n,
            out@.len() == i,
            forall|j: int| 0 <= j < i ==> #[trigger] out@[j] as int == a@[j] - b@[j],
        decreases n - i,
    {
        proof {
            assert(ints(a@)[i as int] == a@[i as int]);
            assert(ints(b@)[i as int] == b@[i as int]);
        }
        out.push(a[i] - b[i]);
        i = i + 1;
    }
    proof {
        assert(ints(out@) =~= plane_sub(ints(a@), ints(b@)));
    }
    out
}

/// The sum of two planes of one size.
pub fn add_planes(a: &Vec<i64>, b: &Vec<i64>) -> (r: Vec<i64>)
    requires
        a@.len() == b@.len(),
        within(ints(a@), -0x1000_0000_0000_0000, 0x1000_0000_0000_0000),
        within(ints(b@), -0x1000_0000_0000_0000, 0x1000_0000_0000_0000),
    ensures
        ints(r@) == plane_add(ints(a@), ints(b@)),
{
    let n = a.len();
    let mut out: Vec<i64> = Vec::with_capacity(n);
    let mut i: usize = 0;
    while i < n
        invariant
            n == a@.len(),
            n == b@.len(),
            within(ints(a@), -0x1000_0000_0000_0000, 0x1000_0000_0000_0000),
            within(ints(b@), -0x1000_0000_0000_0000, 0x1000_0000_0000_0000),
            i <= n,
            out@.len() == i,
            forall|j: int| 0 <= j < i ==> #[trigger] out@[j] as int == a@[j] + b@[j],
        decreases n - i,
    {
        proof {
            assert(ints(a@)[i as int] == a@[i as int]);
            assert(ints(b@)[i as int] == b@[i as int]);
        }
        out.push(a[i] + b[i]);
        i = i + 1;
    }
    proof {
        assert(ints(out@) =~= plane_add(ints(a@), ints(b@)));
    }
    out
}

/// Two to the power `k`.
pub open spec fn doubling(k: nat) -> nat
    decreases k,
{
    if k == 0 {
        1
    } else {
        2 * doubling((k - 1) as nat)
    }
}

pub proof fn lemma_doubling_grows(k: nat, j: nat)
    requires
        k <= j,
    ensures
        doubling(k) <= doubling(j),
    decreases j,
{
    if k < j {
        lemma_doubling_grows(k, (j - 1) as nat);
    }
}

/// A grid halves at most 64 times when its width fits in 64 bits.
pub proof fn lemma_depth_bound(w: int, h: int)
    requires
        0 <= w < 0x1_0000_0000_0000_0000,
    ensures
        pyramid_depth(w, h) <= 64,
{
    if pyramid_depth(w, h) > 64 {
        lemma_depth_doubling(w, h);
        lemma_doubling_grows(64, (pyramid_depth(w, h) - 1) as nat);
        lemma_doubling_pow2(64);
        vstd::arithmetic::power2::lemma2_to64();
    }
}

pub proof fn lemma_doubling_pow2(k: nat)
    ensures
        doubling(k) == vstd::arithmetic::power2::pow2(k),
    decreases k,
{
    if k == 0 {
        vstd::arithmetic::power2::lemma2_to64();
    } else {
        lemma_doubling_pow2((k - 1) as nat);
        vstd::arithmetic::power2::lemma_pow2_unfold(k);
    }
}

pub proof fn lemma_depth_doubling(w: int, h: int)
    requires
        w >= 2,
        h >= 2,
    ensures
        pyramid_depth(w, h) >= 1,
        doubling((pyramid_depth(w, h) - 1) as nat) <= w - 1,
    decreases w,
{
    let c = half_up(w);
    let ch = half_up(h);
    if c >= 2 && ch >= 2 {
        lemma_depth_doubling(c, ch);
        let dc = pyramid_depth(c, ch);
        assert(doubling(dc) == 2 * doubling((dc - 1) as nat));
        assert(pyramid_depth(w, h) == 1 + dc);
    } else {
        assert(pyramid_depth(c, ch) == 0);
        assert(pyramid_depth(w, h) == 1);
        assert(doubling(0) == 1);
    }
}

/// The depth of the pyramid over a `w` by `h` grid, with the side of every
/// level.
pub fn pyramid_dims(w: usize, h: usize) -> (r: (usize, Vec<usize>, Vec<usize>))
    ensures
        r.0 == pyramid_depth(w as int, h as int),
        r.0 <= 64,
        r.1@.len() == r.0 + 1,
        r.2@.len() == r.0 + 1,
        forall|k: int| 0 <= k <= r.0 ==> #[trigger] r.1@[k] == level_dim(w as int, k as nat),
        forall|k: int| 0 <= k <= r.0 ==> #[trigger] r.2@[k] == level_dim(h as int, k as nat),
{
    proof {
        lemma_depth_bound(w as int, h as int);
    }
    let mut ws: Vec<usize> = Vec::new();
    let mut hs: Vec<usize> = Vec::new();
    let mut cw = w;
    let mut chh = h;
    let mut k: usize = 0;
    ws.push(w);
    hs.push(h);
    while cw >= 2 && chh >= 2
        invariant
            cw == level_dim(w as int, k as nat),
            chh == level_dim(h as int, k as nat),
            ws@.len() == k + 1,
            hs@.len() == k + 1,
            forall|j: int| 0 <= j <= k ==> #[trigger] ws@[j] == level_dim(w as int, j as nat),
            forall|j: int| 0 <= j <= k ==> #[trigger] hs@[j] == level_dim(h as int, j as nat),
            pyramid_depth(w as int, h as int) == k + pyramid_depth(cw as int, chh as int),
            k + cw <= w,
        decreases cw,
    {
        proof {
            lemma_level_dim_nonneg(w as int, k as nat);
        }
        cw = cw / 2 + cw % 2;
        chh = chh / 2 + chh % 2;
        k = k + 1;
        ws.push(cw);
        hs.push(chh);
    }
    (k, ws, hs)
}

/// Every level of the Gaussian pyramid of `s`, from 0 to `top`.
pub fn gauss_pyramid(s: Vec<i64>, w: usize, h: usize, top: usize, ws: &Vec<usize>, hs: &Vec<usize>) -> (r: Vec<Vec<i64>>)
    requires
        s@.len() == w * h,
        within(ints(s@), 0, 0x1_0000),
        top <= pyramid_depth(w as int, h as int),
        ws@.len() == top + 1,
        hs@.len() == top + 1,
        forall|k: int| 0 <= k <= top ==> #[trigger] ws@[k] == level_dim(w as int, k as nat),
        forall|k: int| 0 <= k <= top ==> #[trigger] hs@[k] == level_dim(h as int, k as nat),
    ensures
        r@.len() == top + 1,
        forall|k: int| 0 <= k <= top ==> ints((#[trigger] r@[k])@) == gauss(ints(s@), w as int, h as int, k as nat),
{
    let ghost base = ints(s@);
    let mut levels: Vec<Vec<i64>> = Vec::new();
    let mut cur = s;
    let mut k: usize = 0;
    proof {
        assert(ints(cur@) =~= gauss(base, w as int, h as int, 0));
    }
    while k < top
        invariant
            base.len() == w * h,
            within(base, 0, 0x1_0000),
            top <= pyramid_depth(w as int, h as int),
            ws@.len() == top + 1,
            hs@.len() == top + 1,
            forall|j: int| 0 <= j <= top ==> #[trigger] ws@[j] == level_dim(w as int, j as nat),
            forall|j: int| 0 <= j <= top ==> #[trigger] hs@[j] == level_dim(h as int, j as nat),
            k <= top,
            levels@.len() == k,
            forall|j: int| 0 <= j < k ==> ints((#[trigger] levels@[j])@) == gauss(base, w as int, h as int, j as nat),
            ints(cur@) == gauss(base, w as int, h as int, k as nat),
        decreases top - k,
    {
        proof {
            lemma_gauss_within(base, w as int, h as int, k as nat, 0, 0x1_0000);
            lemma_level_dim_nonneg(w as int, k as nat);
            lemma_level_dim_nonneg(h as int, k as nat);
            assert(cur@.len() == ints(cur@).len());
        }
        let next = shrink_plane(&cur, ws[k], hs[k]);
        levels.push(cur);
        cur = next;
        k = k + 1;
    }
    levels.push(cur);
    levels
}

/// Level `k` of the Laplacian pyramid whose Gaussian levels are `gp`.
pub fn laplace_level(gp: &Vec<Vec<i64>>, base: Ghost<Seq<int>>, w: usize, h: usize, k: usize, top: usize, ws: &Vec<usize>, hs: &Vec<usize>) -> (r: Vec<i64>)
    requires
        base@.len() == w * h,
        w * h <= usize::MAX,
        within(base@, 0, 255),
        k <= top,
        top <= pyramid_depth(w as int, h as int),
        gp@.len() == top + 1,
        forall|j: int| 0 <= j <= top ==> ints((#[trigger] gp@[j])@) == gauss(base@, w as int, h as int, j as nat),
        ws@.len() == top + 1,
        hs@.len() == top + 1,
        forall|j: int| 0 <= j <= top ==> #[trigger] ws@[j] == level_dim(w as int, j as nat),
        forall|j: int| 0 <= j <= top ==> #[trigger] hs@[j] == level_dim(h as int, j as nat),
    ensures
        ints(r@) == laplace(base@, w as int, h as int, k as nat, top as nat),
        within(ints(r@), -255, 255),
        r@.len() == level_dim(w as int, k as nat) * level_dim(h as int, k as nat),
{
    proof {
        lemma_gauss_within(base@, w as int, h as int, k as nat, 0, 255);
        lemma_gauss_len(base@, w as int, h as int, k as nat);
        assert(gp@[k as int]@.len() == ints(gp@[k as int]@).len());
    }
    if k >= top {
        let mut out: Vec<i64> = Vec::new();
        let n = gp[k].len();
        let mut i: usize = 0;
        while i < n
            invariant
                gp@.len() == top + 1,
                k <= top,
                n == gp@[k as int]@.len(),
                i <= n,
                out@.len() == i,
                forall|j: int| 0 <= j < i ==> #[trigger] out@[j] == gp@[k as int]@[j],
            decreases n - i,
        {
            out.push(gp[k][i]);
            i = i + 1;
        }
        proof {
            assert(out@ =~= gp@[k as int]@);
        }
        out
    } else {
        proof {
            lemma_level_dims(w as int, h as int, k as nat);
            lemma_gauss_within(base@, w as int, h as int, (k + 1) as nat, 0, 255);
            lemma_level_dim_nonneg(w as int, k as nat);
            lemma_level_dim_nonneg(h as int, k as nat);
            lemma_level_dim_nonneg(w as int, 0);
            assert(ws@[k as int] * hs@[k as int] <= w * h) by (nonlinear_arith)
                requires ws@[k as int] <= w, hs@[k as int] <= h, ws@[k as int] >= 0, hs@[k as int] >= 0;
            assert(gp@[k as int + 1]@.len() == ints(gp@[k as int + 1]@).len());
        }
        let up = expand_plane(&gp[k + 1], ws[k], hs[k]);
        proof {
            lemma_expand_within(ints(gp@[k as int + 1]@), ws@[k as int] as int, hs@[k as int] as int, 0, 255);
        }
        let r = sub_planes(&gp[k], &up);
        proof {
            assert(r@.len() == ints(r@).len());
            assert forall|i: int| 0 <= i < ints(r@).len() implies -255 <= #[trigger] ints(r@)[i] <= 255 by {
                assert(ints(r@)[i] == ints(gp@[k as int]@)[i] - ints(up@)[i]);
            }
        }
        r
    }
}

/// Expanding keeps values within bounds.
pub proof fn lemma_expand_within(s: Seq<int>, w: int, h: int, lo: int, hi: int)
    requires
        w >= 0,
        h >= 0,
        s.len() == half_up(w) * half_up(h),
        within(s, lo, hi),
    ensures
        within(expand(s, w, h), lo, hi),
        expand(s, w, h).len() == w * h,
{
    assert(w * h >= 0) by (nonlinear_arith)
        requires w >= 0, h >= 0;
    assert forall|i: int| 0 <= i < expand(s, w, h).len() implies lo <= #[trigger] expand(s, w, h)[i] <= hi by {
        assert(w > 0) by (nonlinear_arith)
            requires 0 <= i < w * h, w >= 0, h >= 0;
        lemma_split_index(i, w, h);
        lemma_index_in_grid((i % w) / 2, (i / w) / 2, half_up(w), half_up(h));
    }
}

/// Collapsing the Laplacian pyramid of a plane gives its Gaussian levels
/// back.
pub proof fn lemma_collapse_laplace(levels: Seq<Seq<int>>, s: Seq<int>, w: int, h: int, k: nat, top: nat)
    requires
        w >= 0,
        h >= 0,
        s.len() == w * h,
        k <= top,
        top <= pyramid_depth(w, h),
        levels.len() == top + 1,
        forall|j: int| 0 <= j <= top ==> #[trigger] levels[j] == laplace(s, w, h, j as nat, top),
    ensures
        collapse_from(levels, w, h, k, top) == gauss(s, w, h, k),
    decreases top - k,
{
    if k < top {
        lemma_collapse_laplace(levels, s, w, h, k + 1, top);
        let g = gauss(s, w, h, k);
        let up = expand(gauss(s, w, h, k + 1), level_dim(w, k), level_dim(h, k));
        lemma_gauss_len(s, w, h, k);
        lemma_gauss_len(s, w, h, k + 1);
        lemma_level_dims(w, h, k);
        lemma_level_dim_nonneg(w, k);
        lemma_level_dim_nonneg(h, k);
        assert(level_dim(w, k) * level_dim(h, k) >= 0) by (nonlinear_arith)
            requires level_dim(w, k) >= 0, level_dim(h, k) >= 0;
        assert(up.len() == g.len());
        assert(levels[k as int] == plane_sub(g, up));
        assert(plane_add(plane_sub(g, up), up) =~= g);
    }
}

/// The length of each level of a Gaussian pyramid.
pub proof fn lemma_gauss_len(s: Seq<int>, w: int, h: int, k: nat)
    requires
        w >= 0,
        h >= 0,
        s.len() == w * h,
    ensures
        gauss(s, w, h, k).len() == level_dim(w, k) * level_dim(h, k),
    decreases k,
{
    if k > 0 {
        lemma_gauss_len(s, w, h, (k - 1) as nat);
        lemma_level_dim_nonneg(w, (k - 1) as nat);
        lemma_level_dim_nonneg(h, (k - 1) as nat);
        let lw = level_dim(w, (k - 1) as nat);
        let lh = level_dim(h, (k - 1) as nat);
        assert(half_up(lw) * half_up(lh) >= 0) by (nonlinear_arith)
            requires lw >= 0, lh >= 0;
    }
}

/// `v / d` rounded down, for a positive `d`.
pub fn floor_div(v: i64, d: i64) -> (r: i64)
    requires
        d > 0,
        v > i64::MIN + d,
    ensures
        r == v / d,
{
    if v >= 0 {
        v / d
    } else {
        let a = -v;
        let q = (a + d - 1) / d;
        proof {
            vstd::arithmetic::div_mod::lemma_fundamental_div_mod((a + d - 1) as int, d as int);
            let m = (a + d - 1) as int % (d as int);
            assert(0 <= m < d);
            assert(q * d + m == a + d - 1) by (nonlinear_arith)
                requires d * q + m == a + d - 1;
            let rem = q * d - a;
            assert(0 <= rem < d);
            assert(v == (-q) * d + rem) by (nonlinear_arith)
                requires rem == q * d - a, a == -v;
            vstd::arithmetic::div_mod::lemma_fundamental_div_mod_converse(v as int, d as int, -q, rem);
        }
        -q
    }
}

/// The blended pyramid `levels` collapsed to a plane of the base size.
pub fn collapse_levels(
    levels: &Vec<Vec<i64>>,
    spec_levels: Ghost<Seq<Seq<int>>>,
    w: usize,
    h: usize,
    top: usize,
    ws: &Vec<usize>,
    hs: &Vec<usize>,
) -> (r: Vec<i64>)
    requires
        w * h <= usize::MAX,
        top <= pyramid_depth(w as int, h as int),
        top <= 64,
        levels@.len() == top + 1,
        spec_levels@.len() == top + 1,
        forall|j: int| 0 <= j <= top ==> ints((#[trigger] levels@[j])@) == spec_levels@[j],
        forall|j: int| 0 <= j <= top ==> within(#[trigger] spec_levels@[j], -0x100_0000_0000, 0x100_0000_0000),
        forall|j: int| 0 <= j <= top ==> (#[trigger] spec_levels@[j]).len() == level_dim(w as int, j as nat) * level_dim(h as int, j as nat),
        ws@.len() == top + 1,
        hs@.len() == top + 1,
        forall|j: int| 0 <= j <= top ==> #[trigger] ws@[j] == level_dim(w as int, j as nat),
        forall|j: int| 0 <= j <= top ==> #[trigger] hs@[j] == level_dim(h as int, j as nat),
    ensures
        ints(r@) == collapse_from(spec_levels@, w as int, h as int, 0, top as nat),
        r@.len() == w * h,
{
    let mut cur: Vec<i64> = Vec::new();
    let n = levels[top].len();
    let mut i: usize = 0;
    while i < n
        invariant
            levels@.len() == top + 1,
            n == levels@[top as int]@.len(),
            i <= n,
            cur@.len() == i,
            forall|j: int| 0 <= j < i ==> #[trigger] cur@[j] == levels@[top as int]@[j],
        decreases n - i,
    {
        cur.push(levels[top][i]);
        i = i + 1;
    }
    proof {
        assert(cur@ =~= levels@[top as int]@);
    }
    let mut k: usize = top;
    while k > 0
        invariant
            w * h <= usize::MAX,
            top <= pyramid_depth(w as int, h as int),
            top <= 64,
            k <= top,
            levels@.len() == top + 1,
            spec_levels@.len() == top + 1,
            forall|j: int| 0 <= j <= top ==> ints((#[trigger] levels@[j])@) == spec_levels@[j],
            forall|j: int| 0 <= j <= top ==> within(#[trigger] spec_levels@[j], -0x100_0000_0000, 0x100_0000_0000),
            forall|j: int| 0 <= j <= top ==> (#[trigger] spec_levels@[j]).len() == level_dim(w as int, j as nat) * level_dim(h as int, j as nat),
            ws@.len() == top + 1,
            hs@.len() == top + 1,
            forall|j: int| 0 <= j <= top ==> #[trigger] ws@[j] == level_dim(w as int, j as nat),
            forall|j: int| 0 <= j <= top ==> #[trigger] hs@[j] == level_dim(h as int, j as nat),
            ints(cur@) == collapse_from(spec_levels@, w as int, h as int, k as nat, top as nat),
            cur@.len() == level_dim(w as int, k as nat) * level_dim(h as int, k as nat),
            within(ints(cur@), -(top + 1 - k) * 0x100_0000_0000, (top + 1 - k) * 0x100_0000_0000),
        decreases k,
    {
        let j = k - 1;
        proof {
            lemma_level_dims(w as int, h as int, j as nat);
            lemma_level_dim_nonneg(w as int, j as nat);
            lemma_level_dim_nonneg(h as int, j as nat);
            assert(ws@[j as int] * hs@[j as int] <= w * h) by (nonlinear_arith)
                requires ws@[j as int] <= w, hs@[j as int] <= h, ws@[j as int] >= 0, hs@[j as int] >= 0;
            assert(cur@.len() == ints(cur@).len());
            lemma_expand_within(ints(cur@), ws@[j as int] as int, hs@[j as int] as int, -(top + 1 - k) * 0x100_0000_0000, (top + 1 - k) * 0x100_0000_0000);
        }
        let up = expand_plane(&cur, ws[j], hs[j]);
        proof {
            assert((top + 1 - k) * 0x100_0000_0000 <= 65 * 0x100_0000_0000) by (nonlinear_arith)
                requires top + 1 - k <= 65, top + 1 - k >= 0;
            assert(levels@[j as int]@.len() == ints(levels@[j as int]@).len());
        }
        let next = add_planes(&levels[j], &up);
        proof {
            assert(next@.len() == ints(next@).len());
            assert(ints(levels@[j as int]@).len() == levels@[j as int]@.len());
            assert forall|i: int| 0 <= i < ints(next@).len() implies -(top + 1 - j) * 0x100_0000_0000 <= #[trigger] ints(next@)[i] <= (top + 1 - j) * 0x100_0000_0000 by {
                assert(ints(next@)[i] == spec_levels@[j as int][i] + ints(up@)[i]);
                assert((top + 1 - j) * 0x100_0000_0000 == (top + 1 - k) * 0x100_0000_0000 + 0x100_0000_0000) by (nonlinear_arith)
                    requires j == k - 1;
            }
        }
        cur = next;
        k = j;
    }
    cur
}

} // verus!
