use vstd::prelude::*;
use crate::align::{luma, luma_plane, luminance};
use crate::arith::{abs_diff, lemma_div_bound, lemma_index_in_grid, lemma_split_index};
use crate::blend::{
    collapse_levels, pyramid_dims, floor_div, gauss_pyramid, ints, laplace_level, lemma_gauss_within, within,
    collapse_from, gauss, laplace, lemma_collapse_laplace, lemma_gauss_len, lemma_level_dim_nonneg,
    lemma_level_dims, level_dim, pyramid_depth, shrink,
};
use crate::image::{Image, PhotoError};
use crate::merge::{
    lemma_total_permutation, lemma_total_push, lemma_total_single, total, ResponseCurve, MAX_EXPOSURES,
};

verus! {

/// Fixed-point unit of the quality measures and of the fusion weights: each
/// measure is scaled into `[0, QUALITY_ONE]` before it is raised to its
/// exponent.
pub const QUALITY_ONE: u64 = 0x1_0000;

/// `m / QUALITY_ONE` to the power `e`, in units of `QUALITY_ONE`, by
/// repeated squaring with each product rounded down.
pub open spec fn fx_power(m: int, e: nat) -> int
    decreases e,
{
    if e == 0 {
        QUALITY_ONE as int
    } else {
        let h = fx_power(m, e / 2);
        let h2 = h * h / (QUALITY_ONE as int);
        if e % 2 == 1 {
            h2 * m / (QUALITY_ONE as int)
        } else {
            h2
        }
    }
}

/// `v` held within `[0, n - 1]`: the border pixel stands in for those beyond.
pub open spec fn clamp_index(v: int, n: int) -> int {
    if v < 0 {
        0
    } else if v >= n {
        n - 1
    } else {
        v
    }
}

/// Local contrast at pixel `q` of a `w` by `h` image: the magnitude of the
/// four-neighbour Laplacian of its luminance, the border repeated outward.
pub open spec fn contrast(d: Seq<u8>, w: int, h: int, ch: int, q: int) -> int {
    let x = q % w;
    let y = q / w;
    let c = luma(d, ch, y * w + x) as int;
    let l = luma(d, ch, y * w + clamp_index(x - 1, w)) as int;
    let r = luma(d, ch, y * w + clamp_index(x + 1, w)) as int;
    let u = luma(d, ch, clamp_index(y - 1, h) * w + x) as int;
    let b = luma(d, ch, clamp_index(y + 1, h) * w + x) as int;
    abs_diff(4 * c, l + r + u + b)
}

/// Saturation at pixel `q`: the mean absolute deviation of its three
/// channels from their mean; one for a grey image, where it plays no part.
pub open spec fn saturation(d: Seq<u8>, ch: int, q: int) -> int {
    if ch == 1 {
        1
    } else {
        let m = (d[3 * q] + d[3 * q + 1] + d[3 * q + 2]) / 3;
        (abs_diff(d[3 * q] as int, m) + abs_diff(d[3 * q + 1] as int, m) + abs_diff(d[3 * q + 2] as int, m)) / 3
    }
}

/// Closeness of a level to mid-grey: 128 at 128, falling to zero at 0 and to
/// one at 255.
pub open spec fn mid_closeness(z: int) -> int {
    128 - abs_diff(z, 128)
}

/// Well-exposedness at pixel `q`: the product over its channels of their
/// closeness to mid-grey.
pub open spec fn exposedness(d: Seq<u8>, ch: int, q: int) -> int {
    if ch == 1 {
        mid_closeness(d[q] as int)
    } else {
        mid_closeness(d[3 * q] as int) * mid_closeness(d[3 * q + 1] as int) * mid_closeness(
            d[3 * q + 2] as int,
        )
    }
}

/// Contrast scaled into `[0, QUALITY_ONE]`: the largest Laplacian is 1020.
pub open spec fn contrast_q(d: Seq<u8>, w: int, h: int, ch: int, q: int) -> int {
    contrast(d, w, h, ch, q) * QUALITY_ONE / 1020
}

/// Saturation scaled into `[0, QUALITY_ONE]`; `QUALITY_ONE` for a grey image.
pub open spec fn saturation_q(d: Seq<u8>, ch: int, q: int) -> int {
    if ch == 1 {
        QUALITY_ONE as int
    } else {
        saturation(d, ch, q) * QUALITY_ONE / 255
    }
}

/// Well-exposedness scaled into `[0, QUALITY_ONE]`: 128 per channel at best.
pub open spec fn exposedness_q(d: Seq<u8>, ch: int, q: int) -> int {
    if ch == 1 {
        exposedness(d, ch, q) * QUALITY_ONE / 128
    } else {
        exposedness(d, ch, q) * QUALITY_ONE / 0x20_0000
    }
}

/// The fusion weight of pixel `q`, in `[0, QUALITY_ONE]`: the scaled
/// contrast, saturation and well-exposedness, each raised to its exponent,
/// multiplied in fixed point.
pub open spec fn fusion_weight(d: Seq<u8>, w: int, h: int, ch: int, e: (nat, nat, nat), q: int) -> int {
    fx_power(contrast_q(d, w, h, ch, q), e.0) * fx_power(saturation_q(d, ch, q), e.1) / (QUALITY_ONE as int)
        * fx_power(exposedness_q(d, ch, q), e.2) / (QUALITY_ONE as int)
}

pub open spec fn fusion_weight_term(w: int, h: int, ch: int, e: (nat, nat, nat), q: int) -> spec_fn(Seq<u8>) -> int {
    |d: Seq<u8>| fusion_weight(d, w, h, ch, e, q)
}

/// Fixed-point unit of the normalised weights: the shares of the images at
/// one pixel add up to at most `WEIGHT_ONE`.
pub const WEIGHT_ONE: u64 = 0x1_0000;

/// The total fusion weight of each pixel over the images `ds`.
pub open spec fn weight_totals(ds: Seq<Seq<u8>>, w: int, h: int, ch: int, e: (nat, nat, nat)) -> Seq<int> {
    Seq::new((w * h) as nat, |q: int| total(ds, fusion_weight_term(w, h, ch, e, q)))
}

/// The weight map of image `d` normalised by the totals `tot` over `n`
/// images: its share of each pixel's total in units of `WEIGHT_ONE`, or an
/// equal share where the total is zero.
pub open spec fn norm_weights(d: Seq<u8>, tot: Seq<int>, n: int, w: int, h: int, ch: int, e: (nat, nat, nat)) -> Seq<int> {
    Seq::new(
        (w * h) as nat,
        |q: int|
            if tot[q] > 0 {
                fusion_weight(d, w, h, ch, e, q) * WEIGHT_ONE / tot[q]
            } else {
                (WEIGHT_ONE as int) / n
            },
    )
}

/// Channel `c` of image `d` as a plane of `n` pixels.
pub open spec fn channel_plane(d: Seq<u8>, ch: int, c: int, n: int) -> Seq<int> {
    Seq::new(n as nat, |q: int| d[q * ch + c] as int)
}

/// What image `d` adds at element `i` of level `k` of the blend of channel
/// `c`: its weight pyramid times its Laplacian pyramid there.
pub open spec fn blend_term(
    tot: Seq<int>,
    n: int,
    w: int,
    h: int,
    ch: int,
    e: (nat, nat, nat),
    c: int,
    k: nat,
    top: nat,
    i: int,
) -> spec_fn(Seq<u8>) -> int {
    |d: Seq<u8>|
        gauss(norm_weights(d, tot, n, w, h, ch, e), w, h, k)[i] * laplace(
            channel_plane(d, ch, c, w * h),
            w,
            h,
            k,
            top,
        )[i]
}

/// Level `k` of the blended Laplacian pyramid of channel `c`: the images'
/// Laplacian levels weighted by their shares there and divided by the sum of
/// the shares, or their plain mean where every share is zero.
pub open spec fn blend_level(
    ds: Seq<Seq<u8>>,
    tot: Seq<int>,
    w: int,
    h: int,
    ch: int,
    e: (nat, nat, nat),
    c: int,
    k: nat,
    top: nat,
) -> Seq<int> {
    Seq::new(
        (level_dim(w, k) * level_dim(h, k)) as nat,
        |i: int|
            {
                let n = ds.len() as int;
                let den = total(ds, share_term(tot, n, w, h, ch, e, k, i));
                if den > 0 {
                    total(ds, blend_term(tot, n, w, h, ch, e, c, k, top, i)) / den
                } else {
                    total(ds, lap_term(w, h, ch, c, k, top, i)) / n
                }
            },
    )
}

/// The share of image `d` at element `i` of level `k` of the weight pyramid.
pub open spec fn share_term(
    tot: Seq<int>,
    n: int,
    w: int,
    h: int,
    ch: int,
    e: (nat, nat, nat),
    k: nat,
    i: int,
) -> spec_fn(Seq<u8>) -> int {
    |d: Seq<u8>| gauss(norm_weights(d, tot, n, w, h, ch, e), w, h, k)[i]
}

/// Element `i` of level `k` of the Laplacian pyramid of channel `c` of `d`.
pub open spec fn lap_term(w: int, h: int, ch: int, c: int, k: nat, top: nat, i: int) -> spec_fn(Seq<u8>) -> int {
    |d: Seq<u8>| laplace(channel_plane(d, ch, c, w * h), w, h, k, top)[i]
}

/// The levels 0 to `top` of the blended Laplacian pyramid of channel `c`.
pub open spec fn blend_levels(
    ds: Seq<Seq<u8>>,
    tot: Seq<int>,
    w: int,
    h: int,
    ch: int,
    e: (nat, nat, nat),
    c: int,
    top: nat,
) -> Seq<Seq<int>> {
    Seq::new(top + 1, |k: int| blend_level(ds, tot, w, h, ch, e, c, k as nat, top))
}

/// `v` held to the byte range.
pub open spec fn clamp_byte(v: int) -> u8 {
    if v < 0 {
        0
    } else if v > 255 {
        255
    } else {
        v as u8
    }
}

/// Element `p` of the fusion of the images `ds`, each `w` by `h` with `ch`
/// channels: the images' Laplacian pyramids blended level by level under the
/// Gaussian pyramids of their normalised weights, collapsed, and held to the
/// byte range.
pub open spec fn mertens_value(ds: Seq<Seq<u8>>, w: int, h: int, ch: int, e: (nat, nat, nat), p: int) -> u8 {
    let tot = weight_totals(ds, w, h, ch, e);
    let top = pyramid_depth(w, h);
    clamp_byte(collapse_from(blend_levels(ds, tot, w, h, ch, e, p % ch, top), w, h, 0, top)[p / ch])
}

/// The fusion of the images `ds`, `n` elements.
pub open spec fn mertens_map(ds: Seq<Seq<u8>>, w: int, h: int, ch: int, e: (nat, nat, nat), n: nat) -> Seq<u8> {
    Seq::new(n, |p: int| mertens_value(ds, w, h, ch, e, p))
}

/// The pixels of each image of a sequence.
pub open spec fn pixel_data(src: Seq<Image>) -> Seq<Seq<u8>> {
    Seq::new(src.len(), |i: int| src[i].data@)
}

/// Images of one shape, at least one and at most `MAX_EXPOSURES`.
pub open spec fn valid_stack(src: Seq<Image>) -> bool {
    &&& 0 < src.len() <= MAX_EXPOSURES
    &&& forall|i: int| 0 <= i < src.len() ==> (#[trigger] src[i]).same_shape(&src[0])
}

pub proof fn lemma_fx_power_range(m: int, e: nat)
    requires
        0 <= m <= QUALITY_ONE,
    ensures
        0 <= fx_power(m, e) <= QUALITY_ONE,
    decreases e,
{
    if e > 0 {
        lemma_fx_power_range(m, e / 2);
        let h = fx_power(m, e / 2);
        let one = QUALITY_ONE as int;
        assert(0 <= h * h <= one * one) by (nonlinear_arith)
            requires 0 <= h <= one;
        lemma_div_bound(h * h, one, one);
        let h2 = h * h / one;
        assert(0 <= h2 * m <= one * one) by (nonlinear_arith)
            requires 0 <= h2 <= one, 0 <= m <= one;
        lemma_div_bound(h2 * m, one, one);
    }
}

/// The bound of every fusion weight.
pub open spec fn weight_limit() -> int {
    QUALITY_ONE as int
}

/// The fixed-point power of a scaled measure.
fn fx_power_exec(m: u64, e: u32) -> (r: u64)
    requires
        m <= QUALITY_ONE,
    ensures
        r == fx_power(m as int, e as nat),
        r <= QUALITY_ONE,
    decreases e,
{
    proof {
        lemma_fx_power_range(m as int, e as nat);
    }
    if e == 0 {
        QUALITY_ONE
    } else {
        let h = fx_power_exec(m, e / 2);
        proof {
            lemma_fx_power_range(m as int, (e / 2) as nat);
            assert(h * h <= QUALITY_ONE * QUALITY_ONE) by (nonlinear_arith)
                requires h <= QUALITY_ONE;
            lemma_div_bound((h * h) as int, QUALITY_ONE as int, QUALITY_ONE as int);
        }
        let h2 = h * h / QUALITY_ONE;
        if e % 2 == 1 {
            proof {
                assert(h2 * m <= QUALITY_ONE * QUALITY_ONE) by (nonlinear_arith)
                    requires h2 <= QUALITY_ONE, m <= QUALITY_ONE;
            }
            h2 * m / QUALITY_ONE
        } else {
            h2
        }
    }
}

#[verifier::rlimit(40)]
fn contrast_at(img: &Image, g: &Vec<u8>, q: usize) -> (r: u128)
    requires
        img.wf(),
        g@ == luma_plane(img),
        q < img.width * img.height,
    ensures
        r == contrast(img.data@, img.width as int, img.height as int, img.channels as int, q as int),
        r <= 1020,
{
    let w = img.width;
    let h = img.height;
    let len = img.data.len();
    proof {
        img.lemma_len();
        assert(w > 0) by (nonlinear_arith)
            requires q < w * h, w >= 0, h >= 0, q >= 0;
        lemma_split_index(q as int, w as int, h as int);
    }
    let x = q % w;
    let y = q / w;
    let xl = if x == 0 { 0 } else { x - 1 };
    let xr = if x + 1 >= w { w - 1 } else { x + 1 };
    let yu = if y == 0 { 0 } else { y - 1 };
    let yb = if y + 1 >= h { h - 1 } else { y + 1 };
    proof {
        lemma_index_in_grid(x as int, y as int, w as int, h as int);
        lemma_index_in_grid(xl as int, y as int, w as int, h as int);
        lemma_index_in_grid(xr as int, y as int, w as int, h as int);
        lemma_index_in_grid(x as int, yu as int, w as int, h as int);
        lemma_index_in_grid(x as int, yb as int, w as int, h as int);
    }
    let c = g[y * w + x] as u128;
    let l = g[y * w + xl] as u128;
    let r = g[y * w + xr] as u128;
    let u = g[yu * w + x] as u128;
    let b = g[yb * w + x] as u128;
    if 4 * c >= l + r + u + b {
        4 * c - (l + r + u + b)
    } else {
        (l + r + u + b) - 4 * c
    }
}

fn saturation_at(img: &Image, q: usize) -> (r: u128)
    requires
        img.wf(),
        q < img.width * img.height,
    ensures
        r == saturation(img.data@, img.channels as int, q as int),
        r <= 255,
{
    let len = img.data.len();
    proof {
        img.lemma_len();
    }
    if img.channels == 1 {
        1
    } else {
        let b0 = img.data[3 * q] as u128;
        let b1 = img.data[3 * q + 1] as u128;
        let b2 = img.data[3 * q + 2] as u128;
        let m = (b0 + b1 + b2) / 3;
        let d0 = if b0 >= m { b0 - m } else { m - b0 };
        let d1 = if b1 >= m { b1 - m } else { m - b1 };
        let d2 = if b2 >= m { b2 - m } else { m - b2 };
        (d0 + d1 + d2) / 3
    }
}

fn closeness(z: u8) -> (r: u128)
    ensures
        r == mid_closeness(z as int),
        r <= 128,
{
    let z = z as u128;
    128 - if z >= 128 { z - 128 } else { 128 - z }
}

fn exposedness_at(img: &Image, q: usize) -> (r: u128)
    requires
        img.wf(),
        q < img.width * img.height,
    ensures
        r == exposedness(img.data@, img.channels as int, q as int),
        r <= 0x20_0000,
        img.channels == 1 ==> r <= 128,
{
    let len = img.data.len();
    proof {
        img.lemma_len();
    }
    if img.channels == 1 {
        closeness(img.data[q])
    } else {
        let k0 = closeness(img.data[3 * q]);
        let k1 = closeness(img.data[3 * q + 1]);
        let k2 = closeness(img.data[3 * q + 2]);
        proof {
            assert(k0 * k1 <= 128 * 128) by (nonlinear_arith)
                requires k0 <= 128, k1 <= 128;
            assert(k0 * k1 * k2 <= 128 * 128 * 128) by (nonlinear_arith)
                requires k0 * k1 <= 128 * 128, k2 <= 128;
        }
        k0 * k1 * k2
    }
}

/// The fusion weight of every pixel of `img`.
fn fusion_weights(img: &Image, e: (u32, u32, u32)) -> (r: Vec<u128>)
    requires
        img.wf(),
    ensures
        r@.len() == img.width * img.height,
        forall|q: int|
            0 <= q < r@.len() ==> #[trigger] r@[q] == fusion_weight(
                img.data@,
                img.width as int,
                img.height as int,
                img.channels as int,
                (e.0 as nat, e.1 as nat, e.2 as nat),
                q,
            ),
        forall|q: int| 0 <= q < r@.len() ==> #[trigger] r@[q] <= weight_limit(),
{
    let g = luminance(img);
    let ghost ee = (e.0 as nat, e.1 as nat, e.2 as nat);
    let len = img.data.len();
    proof {
        img.lemma_len();
    }
    let n = img.width * img.height;
    let mut out: Vec<u128> = Vec::with_capacity(n);
    let mut q: usize = 0;
    while q < n
        invariant
            img.wf(),
            n == img.width * img.height,
            g.data@ == luma_plane(img),
            ee == (e.0 as nat, e.1 as nat, e.2 as nat),
                q <= n,
            out@.len() == q,
            forall|k: int|
                0 <= k < q ==> #[trigger] out@[k] == fusion_weight(
                    img.data@,
                    img.width as int,
                    img.height as int,
                    img.channels as int,
                    ee,
                    k,
                ),
            forall|k: int| 0 <= k < q ==> #[trigger] out@[k] <= weight_limit(),
        decreases n - q,
    {
        let lap = contrast_at(img, &g.data, q);
        let sat = saturation_at(img, q);
        let expo = exposedness_at(img, q);
        let cq = (lap as u64) * QUALITY_ONE / 1020;
        let sq: u64 = if img.channels == 1 { QUALITY_ONE } else { (sat as u64) * QUALITY_ONE / 255 };
        let xq: u64 = if img.channels == 1 {
            (expo as u64) * QUALITY_ONE / 128
        } else {
            (expo as u64) * QUALITY_ONE / 0x20_0000
        };
        proof {
            assert(lap * QUALITY_ONE <= 1020 * QUALITY_ONE) by (nonlinear_arith)
                requires lap <= 1020;
            lemma_div_bound((lap * QUALITY_ONE) as int, 1020, QUALITY_ONE as int);
            assert(sat * QUALITY_ONE <= 255 * QUALITY_ONE) by (nonlinear_arith)
                requires sat <= 255;
            lemma_div_bound((sat * QUALITY_ONE) as int, 255, QUALITY_ONE as int);
            if img.channels == 1 {
                assert(expo <= 128);
                assert(expo * QUALITY_ONE <= 128 * QUALITY_ONE) by (nonlinear_arith)
                    requires expo <= 128;
                lemma_div_bound((expo * QUALITY_ONE) as int, 128, QUALITY_ONE as int);
            } else {
                assert(expo * QUALITY_ONE <= 0x20_0000 * QUALITY_ONE) by (nonlinear_arith)
                    requires expo <= 0x20_0000;
                lemma_div_bound((expo * QUALITY_ONE) as int, 0x20_0000, QUALITY_ONE as int);
            }
        }
        let pc = fx_power_exec(cq, e.0);
        let ps = fx_power_exec(sq, e.1);
        let px = fx_power_exec(xq, e.2);
        proof {
            assert(pc * ps <= QUALITY_ONE * QUALITY_ONE) by (nonlinear_arith)
                requires pc <= QUALITY_ONE, ps <= QUALITY_ONE;
            lemma_div_bound((pc * ps) as int, QUALITY_ONE as int, QUALITY_ONE as int);
            let a = (pc * ps) as int / (QUALITY_ONE as int);
            assert(a * px <= QUALITY_ONE * QUALITY_ONE) by (nonlinear_arith)
                requires a <= QUALITY_ONE, px <= QUALITY_ONE;
            lemma_div_bound((a * px) as int, QUALITY_ONE as int, QUALITY_ONE as int);
        }
        let wt = pc * ps / QUALITY_ONE * px / QUALITY_ONE;
        out.push(wt as u128);
        q = q + 1;
    }
    out
}

/// The stack conditions that every step of fusion relies on.
pub open spec fn fusion_ready(src: Seq<Image>, weights: Seq<Vec<u128>>, e: (nat, nat, nat)) -> bool {
    &&& valid_stack(src)
    &&& forall|j: int| 0 <= j < src.len() ==> (#[trigger] src[j]).wf()
    &&& weights.len() == src.len()
    &&& forall|j: int, q: int|
        0 <= j < src.len() && 0 <= q < src[0].width * src[0].height ==> #[trigger] weights[j]@[q]
            == fusion_weight(src[j].data@, src[0].width as int, src[0].height as int, src[0].channels as int, e, q)
            && weights[j]@[q] <= weight_limit() && weights[j]@.len() == src[0].width * src[0].height
}

/// The total weight of each pixel over the stack.
fn total_weights(src: &Vec<Image>, weights: &Vec<Vec<u128>>, e: Ghost<(nat, nat, nat)>) -> (r: Vec<u128>)
    requires
        fusion_ready(src@, weights@, e@),
    ensures
        r@.len() == src@[0].width * src@[0].height,
        forall|q: int|
            0 <= q < r@.len() ==> #[trigger] r@[q] == weight_totals(
                pixel_data(src@),
                src@[0].width as int,
                src@[0].height as int,
                src@[0].channels as int,
                e@,
            )[q],
        forall|j: int, q: int| 0 <= j < src@.len() && 0 <= q < r@.len() ==> #[trigger] weights@[j]@[q] <= r@[q],
{
    let ghost ds = pixel_data(src@);
    let ghost w = src@[0].width as int;
    let ghost h = src@[0].height as int;
    let ghost ch = src@[0].channels as int;
    let n = src.len();
    let dl = src[0].data.len();
    proof {
        src@[0].lemma_len();
    }
    let npix = src[0].width * src[0].height;
    let mut out: Vec<u128> = Vec::with_capacity(npix);
    let mut q: usize = 0;
    while q < npix
        invariant
            fusion_ready(src@, weights@, e@),
            ds == pixel_data(src@),
            w == src@[0].width,
            h == src@[0].height,
            ch == src@[0].channels,
            n == src@.len(),
            npix == w * h,
            q <= npix,
            out@.len() == q,
            forall|k: int| 0 <= k < q ==> #[trigger] out@[k] == weight_totals(ds, w, h, ch, e@)[k],
            forall|j: int, k: int| 0 <= j < n && 0 <= k < q ==> #[trigger] weights@[j]@[k] <= out@[k],
        decreases npix - q,
    {
        let mut acc: u128 = 0;
        let mut i: usize = 0;
        while i < n
            invariant
                fusion_ready(src@, weights@, e@),
                ds == pixel_data(src@),
                w == src@[0].width,
                h == src@[0].height,
                ch == src@[0].channels,
                n == src@.len(),
                npix == w * h,
                q < npix,
                i <= n,
                acc == total(ds.take(i as int), fusion_weight_term(w, h, ch, e@, q as int)),
                acc <= i * weight_limit(),
                forall|j: int| 0 <= j < i ==> #[trigger] weights@[j]@[q as int] <= acc,
            decreases n - i,
        {
            proof {
                lemma_total_push(ds, i as int, fusion_weight_term(w, h, ch, e@, q as int));
                assert(ds[i as int] == src@[i as int].data@);
                assert(weights@[i as int]@[q as int] <= weight_limit());
                assert(i * weight_limit() <= 0x1_0000_0000 * weight_limit()) by (nonlinear_arith)
                    requires i <= 0x1_0000_0000;
                assert((i + 1) * weight_limit() == i * weight_limit() + weight_limit()) by (nonlinear_arith);
            }
            acc = acc + weights[i][q];
            i = i + 1;
        }
        proof {
            assert(ds.take(n as int) == ds);
        }
        out.push(acc);
        q = q + 1;
    }
    out
}

/// The normalised weight map of image `j`.
fn normalized_weights(
    src: &Vec<Image>,
    weights: &Vec<Vec<u128>>,
    tot: &Vec<u128>,
    j: usize,
    e: Ghost<(nat, nat, nat)>,
) -> (r: Vec<i64>)
    requires
        fusion_ready(src@, weights@, e@),
        j < src@.len(),
        tot@.len() == src@[0].width * src@[0].height,
        forall|q: int|
            0 <= q < tot@.len() ==> #[trigger] tot@[q] == weight_totals(
                pixel_data(src@),
                src@[0].width as int,
                src@[0].height as int,
                src@[0].channels as int,
                e@,
            )[q],
        forall|i: int, q: int| 0 <= i < src@.len() && 0 <= q < tot@.len() ==> #[trigger] weights@[i]@[q] <= tot@[q],
    ensures
        ints(r@) == norm_weights(
            src@[j as int].data@,
            weight_totals(pixel_data(src@), src@[0].width as int, src@[0].height as int, src@[0].channels as int, e@),
            src@.len() as int,
            src@[0].width as int,
            src@[0].height as int,
            src@[0].channels as int,
            e@,
        ),
        within(ints(r@), 0, WEIGHT_ONE as int),
        r@.len() == src@[0].width * src@[0].height,
{
    let ghost tots = weight_totals(pixel_data(src@), src@[0].width as int, src@[0].height as int, src@[0].channels as int, e@);
    let n = src.len();
    let npix = tot.len();
    let mut out: Vec<i64> = Vec::with_capacity(npix);
    let mut q: usize = 0;
    while q < npix
        invariant
            fusion_ready(src@, weights@, e@),
            j < n,
            n == src@.len(),
            npix == tot@.len(),
            npix == src@[0].width * src@[0].height,
            tots == weight_totals(pixel_data(src@), src@[0].width as int, src@[0].height as int, src@[0].channels as int, e@),
            forall|k: int| 0 <= k < npix ==> #[trigger] tot@[k] == tots[k],
            forall|i: int, k: int| 0 <= i < n && 0 <= k < npix ==> #[trigger] weights@[i]@[k] <= tot@[k],
            q <= npix,
            out@.len() == q,
            forall|k: int|
                0 <= k < q ==> #[trigger] out@[k] as int == norm_weights(
                    src@[j as int].data@,
                    tots,
                    n as int,
                    src@[0].width as int,
                    src@[0].height as int,
                    src@[0].channels as int,
                    e@,
                )[k],
            forall|k: int| 0 <= k < q ==> 0 <= #[trigger] out@[k] <= WEIGHT_ONE,
        decreases npix - q,
    {
        let t = tot[q];
        proof {
            assert(weights@[j as int]@[q as int] <= weight_limit());
        }
        let v: i64 = if t > 0 {
            let wq = weights[j][q];
            proof {
                assert(wq <= t);
                assert(wq * WEIGHT_ONE <= t * WEIGHT_ONE) by (nonlinear_arith)
                    requires wq <= t;
                assert(wq <= weight_limit());
                lemma_div_bound((wq * WEIGHT_ONE) as int, t as int, WEIGHT_ONE as int);
            }
            (wq * WEIGHT_ONE as u128 / t) as i64
        } else {
            (WEIGHT_ONE / n as u64) as i64
        };
        out.push(v);
        q = q + 1;
    }
    proof {
        assert(ints(out@) =~= norm_weights(
            src@[j as int].data@,
            tots,
            n as int,
            src@[0].width as int,
            src@[0].height as int,
            src@[0].channels as int,
            e@,
        ));
    }
    out
}

/// Channel `c` of `img` as a plane.
fn channel_plane_exec(img: &Image, c: usize) -> (r: Vec<i64>)
    requires
        img.wf(),
        c < img.channels,
    ensures
        ints(r@) == channel_plane(img.data@, img.channels as int, c as int, img.width * img.height),
        within(ints(r@), 0, 255),
        r@.len() == img.width * img.height,
{
    let len = img.data.len();
    proof {
        img.lemma_len();
    }
    let n = img.width * img.height;
    let ch = img.channels;
    let mut out: Vec<i64> = Vec::with_capacity(n);
    let mut q: usize = 0;
    while q < n
        invariant
            img.wf(),
            len == img.data@.len(),
            len == n * ch,
            n == img.width * img.height,
            ch == img.channels,
            c < ch,
            q <= n,
            out@.len() == q,
            forall|k: int| 0 <= k < q ==> #[trigger] out@[k] as int == img.data@[k * ch + c] as int,
        decreases n - q,
    {
        proof {
            crate::arith::lemma_cell_in_range(q as int, c as int, n as int, ch as int);
        }
        out.push(img.data[q * ch + c] as i64);
        q = q + 1;
    }
    proof {
        assert(ints(out@) =~= channel_plane(img.data@, ch as int, c as int, n as int));
    }
    out
}

fn copy_plane(s: &Vec<i64>) -> (r: Vec<i64>)
    ensures
        r@ == s@,
{
    let mut out: Vec<i64> = Vec::with_capacity(s.len());
    let mut i: usize = 0;
    while i < s.len()
        invariant
            i <= s@.len(),
            out@.len() == i,
            forall|k: int| 0 <= k < i ==> #[trigger] out@[k] == s@[k],
        decreases s@.len() - i,
    {
        out.push(s[i]);
        i = i + 1;
    }
    proof {
        assert(out@ =~= s@);
    }
    out
}

/// Running sums over the images seen so far, element by element of one
/// level: share times Laplacian value, share, and Laplacian value.
pub struct LevelSums {
    pub num: Vec<i64>,
    pub den: Vec<i64>,
    pub lap: Vec<i64>,
}

/// Sums over `j` images: shares of at most `WEIGHT_ONE` and Laplacian values
/// of at most 255 either way.
pub open spec fn sums_bounded(sm: &LevelSums, j: int) -> bool {
    &&& sm.num@.len() == sm.den@.len()
    &&& sm.lap@.len() == sm.den@.len()
    &&& forall|i: int|
        0 <= i < sm.den@.len() ==> {
            &&& 0 <= #[trigger] sm.den@[i] <= j * WEIGHT_ONE
            &&& -(sm.den@[i] * 255) <= sm.num@[i] <= sm.den@[i] * 255
            &&& -(j * 255) <= sm.lap@[i] <= j * 255
        }
}

/// Sums of `n` zeros.
fn zero_sums(n: usize) -> (r: LevelSums)
    ensures
        sums_bounded(&r, 0),
        r.den@.len() == n,
        r.den@ == Seq::new(n as nat, |i: int| 0i64),
        r.num@ == Seq::new(n as nat, |i: int| 0i64),
        r.lap@ == Seq::new(n as nat, |i: int| 0i64),
{
    let r = LevelSums { num: vec![0i64; n], den: vec![0i64; n], lap: vec![0i64; n] };
    proof {
        assert(r.den@ =~= Seq::new(n as nat, |i: int| 0i64));
        assert(r.num@ =~= Seq::new(n as nat, |i: int| 0i64));
        assert(r.lap@ =~= Seq::new(n as nat, |i: int| 0i64));
    }
    r
}

/// The sums with one more image, whose shares are `g` and Laplacian values `l`.
#[verifier::rlimit(40)]
fn add_image(sm: &LevelSums, g: &Vec<i64>, l: &Vec<i64>, j: Ghost<int>) -> (r: LevelSums)
    requires
        0 <= j@ < 0x1_0000_0000,
        sums_bounded(sm, j@),
        g@.len() == sm.den@.len(),
        l@.len() == sm.den@.len(),
        within(ints(g@), 0, WEIGHT_ONE as int),
        within(ints(l@), -255, 255),
    ensures
        sums_bounded(&r, j@ + 1),
        r.den@.len() == sm.den@.len(),
        forall|i: int|
            0 <= i < r.den@.len() ==> {
                &&& #[trigger] r.num@[i] as int == sm.num@[i] + g@[i] * l@[i]
                &&& r.den@[i] as int == sm.den@[i] + g@[i]
                &&& r.lap@[i] as int == sm.lap@[i] + l@[i]
            },
{
    let n = sm.den.len();
    let mut num: Vec<i64> = Vec::with_capacity(n);
    let mut den: Vec<i64> = Vec::with_capacity(n);
    let mut lap: Vec<i64> = Vec::with_capacity(n);
    let mut i: usize = 0;
    while i < n
        invariant
            0 <= j@ < 0x1_0000_0000,
            sums_bounded(sm, j@),
            n == sm.den@.len(),
            g@.len() == n,
            l@.len() == n,
            within(ints(g@), 0, WEIGHT_ONE as int),
            within(ints(l@), -255, 255),
            i <= n,
            num@.len() == i,
            den@.len() == i,
            lap@.len() == i,
            forall|k: int| 0 <= k < i ==> #[trigger] num@[k] as int == sm.num@[k] + g@[k] * l@[k],
            forall|k: int| 0 <= k < i ==> #[trigger] den@[k] as int == sm.den@[k] + g@[k],
            forall|k: int| 0 <= k < i ==> #[trigger] lap@[k] as int == sm.lap@[k] + l@[k],
            forall|k: int| 0 <= k < i ==> 0 <= #[trigger] den@[k] <= (j@ + 1) * WEIGHT_ONE,
            forall|k: int| 0 <= k < i ==> -(den@[k] * 255) <= #[trigger] num@[k] <= den@[k] * 255,
            forall|k: int| 0 <= k < i ==> -((j@ + 1) * 255) <= #[trigger] lap@[k] <= (j@ + 1) * 255,
        decreases n - i,
    {
        let gv = g[i];
        let lv = l[i];
        let a = sm.num[i];
        let d = sm.den[i];
        let b = sm.lap[i];
        proof {
            assert(ints(g@)[i as int] == gv);
            assert(ints(l@)[i as int] == lv);
            assert(0 <= d <= j@ * WEIGHT_ONE);
            assert(-(gv * 255) <= gv * lv <= gv * 255) by (nonlinear_arith)
                requires 0 <= gv, -255 <= lv <= 255;
            assert(j@ * WEIGHT_ONE <= 0x1_0000_0000 * WEIGHT_ONE) by (nonlinear_arith)
                requires j@ < 0x1_0000_0000;
            assert(d * 255 <= 0x1_0000_0000 * WEIGHT_ONE * 255) by (nonlinear_arith)
                requires d <= 0x1_0000_0000 * WEIGHT_ONE;
            assert((d + gv) * 255 == d * 255 + gv * 255) by (nonlinear_arith);
            assert((j@ + 1) * WEIGHT_ONE == j@ * WEIGHT_ONE + WEIGHT_ONE) by (nonlinear_arith);
            assert((j@ + 1) * 255 == j@ * 255 + 255) by (nonlinear_arith);
        }
        num.push(a + gv * lv);
        den.push(d + gv);
        lap.push(b + lv);
        i = i + 1;
    }
    let r = LevelSums { num, den, lap };
    proof {
        assert forall|k: int| 0 <= k < r.den@.len() implies {
            &&& 0 <= #[trigger] r.den@[k] <= (j@ + 1) * WEIGHT_ONE
            &&& -(r.den@[k] * 255) <= r.num@[k] <= r.den@[k] * 255
            &&& -((j@ + 1) * 255) <= r.lap@[k] <= (j@ + 1) * 255
        } by {
            assert(num@[k] as int == sm.num@[k] + g@[k] * l@[k]);
            assert(0 <= den@[k] <= (j@ + 1) * WEIGHT_ONE);
            assert(-(den@[k] * 255) <= num@[k] <= den@[k] * 255);
            assert(-((j@ + 1) * 255) <= lap@[k] <= (j@ + 1) * 255);
        }
    }
    r
}

/// Each element of the blended level: the share-weighted sum divided by the
/// sum of the shares, or the plain mean of `n` images where no share is.
fn combine_level(sm: &LevelSums, n: usize) -> (r: Vec<i64>)
    requires
        1 <= n <= 0x1_0000_0000,
        sums_bounded(sm, n as int),
    ensures
        r@.len() == sm.den@.len(),
        forall|i: int|
            0 <= i < r@.len() ==> #[trigger] r@[i] as int == if sm.den@[i] > 0 {
                (sm.num@[i] as int) / (sm.den@[i] as int)
            } else {
                (sm.lap@[i] as int) / (n as int)
            },
        within(ints(r@), -255, 255),
{
    let len = sm.den.len();
    let mut out: Vec<i64> = Vec::with_capacity(len);
    let mut i: usize = 0;
    while i < len
        invariant
            1 <= n <= 0x1_0000_0000,
            sums_bounded(sm, n as int),
            len == sm.den@.len(),
            i <= len,
            out@.len() == i,
            forall|k: int|
                0 <= k < i ==> #[trigger] out@[k] as int == if sm.den@[k] > 0 {
                    (sm.num@[k] as int) / (sm.den@[k] as int)
                } else {
                    (sm.lap@[k] as int) / (n as int)
                },
            forall|k: int| 0 <= k < i ==> -255 <= #[trigger] out@[k] <= 255,
        decreases len - i,
    {
        let d = sm.den[i];
        let v: i64 = if d > 0 {
            let a = sm.num[i];
            proof {
                assert(n * WEIGHT_ONE <= 0x1_0000_0000 * WEIGHT_ONE) by (nonlinear_arith)
                    requires n <= 0x1_0000_0000;
                assert(d * 255 <= 0x1_0000_0000 * WEIGHT_ONE * 255) by (nonlinear_arith)
                    requires d <= 0x1_0000_0000 * WEIGHT_ONE;
                vstd::arithmetic::div_mod::lemma_div_is_ordered(-(d * 255), a as int, d as int);
                vstd::arithmetic::div_mod::lemma_div_is_ordered(a as int, d * 255, d as int);
                assert(-(d * 255) == d * (-255)) by (nonlinear_arith);
                assert(d * 255 == d * 255);
                vstd::arithmetic::div_mod::lemma_div_multiples_vanish(-255, d as int);
                vstd::arithmetic::div_mod::lemma_div_multiples_vanish(255, d as int);
            }
            floor_div(a, d)
        } else {
            let b = sm.lap[i];
            proof {
                assert(n * 255 <= 0x1_0000_0000 * 255) by (nonlinear_arith)
                    requires n <= 0x1_0000_0000;
                vstd::arithmetic::div_mod::lemma_div_is_ordered(-(n * 255), b as int, n as int);
                vstd::arithmetic::div_mod::lemma_div_is_ordered(b as int, n * 255, n as int);
                assert(-(n * 255) == n * (-255)) by (nonlinear_arith);
                vstd::arithmetic::div_mod::lemma_div_multiples_vanish(-255, n as int);
                vstd::arithmetic::div_mod::lemma_div_multiples_vanish(255, n as int);
            }
            floor_div(b, n as i64)
        };
        out.push(v);
        i = i + 1;
    }
    proof {
        assert forall|k: int| 0 <= k < ints(out@).len() implies -255 <= #[trigger] ints(out@)[k] <= 255 by {
            assert(ints(out@)[k] == out@[k]);
        }
    }
    out
}

/// The blended, collapsed channel `c` of the fusion.
fn blend_channel(
    src: &Vec<Image>,
    nws: &Vec<Vec<i64>>,
    c: usize,
    top: usize,
    ws: &Vec<usize>,
    hs: &Vec<usize>,
    e: Ghost<(nat, nat, nat)>,
    tots: Ghost<Seq<int>>,
) -> (r: Vec<i64>)
    requires
        valid_stack(src@),
        forall|j: int| 0 <= j < src@.len() ==> (#[trigger] src@[j]).wf(),
        c < src@[0].channels,
        top == pyramid_depth(src@[0].width as int, src@[0].height as int),
        top <= 64,
        ws@.len() == top + 1,
        hs@.len() == top + 1,
        forall|k: int| 0 <= k <= top ==> #[trigger] ws@[k] == level_dim(src@[0].width as int, k as nat),
        forall|k: int| 0 <= k <= top ==> #[trigger] hs@[k] == level_dim(src@[0].height as int, k as nat),
        nws@.len() == src@.len(),
        forall|j: int|
            0 <= j < src@.len() ==> ints((#[trigger] nws@[j])@) == norm_weights(
                src@[j].data@,
                tots@,
                src@.len() as int,
                src@[0].width as int,
                src@[0].height as int,
                src@[0].channels as int,
                e@,
            ),
        forall|j: int| 0 <= j < src@.len() ==> within(ints((#[trigger] nws@[j])@), 0, WEIGHT_ONE as int),
        forall|j: int| 0 <= j < src@.len() ==> (#[trigger] nws@[j])@.len() == src@[0].width * src@[0].height,
    ensures
        ints(r@) == collapse_from(
            blend_levels(
                pixel_data(src@),
                tots@,
                src@[0].width as int,
                src@[0].height as int,
                src@[0].channels as int,
                e@,
                c as int,
                top as nat,
            ),
            src@[0].width as int,
            src@[0].height as int,
            0,
            top as nat,
        ),
        r@.len() == src@[0].width * src@[0].height,
{
    let ghost ds = pixel_data(src@);
    let ghost wi = src@[0].width as int;
    let ghost hi = src@[0].height as int;
    let ghost chi = src@[0].channels as int;
    let w = src[0].width;
    let h = src[0].height;
    let n = src.len();
    let dl = src[0].data.len();
    let ghost ni = n as int;
    proof {
        src@[0].lemma_len();
        lemma_level_dims(wi, hi, 0);
    }
    let mut acc: Vec<LevelSums> = Vec::new();
    let mut k: usize = 0;
    while k <= top
        invariant
            top == pyramid_depth(wi, hi),
            top <= 64,
            w == wi,
            h == hi,
            w * h <= dl,
            ws@.len() == top + 1,
            hs@.len() == top + 1,
            forall|j: int| 0 <= j <= top ==> #[trigger] ws@[j] == level_dim(wi, j as nat),
            forall|j: int| 0 <= j <= top ==> #[trigger] hs@[j] == level_dim(hi, j as nat),
            k <= top + 1,
            acc@.len() == k,
            forall|j: int| 0 <= j < k ==> (#[trigger] acc@[j]).den@.len() == level_dim(wi, j as nat) * level_dim(hi, j as nat),
            forall|j: int| 0 <= j < k ==> sums_bounded(&(#[trigger] acc@[j]), 0),
            forall|j: int|
                0 <= j < k ==> {
                    &&& (#[trigger] acc@[j]).den@ == Seq::new(acc@[j].den@.len(), |i: int| 0i64)
                    &&& acc@[j].num@ == Seq::new(acc@[j].den@.len(), |i: int| 0i64)
                    &&& acc@[j].lap@ == Seq::new(acc@[j].den@.len(), |i: int| 0i64)
                },
        decreases top + 1 - k,
    {
        proof {
            lemma_level_dim_nonneg(wi, k as nat);
            lemma_level_dim_nonneg(hi, k as nat);
            assert(ws@[k as int] * hs@[k as int] <= w * h) by (nonlinear_arith)
                requires ws@[k as int] <= w, hs@[k as int] <= h, ws@[k as int] >= 0, hs@[k as int] >= 0;
        }
        let z = zero_sums(ws[k] * hs[k]);
        acc.push(z);
        k = k + 1;
    }
    proof {
        assert forall|kk: int, i: int| 0 <= kk <= top && 0 <= i < acc@[kk].den@.len() implies {
            &&& #[trigger] acc@[kk].num@[i] as int == total(
                ds.take(0),
                blend_term(tots@, ni, wi, hi, chi, e@, c as int, kk as nat, top as nat, i),
            )
            &&& acc@[kk].den@[i] as int == total(ds.take(0), share_term(tots@, ni, wi, hi, chi, e@, kk as nat, i))
            &&& acc@[kk].lap@[i] as int == total(ds.take(0), lap_term(wi, hi, chi, c as int, kk as nat, top as nat, i))
        } by {
            assert(ds.take(0) =~= Seq::<Seq<u8>>::empty());
            let z = acc@[kk];
            assert(z.den@ == Seq::new(z.den@.len(), |i: int| 0i64));
            assert(z.den@[i] == 0 && z.num@[i] == 0 && z.lap@[i] == 0);
        }
    }
    let mut j: usize = 0;
    while j < n
        invariant
            valid_stack(src@),
            forall|jj: int| 0 <= jj < src@.len() ==> (#[trigger] src@[jj]).wf(),
            ds == pixel_data(src@),
            wi == src@[0].width,
            hi == src@[0].height,
            chi == src@[0].channels,
            w == wi,
            h == hi,
            n == src@.len(),
            ni == n,
            n <= 0x1_0000_0000,
            c < chi,
            w * h <= usize::MAX,
            top == pyramid_depth(wi, hi),
            top <= 64,
            ws@.len() == top + 1,
            hs@.len() == top + 1,
            forall|jj: int| 0 <= jj <= top ==> #[trigger] ws@[jj] == level_dim(wi, jj as nat),
            forall|jj: int| 0 <= jj <= top ==> #[trigger] hs@[jj] == level_dim(hi, jj as nat),
            nws@.len() == n,
            forall|jj: int|
                0 <= jj < n ==> ints((#[trigger] nws@[jj])@) == norm_weights(src@[jj].data@, tots@, ni, wi, hi, chi, e@),
            forall|jj: int| 0 <= jj < n ==> within(ints((#[trigger] nws@[jj])@), 0, WEIGHT_ONE as int),
            forall|jj: int| 0 <= jj < n ==> (#[trigger] nws@[jj])@.len() == wi * hi,
            j <= n,
            acc@.len() == top + 1,
            forall|kk: int| 0 <= kk <= top ==> (#[trigger] acc@[kk]).den@.len() == level_dim(wi, kk as nat) * level_dim(hi, kk as nat),
            forall|kk: int| 0 <= kk <= top ==> sums_bounded(&(#[trigger] acc@[kk]), j as int),
            forall|kk: int, i: int|
                0 <= kk <= top && 0 <= i < acc@[kk].den@.len() ==> {
                    &&& #[trigger] acc@[kk].num@[i] as int == total(
                        ds.take(j as int),
                        blend_term(tots@, ni, wi, hi, chi, e@, c as int, kk as nat, top as nat, i),
                    )
                    &&& acc@[kk].den@[i] as int == total(ds.take(j as int), share_term(tots@, ni, wi, hi, chi, e@, kk as nat, i))
                    &&& acc@[kk].lap@[i] as int == total(ds.take(j as int), lap_term(wi, hi, chi, c as int, kk as nat, top as nat, i))
                },
        decreases n - j,
    {
        proof {
            assert(src@[j as int].same_shape(&src@[0]));
            assert(ds[j as int] == src@[j as int].data@);
        }
        let wcopy = copy_plane(&nws[j]);
        let wp = gauss_pyramid(wcopy, w, h, top, ws, hs);
        let plane = channel_plane_exec(&src[j], c);
        let ghost pl = ints(plane@);
        proof {
            assert(within(pl, 0, 0x1_0000));
        }
        let pp = gauss_pyramid(plane, w, h, top, ws, hs);
        let mut next: Vec<LevelSums> = Vec::new();
        let mut k: usize = 0;
        while k <= top
            invariant
                valid_stack(src@),
                ds == pixel_data(src@),
                ds[j as int] == src@[j as int].data@,
                wi == src@[0].width,
                hi == src@[0].height,
                chi == src@[0].channels,
                w == wi,
                h == hi,
                n == src@.len(),
                ni == n,
                j < n,
                n <= 0x1_0000_0000,
                c < chi,
                w * h <= usize::MAX,
                top == pyramid_depth(wi, hi),
                top <= 64,
                ws@.len() == top + 1,
                hs@.len() == top + 1,
                forall|jj: int| 0 <= jj <= top ==> #[trigger] ws@[jj] == level_dim(wi, jj as nat),
                forall|jj: int| 0 <= jj <= top ==> #[trigger] hs@[jj] == level_dim(hi, jj as nat),
                pl == channel_plane(ds[j as int], chi, c as int, wi * hi),
                within(pl, 0, 255),
                pl.len() == wi * hi,
                wp@.len() == top + 1,
                forall|kk: int|
                    0 <= kk <= top ==> ints((#[trigger] wp@[kk])@) == gauss(
                        norm_weights(ds[j as int], tots@, ni, wi, hi, chi, e@),
                        wi,
                        hi,
                        kk as nat,
                    ),
                within(norm_weights(ds[j as int], tots@, ni, wi, hi, chi, e@), 0, WEIGHT_ONE as int),
                norm_weights(ds[j as int], tots@, ni, wi, hi, chi, e@).len() == wi * hi,
                pp@.len() == top + 1,
                forall|kk: int| 0 <= kk <= top ==> ints((#[trigger] pp@[kk])@) == gauss(pl, wi, hi, kk as nat),
                acc@.len() == top + 1,
                forall|kk: int| 0 <= kk <= top ==> (#[trigger] acc@[kk]).den@.len() == level_dim(wi, kk as nat) * level_dim(hi, kk as nat),
                forall|kk: int| 0 <= kk <= top ==> sums_bounded(&(#[trigger] acc@[kk]), j as int),
                forall|kk: int, i: int|
                    0 <= kk <= top && 0 <= i < acc@[kk].den@.len() ==> {
                        &&& #[trigger] acc@[kk].num@[i] as int == total(
                            ds.take(j as int),
                            blend_term(tots@, ni, wi, hi, chi, e@, c as int, kk as nat, top as nat, i),
                        )
                        &&& acc@[kk].den@[i] as int == total(ds.take(j as int), share_term(tots@, ni, wi, hi, chi, e@, kk as nat, i))
                        &&& acc@[kk].lap@[i] as int == total(ds.take(j as int), lap_term(wi, hi, chi, c as int, kk as nat, top as nat, i))
                    },
                k <= top + 1,
                next@.len() == k,
                forall|kk: int| 0 <= kk < k ==> (#[trigger] next@[kk]).den@.len() == level_dim(wi, kk as nat) * level_dim(hi, kk as nat),
                forall|kk: int| 0 <= kk < k ==> sums_bounded(&(#[trigger] next@[kk]), j + 1),
                forall|kk: int, i: int|
                    0 <= kk < k && 0 <= i < next@[kk].den@.len() ==> {
                        &&& #[trigger] next@[kk].num@[i] as int == total(
                            ds.take(j + 1),
                            blend_term(tots@, ni, wi, hi, chi, e@, c as int, kk as nat, top as nat, i),
                        )
                        &&& next@[kk].den@[i] as int == total(ds.take(j + 1), share_term(tots@, ni, wi, hi, chi, e@, kk as nat, i))
                        &&& next@[kk].lap@[i] as int == total(ds.take(j + 1), lap_term(wi, hi, chi, c as int, kk as nat, top as nat, i))
                    },
            decreases top + 1 - k,
        {
            let lap = laplace_level(&pp, Ghost(pl), w, h, k, top, ws, hs);
            proof {
                lemma_gauss_within(norm_weights(ds[j as int], tots@, ni, wi, hi, chi, e@), wi, hi, k as nat, 0, WEIGHT_ONE as int);
                assert(wp@[k as int]@.len() == ints(wp@[k as int]@).len());
                assert(lap@.len() == ints(lap@).len());
            }
            let lvl = add_image(&acc[k], &wp[k], &lap, Ghost(j as int));
            proof {
                assert forall|i: int| 0 <= i < lvl.den@.len() implies {
                    &&& #[trigger] lvl.num@[i] as int == total(
                        ds.take(j + 1),
                        blend_term(tots@, ni, wi, hi, chi, e@, c as int, k as nat, top as nat, i),
                    )
                    &&& lvl.den@[i] as int == total(ds.take(j + 1), share_term(tots@, ni, wi, hi, chi, e@, k as nat, i))
                    &&& lvl.lap@[i] as int == total(ds.take(j + 1), lap_term(wi, hi, chi, c as int, k as nat, top as nat, i))
                } by {
                    lemma_total_push(ds, j as int, blend_term(tots@, ni, wi, hi, chi, e@, c as int, k as nat, top as nat, i));
                    lemma_total_push(ds, j as int, share_term(tots@, ni, wi, hi, chi, e@, k as nat, i));
                    lemma_total_push(ds, j as int, lap_term(wi, hi, chi, c as int, k as nat, top as nat, i));
                    assert(ints(wp@[k as int]@)[i] == wp@[k as int]@[i]);
                    assert(ints(lap@)[i] == lap@[i]);
                    assert(acc@[k as int].num@[i] as int == total(
                        ds.take(j as int),
                        blend_term(tots@, ni, wi, hi, chi, e@, c as int, k as nat, top as nat, i),
                    ));
                }
            }
            let ghost prev = next@;
            next.push(lvl);
            proof {
                assert forall|kk: int, i: int| 0 <= kk < k + 1 && 0 <= i < next@[kk].den@.len() implies {
                    &&& #[trigger] next@[kk].num@[i] as int == total(
                        ds.take(j + 1),
                        blend_term(tots@, ni, wi, hi, chi, e@, c as int, kk as nat, top as nat, i),
                    )
                    &&& next@[kk].den@[i] as int == total(ds.take(j + 1), share_term(tots@, ni, wi, hi, chi, e@, kk as nat, i))
                    &&& next@[kk].lap@[i] as int == total(ds.take(j + 1), lap_term(wi, hi, chi, c as int, kk as nat, top as nat, i))
                } by {
                    if kk == k {
                        assert(next@[kk] == lvl);
                        assert(lvl.den@[i] as int == total(ds.take(j + 1), share_term(tots@, ni, wi, hi, chi, e@, kk as nat, i)));
                    } else {
                        assert(next@[kk] == prev[kk]);
                        assert(prev[kk].num@[i] as int == total(
                            ds.take(j + 1),
                            blend_term(tots@, ni, wi, hi, chi, e@, c as int, kk as nat, top as nat, i),
                        ));
                    }
                }
            }
            k = k + 1;
        }
        acc = next;
        j = j + 1;
    }
    proof {
        assert(ds.take(n as int) == ds);
    }
    let ghost levels = blend_levels(ds, tots@, wi, hi, chi, e@, c as int, top as nat);
    let mut bs: Vec<Vec<i64>> = Vec::new();
    let mut k: usize = 0;
    while k <= top
        invariant
            ds == pixel_data(src@),
            n == src@.len(),
            ni == n,
            1 <= n <= 0x1_0000_0000,
            ds.len() == n,
            levels == blend_levels(ds, tots@, wi, hi, chi, e@, c as int, top as nat),
            top <= 64,
            acc@.len() == top + 1,
            forall|kk: int| 0 <= kk <= top ==> (#[trigger] acc@[kk]).den@.len() == level_dim(wi, kk as nat) * level_dim(hi, kk as nat),
            forall|kk: int| 0 <= kk <= top ==> sums_bounded(&(#[trigger] acc@[kk]), n as int),
            forall|kk: int, i: int|
                0 <= kk <= top && 0 <= i < acc@[kk].den@.len() ==> {
                    &&& #[trigger] acc@[kk].num@[i] as int == total(
                        ds,
                        blend_term(tots@, ni, wi, hi, chi, e@, c as int, kk as nat, top as nat, i),
                    )
                    &&& acc@[kk].den@[i] as int == total(ds, share_term(tots@, ni, wi, hi, chi, e@, kk as nat, i))
                    &&& acc@[kk].lap@[i] as int == total(ds, lap_term(wi, hi, chi, c as int, kk as nat, top as nat, i))
                },
            k <= top + 1,
            bs@.len() == k,
            forall|kk: int| 0 <= kk < k ==> ints((#[trigger] bs@[kk])@) == levels[kk],
            forall|kk: int| 0 <= kk < k ==> within(#[trigger] levels[kk], -0x100_0000_0000, 0x100_0000_0000),
        decreases top + 1 - k,
    {
        let b = combine_level(&acc[k], n);
        proof {
            let bl = blend_level(ds, tots@, wi, hi, chi, e@, c as int, k as nat, top as nat);
            assert(levels[k as int] == bl);
            assert forall|i: int| 0 <= i < bl.len() implies #[trigger] ints(b@)[i] == bl[i] by {
                assert(acc@[k as int].num@[i] as int == total(
                    ds,
                    blend_term(tots@, ni, wi, hi, chi, e@, c as int, k as nat, top as nat, i),
                ));
            }
            assert(ints(b@) =~= bl);
            assert forall|i: int| 0 <= i < bl.len() implies -0x100_0000_0000 <= #[trigger] bl[i] <= 0x100_0000_0000 by {
                assert(ints(b@)[i] == bl[i]);
            }
        }
        bs.push(b);
        k = k + 1;
    }
    proof {
        assert forall|kk: int| 0 <= kk <= top implies (#[trigger] levels[kk]).len() == level_dim(wi, kk as nat)
            * level_dim(hi, kk as nat) by {
            lemma_level_dim_nonneg(wi, kk as nat);
            lemma_level_dim_nonneg(hi, kk as nat);
            assert(level_dim(wi, kk as nat) * level_dim(hi, kk as nat) >= 0) by (nonlinear_arith)
                requires level_dim(wi, kk as nat) >= 0, level_dim(hi, kk as nat) >= 0;
        }
    }
    collapse_levels(&bs, Ghost(levels), w, h, top, ws, hs)
}

/// Exposure fusion: each image weighted pixel by pixel by its contrast,
/// saturation and well-exposedness, each scaled into `[0, 1]` and raised to
/// its exponent, the weights normalised over the stack, and the
/// images blended level by level of their Laplacian pyramids under the
/// Gaussian pyramids of their weights.
#[derive(Debug, Clone, Copy, PartialEq, Eq, Structural)]
pub struct MergeMertens {
    pub contrast_weight: u32,
    pub saturation_weight: u32,
    pub exposure_weight: u32,
}

/// A fusion with the given exponents; every exponent is accepted.
pub fn create_merge_mertens(contrast_weight: u32, saturation_weight: u32, exposure_weight: u32) -> (r:
    Result<MergeMertens, PhotoError>)
    ensures
        r == Ok::<MergeMertens, PhotoError>(MergeMertens { contrast_weight, saturation_weight, exposure_weight }),
{
    Ok(MergeMertens { contrast_weight, saturation_weight, exposure_weight })
}

impl MergeMertens {
    pub open spec fn exponents(&self) -> (nat, nat, nat) {
        (self.contrast_weight as nat, self.saturation_weight as nat, self.exposure_weight as nat)
    }

    /// The fusion of `src` into `dst`. Refuses an empty sequence, more than
    /// `MAX_EXPOSURES` images and images of different shapes, and then leaves
    /// `dst` alone.
    pub fn process(&self, src: &Vec<Image>, dst: &mut Image) -> (r: Result<(), PhotoError>)
        requires
            forall|j: int| 0 <= j < src@.len() ==> (#[trigger] src@[j]).wf(),
        ensures
            valid_stack(src@) <==> r.is_ok(),
            r.is_err() ==> *final(dst) == *old(dst) && r == Err::<(), PhotoError>(PhotoError::InvalidArgument),
            r.is_ok() ==> {
                &&& final(dst).wf()
                &&& final(dst).same_shape(&src@[0])
                &&& final(dst).data@ == mertens_map(
                    pixel_data(src@),
                    src@[0].width as int,
                    src@[0].height as int,
                    src@[0].channels as int,
                    self.exponents(),
                    src@[0].data@.len(),
                )
            },
    {
        let n = src.len();
        if n == 0 || n as u64 > MAX_EXPOSURES {
            return Err(PhotoError::InvalidArgument);
        }
        let mut i: usize = 0;
        while i < n
            invariant
                n == src@.len(),
                0 < n <= MAX_EXPOSURES,
                i <= n,
                forall|j: int| 0 <= j < i ==> (#[trigger] src@[j]).same_shape(&src@[0]),
            decreases n - i,
        {
            if src[i].width != src[0].width || src[i].height != src[0].height
                || src[i].channels != src[0].channels {
                return Err(PhotoError::InvalidArgument);
            }
            i = i + 1;
        }
        let e = (self.contrast_weight, self.saturation_weight, self.exposure_weight);
        let mut weights: Vec<Vec<u128>> = Vec::with_capacity(n);
        let mut i: usize = 0;
        while i < n
            invariant
                e == (self.contrast_weight, self.saturation_weight, self.exposure_weight),
                valid_stack(src@),
                forall|j: int| 0 <= j < src@.len() ==> (#[trigger] src@[j]).wf(),
                n == src@.len(),
                i <= n,
                weights@.len() == i,
                forall|j: int, q: int|
                    0 <= j < i && 0 <= q < src@[0].width * src@[0].height ==> #[trigger] weights@[j]@[q]
                        == fusion_weight(
                        src@[j].data@,
                        src@[0].width as int,
                        src@[0].height as int,
                        src@[0].channels as int,
                        (e.0 as nat, e.1 as nat, e.2 as nat),
                        q,
                    ) && weights@[j]@[q] <= weight_limit() && weights@[j]@.len() == src@[0].width
                        * src@[0].height,
            decreases n - i,
        {
            proof {
                assert(src@[i as int].same_shape(&src@[0]));
            }
            let wv = fusion_weights(&src[i], e);
            weights.push(wv);
            i = i + 1;
        }
        let ghost ee = self.exponents();
        let ghost ds = pixel_data(src@);
        let w = src[0].width;
        let h = src[0].height;
        let ch = src[0].channels;
        let ghost tots = weight_totals(ds, w as int, h as int, ch as int, ee);
        let tot = total_weights(src, &weights, Ghost(ee));
        let mut nws: Vec<Vec<i64>> = Vec::with_capacity(n);
        let mut j: usize = 0;
        while j < n
            invariant
                fusion_ready(src@, weights@, ee),
                ds == pixel_data(src@),
                w == src@[0].width,
                h == src@[0].height,
                ch == src@[0].channels,
                tots == weight_totals(ds, w as int, h as int, ch as int, ee),
                n == src@.len(),
                tot@.len() == w * h,
                forall|q: int| 0 <= q < tot@.len() ==> #[trigger] tot@[q] == tots[q],
                forall|i: int, q: int| 0 <= i < n && 0 <= q < tot@.len() ==> #[trigger] weights@[i]@[q] <= tot@[q],
                j <= n,
                nws@.len() == j,
                forall|jj: int|
                    0 <= jj < j ==> ints((#[trigger] nws@[jj])@) == norm_weights(
                        src@[jj].data@,
                        tots,
                        n as int,
                        w as int,
                        h as int,
                        ch as int,
                        ee,
                    ),
                forall|jj: int| 0 <= jj < j ==> within(ints((#[trigger] nws@[jj])@), 0, WEIGHT_ONE as int),
                forall|jj: int| 0 <= jj < j ==> (#[trigger] nws@[jj])@.len() == w * h,
            decreases n - j,
        {
            let nw = normalized_weights(src, &weights, &tot, j, Ghost(ee));
            nws.push(nw);
            j = j + 1;
        }
        let (top, ws, hs) = pyramid_dims(w, h);
        let mut chans: Vec<Vec<i64>> = Vec::with_capacity(ch);
        let mut c: usize = 0;
        while c < ch
            invariant
                valid_stack(src@),
                forall|jj: int| 0 <= jj < src@.len() ==> (#[trigger] src@[jj]).wf(),
                ds == pixel_data(src@),
                w == src@[0].width,
                h == src@[0].height,
                ch == src@[0].channels,
                n == src@.len(),
                tots == weight_totals(ds, w as int, h as int, ch as int, ee),
                top == pyramid_depth(w as int, h as int),
                top <= 64,
                ws@.len() == top + 1,
                hs@.len() == top + 1,
                forall|k: int| 0 <= k <= top ==> #[trigger] ws@[k] == level_dim(w as int, k as nat),
                forall|k: int| 0 <= k <= top ==> #[trigger] hs@[k] == level_dim(h as int, k as nat),
                nws@.len() == n,
                forall|jj: int|
                    0 <= jj < n ==> ints((#[trigger] nws@[jj])@) == norm_weights(
                        src@[jj].data@,
                        tots,
                        n as int,
                        w as int,
                        h as int,
                        ch as int,
                        ee,
                    ),
                forall|jj: int| 0 <= jj < n ==> within(ints((#[trigger] nws@[jj])@), 0, WEIGHT_ONE as int),
                forall|jj: int| 0 <= jj < n ==> (#[trigger] nws@[jj])@.len() == w * h,
                c <= ch,
                chans@.len() == c,
                forall|cc: int|
                    0 <= cc < c ==> ints((#[trigger] chans@[cc])@) == collapse_from(
                        blend_levels(ds, tots, w as int, h as int, ch as int, ee, cc, top as nat),
                        w as int,
                        h as int,
                        0,
                        top as nat,
                    ),
                forall|cc: int| 0 <= cc < c ==> (#[trigger] chans@[cc])@.len() == w * h,
            decreases ch - c,
        {
            let plane = blend_channel(src, &nws, c, top, &ws, &hs, Ghost(ee), Ghost(tots));
            chans.push(plane);
            c = c + 1;
        }
        let len = src[0].data.len();
        proof {
            src@[0].lemma_len();
        }
        let mut data: Vec<u8> = Vec::with_capacity(len);
        let mut p: usize = 0;
        while p < len
            invariant
                valid_stack(src@),
                forall|jj: int| 0 <= jj < src@.len() ==> (#[trigger] src@[jj]).wf(),
                ds == pixel_data(src@),
                ee == self.exponents(),
                w == src@[0].width,
                h == src@[0].height,
                ch == src@[0].channels,
                len == src@[0].data@.len(),
                len == (w * h) * ch,
                tots == weight_totals(ds, w as int, h as int, ch as int, ee),
                top == pyramid_depth(w as int, h as int),
                chans@.len() == ch,
                forall|cc: int|
                    0 <= cc < ch ==> ints((#[trigger] chans@[cc])@) == collapse_from(
                        blend_levels(ds, tots, w as int, h as int, ch as int, ee, cc, top as nat),
                        w as int,
                        h as int,
                        0,
                        top as nat,
                    ),
                forall|cc: int| 0 <= cc < ch ==> (#[trigger] chans@[cc])@.len() == w * h,
                p <= len,
                data@.len() == p,
                forall|k: int|
                    0 <= k < p ==> #[trigger] data@[k] == mertens_value(ds, w as int, h as int, ch as int, ee, k),
            decreases len - p,
        {
            proof {
                assert(p < ch * (w * h)) by (nonlinear_arith)
                    requires p < (w * h) * ch;
                lemma_split_index(p as int, ch as int, (w * h) as int);
            }
            let c = p % ch;
            let q = p / ch;
            let v = chans[c][q];
            proof {
                assert(ints(chans@[c as int]@)[q as int] == v);
            }
            let b: u8 = if v < 0 {
                0
            } else if v > 255 {
                255
            } else {
                v as u8
            };
            data.push(b);
            p = p + 1;
        }
        proof {
            assert(data@ =~= mertens_map(ds, w as int, h as int, ch as int, ee, len as nat));
        }
        *dst = Image { width: src[0].width, height: src[0].height, channels: src[0].channels, data };
        Ok(())
    }

    /// As `process`: fusion needs neither exposure times nor a response
    /// curve, and these play no part.
    pub fn process_with_response(
        &self,
        src: &Vec<Image>,
        dst: &mut Image,
        times: &Vec<u32>,
        response: &ResponseCurve,
    ) -> (r: Result<(), PhotoError>)
        requires
            forall|j: int| 0 <= j < src@.len() ==> (#[trigger] src@[j]).wf(),
        ensures
            valid_stack(src@) <==> r.is_ok(),
            r.is_err() ==> *final(dst) == *old(dst) && r == Err::<(), PhotoError>(PhotoError::InvalidArgument),
            r.is_ok() ==> {
                &&& final(dst).wf()
                &&& final(dst).same_shape(&src@[0])
                &&& final(dst).data@ == mertens_map(
                    pixel_data(src@),
                    src@[0].width as int,
                    src@[0].height as int,
                    src@[0].channels as int,
                    self.exponents(),
                    src@[0].data@.len(),
                )
            },
    {
        self.process(src, dst)
    }

    pub fn get_contrast_weight(&self) -> (r: u32)
        ensures
            r == self.contrast_weight,
    {
        self.contrast_weight
    }

    /// Sets the exponent; every exponent is accepted.
    pub fn set_contrast_weight(&mut self, contrast_weight: u32) -> (r: Result<(), PhotoError>)
        ensures
            r.is_ok(),
            *final(self) == (MergeMertens { contrast_weight, ..*old(self) }),
    {
        self.contrast_weight = contrast_weight;
        Ok(())
    }

    pub fn get_saturation_weight(&self) -> (r: u32)
        ensures
            r == self.saturation_weight,
    {
        self.saturation_weight
    }

    /// Sets the exponent; every exponent is accepted.
    pub fn set_saturation_weight(&mut self, saturation_weight: u32) -> (r: Result<(), PhotoError>)
        ensures
            r.is_ok(),
            *final(self) == (MergeMertens { saturation_weight, ..*old(self) }),
    {
        self.saturation_weight = saturation_weight;
        Ok(())
    }

    pub fn get_exposure_weight(&self) -> (r: u32)
        ensures
            r == self.exposure_weight,
    {
        self.exposure_weight
    }

    /// Sets the exponent; every exponent is accepted.
    pub fn set_exposure_weight(&mut self, exposure_weight: u32) -> (r: Result<(), PhotoError>)
        ensures
            r.is_ok(),
            *final(self) == (MergeMertens { exposure_weight, ..*old(self) }),
    {
        self.exposure_weight = exposure_weight;
        Ok(())
    }
}

// ---------------------------------------------------------------- laws

/// Blending does not depend on the order of the images.
pub proof fn lemma_blend_order_free(
    ds1: Seq<Seq<u8>>,
    ds2: Seq<Seq<u8>>,
    tot: Seq<int>,
    w: int,
    h: int,
    ch: int,
    e: (nat, nat, nat),
    c: int,
    top: nat,
)
    requires
        ds1.to_multiset() == ds2.to_multiset(),
        ds1.len() == ds2.len(),
    ensures
        blend_levels(ds1, tot, w, h, ch, e, c, top) == blend_levels(ds2, tot, w, h, ch, e, c, top),
{
    let n = ds1.len() as int;
    assert forall|k: int| 0 <= k <= top implies #[trigger] blend_levels(ds1, tot, w, h, ch, e, c, top)[k]
        == blend_levels(ds2, tot, w, h, ch, e, c, top)[k] by {
        let b1 = blend_level(ds1, tot, w, h, ch, e, c, k as nat, top);
        let b2 = blend_level(ds2, tot, w, h, ch, e, c, k as nat, top);
        assert forall|i: int| 0 <= i < b1.len() implies #[trigger] b1[i] == b2[i] by {
            lemma_total_permutation(ds1, ds2, blend_term(tot, n, w, h, ch, e, c, k as nat, top, i));
            lemma_total_permutation(ds1, ds2, share_term(tot, n, w, h, ch, e, k as nat, i));
            lemma_total_permutation(ds1, ds2, lap_term(w, h, ch, c, k as nat, top, i));
        }
        assert(b1 =~= b2);
    }
    assert(blend_levels(ds1, tot, w, h, ch, e, c, top) =~= blend_levels(ds2, tot, w, h, ch, e, c, top));
}

/// Fusion does not depend on the order of the images.
pub proof fn lemma_mertens_order_free(
    ds1: Seq<Seq<u8>>,
    ds2: Seq<Seq<u8>>,
    w: int,
    h: int,
    ch: int,
    e: (nat, nat, nat),
    n: nat,
)
    requires
        ds1.to_multiset() == ds2.to_multiset(),
    ensures
        mertens_map(ds1, w, h, ch, e, n) == mertens_map(ds2, w, h, ch, e, n),
{
    ds1.to_multiset_ensures();
    ds2.to_multiset_ensures();
    let tot = weight_totals(ds1, w, h, ch, e);
    assert forall|q: int| 0 <= q < tot.len() implies #[trigger] tot[q] == weight_totals(ds2, w, h, ch, e)[q] by {
        lemma_total_permutation(ds1, ds2, fusion_weight_term(w, h, ch, e, q));
    }
    assert(tot =~= weight_totals(ds2, w, h, ch, e));
    let top = pyramid_depth(w, h);
    assert forall|p: int| 0 <= p < n implies #[trigger] mertens_value(ds1, w, h, ch, e, p) == mertens_value(
        ds2,
        w,
        h,
        ch,
        e,
        p,
    ) by {
        lemma_blend_order_free(ds1, ds2, tot, w, h, ch, e, p % ch, top);
    }
    assert(mertens_map(ds1, w, h, ch, e, n) =~= mertens_map(ds2, w, h, ch, e, n));
}

/// `n` copies of one image.
pub open spec fn copies(d: Seq<u8>, n: nat) -> Seq<Seq<u8>> {
    Seq::new(n, |i: int| d)
}

/// A sum over copies of one image is that many times its term.
pub proof fn lemma_total_copies(d: Seq<u8>, n: nat, f: spec_fn(Seq<u8>) -> int, m: int)
    requires
        0 <= m <= n,
    ensures
        total(copies(d, n).take(m), f) == m * f(d),
    decreases m,
{
    if m > 0 {
        lemma_total_copies(d, n, f, m - 1);
        lemma_total_push(copies(d, n), m - 1, f);
        assert(m * f(d) == (m - 1) * f(d) + f(d)) by (nonlinear_arith);
    } else {
        assert(copies(d, n).take(0) =~= Seq::<Seq<u8>>::empty());
    }
}

/// Blending copies of one image leaves its Laplacian pyramid.
pub proof fn lemma_blend_copies(
    d: Seq<u8>,
    n: nat,
    tot: Seq<int>,
    w: int,
    h: int,
    ch: int,
    e: (nat, nat, nat),
    c: int,
    top: nat,
)
    requires
        n >= 1,
        w >= 0,
        h >= 0,
    ensures
        forall|k: int|
            0 <= k <= top ==> #[trigger] blend_levels(copies(d, n), tot, w, h, ch, e, c, top)[k] == laplace(
                channel_plane(d, ch, c, w * h),
                w,
                h,
                k as nat,
                top,
            ),
{
    let ds = copies(d, n);
    let ni = n as int;
    assert(ds.take(ni) == ds);
    assert(w * h >= 0) by (nonlinear_arith)
        requires w >= 0, h >= 0;
    assert forall|k: int| 0 <= k <= top implies #[trigger] blend_levels(ds, tot, w, h, ch, e, c, top)[k]
        == laplace(channel_plane(d, ch, c, w * h), w, h, k as nat, top) by {
        let kn = k as nat;
        let bl = blend_level(ds, tot, w, h, ch, e, c, kn, top);
        let lap = laplace(channel_plane(d, ch, c, w * h), w, h, kn, top);
        lemma_gauss_len(channel_plane(d, ch, c, w * h), w, h, kn);
        lemma_level_dim_nonneg(w, kn);
        lemma_level_dim_nonneg(h, kn);
        assert(level_dim(w, kn) * level_dim(h, kn) >= 0) by (nonlinear_arith)
            requires level_dim(w, kn) >= 0, level_dim(h, kn) >= 0;
        assert(lap.len() == bl.len());
        assert forall|i: int| 0 <= i < bl.len() implies #[trigger] bl[i] == lap[i] by {
            let g = share_term(tot, ni, w, h, ch, e, kn, i)(d);
            lemma_total_copies(d, n, share_term(tot, ni, w, h, ch, e, kn, i), ni);
            lemma_total_copies(d, n, blend_term(tot, ni, w, h, ch, e, c, kn, top, i), ni);
            lemma_total_copies(d, n, lap_term(w, h, ch, c, kn, top, i), ni);
            assert(blend_term(tot, ni, w, h, ch, e, c, kn, top, i)(d) == g * lap[i]);
            if ni * g > 0 {
                assert(ni * (g * lap[i]) == (ni * g) * lap[i]) by (nonlinear_arith);
                vstd::arithmetic::div_mod::lemma_div_multiples_vanish(lap[i], ni * g);
                assert((ni * g) * lap[i] == lap[i] * (ni * g)) by (nonlinear_arith);
            } else {
                vstd::arithmetic::div_mod::lemma_div_multiples_vanish(lap[i], ni);
                assert(ni * lap[i] == lap[i] * ni) by (nonlinear_arith);
            }
        }
        assert(bl =~= lap);
    }
}

/// Fusing copies of one image gives it back: equal frames get equal shares.
pub proof fn lemma_mertens_copies(d: Seq<u8>, n: nat, w: int, h: int, ch: int, e: (nat, nat, nat))
    requires
        n >= 1,
        w >= 0,
        h >= 0,
        ch >= 1,
        d.len() == w * h * ch,
    ensures
        mertens_map(copies(d, n), w, h, ch, e, d.len()) == d,
{
    let ds = copies(d, n);
    let tot = weight_totals(ds, w, h, ch, e);
    let top = pyramid_depth(w, h);
    assert(w * h >= 0) by (nonlinear_arith)
        requires w >= 0, h >= 0;
    assert forall|p: int| 0 <= p < d.len() implies #[trigger] mertens_value(ds, w, h, ch, e, p) == d[p] by {
        let c = p % ch;
        let q = p / ch;
        lemma_blend_copies(d, n, tot, w, h, ch, e, c, top);
        lemma_level_dims(w, h, 0);
        lemma_collapse_laplace(
            blend_levels(ds, tot, w, h, ch, e, c, top),
            channel_plane(d, ch, c, w * h),
            w,
            h,
            0,
            top,
        );
        assert(p < ch * (w * h)) by (nonlinear_arith)
            requires p < w * h * ch;
        lemma_split_index(p, ch, w * h);
        assert(q * ch + c == p) by (nonlinear_arith)
            requires (p / ch) * ch + p % ch == p, q == p / ch, c == p % ch;
    }
    assert(mertens_map(ds, w, h, ch, e, d.len()) =~= d);
}

/// Fusing a single image gives it back.
pub proof fn lemma_mertens_single(d: Seq<u8>, w: int, h: int, ch: int, e: (nat, nat, nat))
    requires
        w >= 0,
        h >= 0,
        ch >= 1,
        d.len() == w * h * ch,
    ensures
        mertens_map(seq![d], w, h, ch, e, d.len()) == d,
{
    lemma_mertens_copies(d, 1, w, h, ch, e);
    assert(copies(d, 1) =~= seq![d]);
}

} // verus!
