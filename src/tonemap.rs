use vstd::prelude::*;
use crate::arith::{lemma_div_bound, lemma_split_index};
use crate::image::PhotoError;
use crate::merge::RadianceMap;

verus! {

/// Fixed-point unit of displayable intensity: a stored value `v` stands for
/// `v / TONE_ONE`, so every value lies in `[0, TONE_ONE]`.
pub const TONE_ONE: u64 = 0x1_0000;

/// A displayable image laid out as `Image` is, each value in `[0, TONE_ONE]`.
#[derive(Debug, Clone)]
pub struct ToneImage {
    pub width: usize,
    pub height: usize,
    pub channels: usize,
    pub data: Vec<u32>,
}

/// Every value of `d` lies in `[0, TONE_ONE]`.
pub open spec fn in_unit_range(d: Seq<u32>) -> bool {
    forall|i: int| 0 <= i < d.len() ==> #[trigger] d[i] <= TONE_ONE
}

// ---------------------------------------------------------------- linear

/// The largest of the first `n` values of `d`, or zero.
pub open spec fn max_value(d: Seq<u64>, n: int) -> int
    decreases n,
{
    if n <= 0 {
        0
    } else {
        let m = max_value(d, n - 1);
        if d[n - 1] > m {
            d[n - 1] as int
        } else {
            m
        }
    }
}

/// The smallest of the first `n` values of `d`, or `u64::MAX`.
pub open spec fn min_value(d: Seq<u64>, n: int) -> int
    decreases n,
{
    if n <= 0 {
        u64::MAX as int
    } else {
        let m = min_value(d, n - 1);
        if d[n - 1] < m {
            d[n - 1] as int
        } else {
            m
        }
    }
}

/// Value `i` rescaled so that the smallest value becomes 0 and the largest
/// `TONE_ONE`; a map of one value throughout becomes 0.
pub open spec fn linear_value(d: Seq<u64>, i: int) -> int {
    let lo = min_value(d, d.len() as int);
    let hi = max_value(d, d.len() as int);
    if hi <= lo {
        0
    } else {
        (d[i] - lo) * TONE_ONE / (hi - lo)
    }
}

/// The linear tonemap of `d`.
pub open spec fn linear_map(d: Seq<u64>) -> Seq<u32> {
    Seq::new(d.len(), |i: int| linear_value(d, i) as u32)
}

pub proof fn lemma_max_value_bounds(d: Seq<u64>, n: int, i: int)
    requires
        0 <= i < n <= d.len(),
    ensures
        d[i] <= max_value(d, n),
    decreases n,
{
    if i < n - 1 {
        lemma_max_value_bounds(d, n - 1, i);
    }
}

pub proof fn lemma_min_value_bounds(d: Seq<u64>, n: int, i: int)
    requires
        0 <= i < n <= d.len(),
    ensures
        min_value(d, n) <= d[i],
    decreases n,
{
    if i < n - 1 {
        lemma_min_value_bounds(d, n - 1, i);
    }
}

/// Each linear value lies in `[0, TONE_ONE]`.
pub proof fn lemma_linear_value_range(d: Seq<u64>, i: int)
    requires
        0 <= i < d.len(),
    ensures
        0 <= linear_value(d, i) <= TONE_ONE,
{
    let lo = min_value(d, d.len() as int);
    let hi = max_value(d, d.len() as int);
    lemma_max_value_bounds(d, d.len() as int, i);
    lemma_min_value_bounds(d, d.len() as int, i);
    if hi > lo {
        assert((d[i] - lo) * TONE_ONE <= (hi - lo) * TONE_ONE) by (nonlinear_arith)
            requires lo <= d[i] <= hi;
        assert((d[i] - lo) * TONE_ONE >= 0) by (nonlinear_arith)
            requires lo <= d[i];
        lemma_div_bound((d[i] - lo) * TONE_ONE, hi - lo, TONE_ONE as int);
    }
}

/// A linear tonemap keeps the order of the values: a brighter input is never
/// shown darker.
pub proof fn lemma_linear_keeps_order(d: Seq<u64>, i: int, j: int)
    requires
        0 <= i < d.len(),
        0 <= j < d.len(),
        d[i] <= d[j],
    ensures
        linear_map(d)[i] <= linear_map(d)[j],
{
    lemma_linear_value_range(d, i);
    lemma_linear_value_range(d, j);
    let lo = min_value(d, d.len() as int);
    let hi = max_value(d, d.len() as int);
    if hi > lo {
        assert((d[i] - lo) * TONE_ONE <= (d[j] - lo) * TONE_ONE) by (nonlinear_arith)
            requires d[i] <= d[j];
        vstd::arithmetic::div_mod::lemma_div_is_ordered((d[i] - lo) * TONE_ONE, (d[j] - lo) * TONE_ONE, hi - lo);
    }
}

/// The plain tonemap: values rescaled linearly so that the darkest becomes
/// zero and the brightest one (a gamma of one).
#[derive(Debug, Clone, Copy, PartialEq, Eq, Structural)]
pub struct Tonemap {}

pub fn create_tonemap() -> (r: Tonemap) {
    Tonemap {  }
}

impl Tonemap {
    /// The linear tonemap of the three-channel map `src`, into `dst`.
    /// Refuses a map of another channel count and then leaves `dst` alone.
    pub fn process(&self, src: &RadianceMap, dst: &mut ToneImage) -> (r: Result<(), PhotoError>)
        requires
            src.wf(),
        ensures
            (src.channels == 3) <==> r.is_ok(),
            r.is_err() ==> *final(dst) == *old(dst) && r == Err::<(), PhotoError>(PhotoError::InvalidArgument),
            r.is_ok() ==> {
                &&& final(dst).width == src.width
                &&& final(dst).height == src.height
                &&& final(dst).channels == src.channels
                &&& final(dst).data@ == linear_map(src.data@)
                &&& in_unit_range(final(dst).data@)
            },
    {
        if src.channels != 3 {
            return Err(PhotoError::InvalidArgument);
        }
        let n = src.data.len();
        let mut m: u64 = 0;
        let mut lo: u64 = u64::MAX;
        let mut i: usize = 0;
        while i < n
            invariant
                n == src.data@.len(),
                i <= n,
                m == max_value(src.data@, i as int),
                lo == min_value(src.data@, i as int),
            decreases n - i,
        {
            if src.data[i] > m {
                m = src.data[i];
            }
            if src.data[i] < lo {
                lo = src.data[i];
            }
            i = i + 1;
        }
        let mut out: Vec<u32> = Vec::with_capacity(n);
        let mut i: usize = 0;
        while i < n
            invariant
                n == src.data@.len(),
                i <= n,
                m == max_value(src.data@, n as int),
                lo == min_value(src.data@, n as int),
                out@.len() == i,
                forall|j: int| 0 <= j < i ==> #[trigger] out@[j] == linear_value(src.data@, j) as u32,
                forall|j: int| 0 <= j < i ==> #[trigger] out@[j] <= TONE_ONE,
            decreases n - i,
        {
            proof {
                lemma_linear_value_range(src.data@, i as int);
                lemma_min_value_bounds(src.data@, n as int, i as int);
            }
            let v: u32 = if m <= lo {
                0
            } else {
                ((src.data[i] - lo) as u128 * TONE_ONE as u128 / (m - lo) as u128) as u32
            };
            out.push(v);
            i = i + 1;
        }
        proof {
            assert(out@ =~= linear_map(src.data@));
        }
        *dst = ToneImage { width: src.width, height: src.height, channels: src.channels, data: out };
        Ok(())
    }
}

// ---------------------------------------------------------------- Reinhard

/// The unit of the adaptation parameters: 256 stands for one.
pub const ADAPT_ONE: u32 = 256;

/// The widest brightness setting, in stops either way.
pub const MAX_INTENSITY: i32 = 8;

/// Two to the power `e`.
pub open spec fn two_to(e: nat) -> nat
    decreases e,
{
    if e == 0 {
        1
    } else {
        2 * two_to((e - 1) as nat)
    }
}

/// The blend `a x + (1 - a) y` with `a` in units of `ADAPT_ONE`, rounded down.
pub open spec fn mix(a: int, x: int, y: int) -> int {
    (a * x + (256 - a) * y) / 256
}

/// The grey level of pixel `q`: the channel itself, or the mean of three.
pub open spec fn pixel_gray(d: Seq<u64>, ch: int, q: int) -> int {
    if ch == 1 {
        d[q] as int
    } else {
        (d[3 * q] + d[3 * q + 1] + d[3 * q + 2]) / 3
    }
}

/// The sum of channel `c` over the first `n` pixels.
pub open spec fn channel_sum(d: Seq<u64>, ch: int, c: int, n: int) -> int
    decreases n,
{
    if n <= 0 {
        0
    } else {
        channel_sum(d, ch, c, n - 1) + d[(n - 1) * ch + c]
    }
}

/// The sum of the grey levels of the first `n` pixels.
pub open spec fn gray_sum(d: Seq<u64>, ch: int, n: int) -> int
    decreases n,
{
    if n <= 0 {
        0
    } else {
        gray_sum(d, ch, n - 1) + pixel_gray(d, ch, n - 1)
    }
}

pub open spec fn mean(sum: int, n: int) -> int {
    if n > 0 {
        sum / n
    } else {
        0
    }
}

/// The adaptation level scaled by `intensity` stops: brighter for a larger
/// intensity.
pub open spec fn reinhard_key(adapt: int, intensity: int) -> int {
    if intensity >= 0 {
        adapt / (two_to(intensity as nat) as int)
    } else {
        adapt * two_to((-intensity) as nat)
    }
}

/// Element `p` of a map of `npix` pixels under the Reinhard operator
/// `v / (v + k)`, where `k` blends the pixel's own level with the image mean
/// (`la`), each level blending the channel with the grey (`ca`).
pub open spec fn reinhard_value(
    d: Seq<u64>,
    ch: int,
    npix: int,
    la: int,
    ca: int,
    intensity: int,
    p: int,
) -> int {
    let c = p % ch;
    let v = d[p] as int;
    let local = mix(ca, v, pixel_gray(d, ch, p / ch));
    let global = mix(ca, mean(channel_sum(d, ch, c, npix), npix), mean(gray_sum(d, ch, npix), npix));
    let key = reinhard_key(mix(la, local, global), intensity);
    if v + key == 0 {
        0
    } else {
        v * TONE_ONE / (v + key)
    }
}

/// The Reinhard tonemap of a map of `npix` pixels.
pub open spec fn reinhard_map(d: Seq<u64>, ch: int, npix: int, la: int, ca: int, intensity: int) -> Seq<u32> {
    Seq::new(d.len(), |p: int| reinhard_value(d, ch, npix, la, ca, intensity, p) as u32)
}

pub proof fn lemma_mix_bound(a: int, x: int, y: int, m: int)
    requires
        0 <= a <= 256,
        0 <= x <= m,
        0 <= y <= m,
    ensures
        0 <= mix(a, x, y) <= m,
{
    assert(0 <= a * x + (256 - a) * y <= 256 * m) by (nonlinear_arith)
        requires 0 <= a <= 256, 0 <= x <= m, 0 <= y <= m;
    lemma_div_bound(a * x + (256 - a) * y, 256, m);
}

pub proof fn lemma_channel_sum_bound(d: Seq<u64>, ch: int, c: int, n: int)
    requires
        0 <= c < ch,
        n * ch <= d.len(),
    ensures
        0 <= channel_sum(d, ch, c, n) <= if n > 0 { n * u64::MAX } else { 0 },
    decreases n,
{
    if n > 0 {
        assert((n - 1) * ch + c < n * ch) by (nonlinear_arith)
            requires 0 <= c < ch, n > 0;
        assert((n - 1) * ch <= n * ch) by (nonlinear_arith)
            requires ch > 0, n > 0;
        assert(0 <= (n - 1) * ch + c) by (nonlinear_arith)
            requires 0 <= c < ch, n > 0;
        lemma_channel_sum_bound(d, ch, c, n - 1);
        assert((n - 1) * u64::MAX + u64::MAX == n * u64::MAX) by (nonlinear_arith);
    }
}

fn two_to_exec(e: u32) -> (r: u128)
    requires
        e <= 8,
    ensures
        r == two_to(e as nat),
        1 <= r <= 256,
{
    let mut r: u128 = 1;
    let mut j: u32 = 0;
    while j < e
        invariant
            j <= e <= 8,
            r == two_to(j as nat),
        decreases e - j,
    {
        proof {
            lemma_two_to_bound(j as nat);
        }
        r = r * 2;
        j = j + 1;
    }
    proof {
        lemma_two_to_bound(e as nat);
    }
    r
}

pub proof fn lemma_two_to_bound(e: nat)
    requires
        e <= 8,
    ensures
        1 <= two_to(e) <= 256,
        e < 8 ==> two_to(e) <= 128,
{
    reveal_with_fuel(two_to, 9);
}

fn gray_exec(d: &Vec<u64>, ch: usize, q: usize) -> (r: u128)
    requires
        ch == 1 || ch == 3,
        q * ch + ch <= d@.len(),
    ensures
        r == pixel_gray(d@, ch as int, q as int),
        r <= u64::MAX,
{
    let len = d.len();
    if ch == 1 {
        d[q] as u128
    } else {
        assert(3 * q + 3 <= len);
        (d[3 * q] as u128 + d[3 * q + 1] as u128 + d[3 * q + 2] as u128) / 3
    }
}

pub proof fn lemma_gray_sum_bound(d: Seq<u64>, ch: int, n: int)
    requires
        ch == 1 || ch == 3,
        n * ch <= d.len(),
    ensures
        0 <= gray_sum(d, ch, n) <= if n > 0 { n * u64::MAX } else { 0 },
    decreases n,
{
    if n > 0 {
        assert((n - 1) * ch + ch == n * ch) by (nonlinear_arith);
        assert((n - 1) * ch <= n * ch) by (nonlinear_arith)
            requires ch > 0, n > 0;
        lemma_gray_sum_bound(d, ch, n - 1);
        assert((n - 1) * u64::MAX + u64::MAX == n * u64::MAX) by (nonlinear_arith);
    }
}

/// The Reinhard value of one element, given the channel and grey means.
fn reinhard_exec(
    d: &Vec<u64>,
    ch: usize,
    p: usize,
    la: u32,
    ca: u32,
    intensity: i32,
    cmean: u128,
    gmean: u128,
) -> (r: u32)
    requires
        ch == 1 || ch == 3,
        (d@.len() as int) % (ch as int) == 0,
        p < d@.len(),
        la <= 256,
        ca <= 256,
        -8 <= intensity <= 8,
        cmean <= u64::MAX,
        gmean <= u64::MAX,
    ensures
        r <= TONE_ONE,
        r as int == ({
            let v = d@[p as int] as int;
            let local = mix(ca as int, v, pixel_gray(d@, ch as int, (p / ch) as int));
            let global = mix(ca as int, cmean as int, gmean as int);
            let key = reinhard_key(mix(la as int, local, global), intensity as int);
            if v + key == 0 {
                0
            } else {
                v * TONE_ONE / (v + key)
            }
        }),
{
    let q = p / ch;
    proof {
        let len = d@.len() as int;
        let n = len / (ch as int);
        vstd::arithmetic::div_mod::lemma_fundamental_div_mod(len, ch as int);
        assert(len == n * ch) by (nonlinear_arith)
            requires len == ch * n + len % (ch as int), len % (ch as int) == 0;
        lemma_split_index(p as int, ch as int, n);
        assert(q * ch + ch <= n * ch) by (nonlinear_arith)
            requires q < n, ch > 0;
    }
    let v = d[p] as u128;
    let g = gray_exec(d, ch, q);
    let ca = ca as u128;
    let la = la as u128;
    proof {
        lemma_mix_bound(ca as int, v as int, g as int, u64::MAX as int);
        lemma_mix_bound(ca as int, cmean as int, gmean as int, u64::MAX as int);
    }
    let local = (ca * v + (256 - ca) * g) / 256;
    let global = (ca * cmean + (256 - ca) * gmean) / 256;
    proof {
        lemma_mix_bound(la as int, local as int, global as int, u64::MAX as int);
    }
    let adapt = (la * local + (256 - la) * global) / 256;
    let key = if intensity >= 0 {
        adapt / two_to_exec(intensity as u32)
    } else {
        let f = two_to_exec((-intensity) as u32);
        proof {
            assert(adapt * f <= u64::MAX * 256) by (nonlinear_arith)
                requires adapt <= u64::MAX, f <= 256;
        }
        adapt * f
    };
    if v + key == 0 {
        0
    } else {
        proof {
            assert(v * TONE_ONE <= (v + key) * TONE_ONE) by (nonlinear_arith)
                requires key >= 0;
            lemma_div_bound(v * TONE_ONE, v + key, TONE_ONE as int);
        }
        (v * TONE_ONE as u128 / (v + key)) as u32
    }
}

/// Reinhard tonemapping with integer parameters: `intensity` in stops from
/// `-MAX_INTENSITY` to `MAX_INTENSITY`, and the two adaptations in units of
/// `ADAPT_ONE`, from 0 to one.
#[derive(Debug, Clone, Copy, PartialEq, Eq, Structural)]
pub struct TonemapReinhard {
    pub intensity: i32,
    pub light_adaptation: u32,
    pub color_adaptation: u32,
}

/// A Reinhard tonemap; refuses parameters outside their ranges.
pub fn create_tonemap_reinhard(intensity: i32, light_adapt: u32, color_adapt: u32) -> (r: Result<
    TonemapReinhard,
    PhotoError,
>)
    ensures
        (-MAX_INTENSITY <= intensity <= MAX_INTENSITY && light_adapt <= ADAPT_ONE && color_adapt
            <= ADAPT_ONE) <==> r.is_ok(),
        r matches Ok(t) ==> t.wf() && t == (TonemapReinhard {
            intensity,
            light_adaptation: light_adapt,
            color_adaptation: color_adapt,
        }),
        r matches Err(e) ==> e == PhotoError::InvalidArgument,
{
    if intensity < -MAX_INTENSITY || intensity > MAX_INTENSITY || light_adapt > ADAPT_ONE
        || color_adapt > ADAPT_ONE {
        return Err(PhotoError::InvalidArgument);
    }
    Ok(TonemapReinhard { intensity, light_adaptation: light_adapt, color_adaptation: color_adapt })
}

impl TonemapReinhard {
    pub open spec fn wf(&self) -> bool {
        &&& -MAX_INTENSITY <= self.intensity <= MAX_INTENSITY
        &&& self.light_adaptation <= ADAPT_ONE
        &&& self.color_adaptation <= ADAPT_ONE
    }

    /// The Reinhard tonemap of the three-channel map `src`, into `dst`.
    /// Refuses a map of another channel count and then leaves `dst` alone.
    pub fn process(&self, src: &RadianceMap, dst: &mut ToneImage) -> (r: Result<(), PhotoError>)
        requires
            self.wf(),
            src.wf(),
        ensures
            (src.channels == 3) <==> r.is_ok(),
            r.is_err() ==> *final(dst) == *old(dst) && r == Err::<(), PhotoError>(PhotoError::InvalidArgument),
            r.is_ok() ==> {
                &&& final(dst).width == src.width
                &&& final(dst).height == src.height
                &&& final(dst).channels == src.channels
                &&& final(dst).data@ == reinhard_map(
                    src.data@,
                    src.channels as int,
                    src.width * src.height,
                    self.light_adaptation as int,
                    self.color_adaptation as int,
                    self.intensity as int,
                )
                &&& in_unit_range(final(dst).data@)
            },
    {
        if src.channels != 3 {
            return Err(PhotoError::InvalidArgument);
        }
        let ch = src.channels;
        let len = src.data.len();
        let ghost d = src.data@;
        proof {
            let wh = src.width * src.height;
            assert(wh <= wh * ch) by (nonlinear_arith)
                requires ch >= 1, wh >= 0;
        }
        let npix = src.width * src.height;
        let mut s0: u128 = 0;
        let mut s1: u128 = 0;
        let mut s2: u128 = 0;
        let mut gs: u128 = 0;
        let mut q: usize = 0;
        while q < npix
            invariant
                ch == 1 || ch == 3,
                d == src.data@,
                len == d.len(),
                len == npix * ch,
                q <= npix,
                s0 == channel_sum(d, ch as int, 0, q as int),
                ch == 3 ==> s1 == channel_sum(d, ch as int, 1, q as int),
                ch == 3 ==> s2 == channel_sum(d, ch as int, 2, q as int),
                gs == gray_sum(d, ch as int, q as int),
            decreases npix - q,
        {
            proof {
                assert(q * ch + ch <= npix * ch) by (nonlinear_arith)
                    requires q < npix, ch > 0;
                assert((q + 1) * ch == q * ch + ch) by (nonlinear_arith);
                assert((q + 1) * ch <= len);
                lemma_channel_sum_bound(d, ch as int, 0, (q + 1) as int);
                lemma_gray_sum_bound(d, ch as int, (q + 1) as int);
                assert((q + 1) * u64::MAX <= usize::MAX * u64::MAX) by (nonlinear_arith)
                    requires q + 1 <= npix, npix <= usize::MAX;
                if ch == 3 {
                    lemma_channel_sum_bound(d, ch as int, 1, (q + 1) as int);
                    lemma_channel_sum_bound(d, ch as int, 2, (q + 1) as int);
                }
            }
            s0 = s0 + src.data[q * ch] as u128;
            if ch == 3 {
                s1 = s1 + src.data[q * ch + 1] as u128;
                s2 = s2 + src.data[q * ch + 2] as u128;
            }
            gs = gs + gray_exec(&src.data, ch, q);
            q = q + 1;
        }
        proof {
            lemma_channel_sum_bound(d, ch as int, 0, npix as int);
            lemma_gray_sum_bound(d, ch as int, npix as int);
            if ch == 3 {
                lemma_channel_sum_bound(d, ch as int, 1, npix as int);
                lemma_channel_sum_bound(d, ch as int, 2, npix as int);
            }
            if npix > 0 {
                lemma_div_bound(s0 as int, npix as int, u64::MAX as int);
                lemma_div_bound(gs as int, npix as int, u64::MAX as int);
                if ch == 3 {
                    lemma_div_bound(s1 as int, npix as int, u64::MAX as int);
                    lemma_div_bound(s2 as int, npix as int, u64::MAX as int);
                }
            }
        }
        let m0: u128 = if npix > 0 { s0 / npix as u128 } else { 0 };
        let m1: u128 = if npix > 0 && ch == 3 { s1 / npix as u128 } else { 0 };
        let m2: u128 = if npix > 0 && ch == 3 { s2 / npix as u128 } else { 0 };
        let gm: u128 = if npix > 0 { gs / npix as u128 } else { 0 };
        let mut out: Vec<u32> = Vec::with_capacity(len);
        let mut p: usize = 0;
        while p < len
            invariant
                self.wf(),
                ch == 1 || ch == 3,
                ch == src.channels,
                d == src.data@,
                len == d.len(),
                len == npix * ch,
                npix == src.width * src.height,
                m0 == mean(channel_sum(d, ch as int, 0, npix as int), npix as int),
                ch == 3 ==> m1 == mean(channel_sum(d, ch as int, 1, npix as int), npix as int),
                ch == 3 ==> m2 == mean(channel_sum(d, ch as int, 2, npix as int), npix as int),
                gm == mean(gray_sum(d, ch as int, npix as int), npix as int),
                m0 <= u64::MAX,
                m1 <= u64::MAX,
                m2 <= u64::MAX,
                gm <= u64::MAX,
                p <= len,
                out@.len() == p,
                forall|j: int|
                    0 <= j < p ==> #[trigger] out@[j] == reinhard_value(
                        d,
                        ch as int,
                        npix as int,
                        self.light_adaptation as int,
                        self.color_adaptation as int,
                        self.intensity as int,
                        j,
                    ) as u32,
                forall|j: int| 0 <= j < p ==> #[trigger] out@[j] <= TONE_ONE,
            decreases len - p,
        {
            let c = p % ch;
            let cm = if c == 0 { m0 } else if c == 1 { m1 } else { m2 };
            proof {
                assert((len as int) % (ch as int) == 0) by (nonlinear_arith)
                    requires len == npix * ch, ch > 0;
            }
            let v = reinhard_exec(
                &src.data,
                ch,
                p,
                self.light_adaptation,
                self.color_adaptation,
                self.intensity,
                cm,
                gm,
            );
            out.push(v);
            p = p + 1;
        }
        proof {
            assert(out@ =~= reinhard_map(
                d,
                ch as int,
                npix as int,
                self.light_adaptation as int,
                self.color_adaptation as int,
                self.intensity as int,
            ));
        }
        *dst = ToneImage { width: src.width, height: src.height, channels: ch, data: out };
        Ok(())
    }

    pub fn get_intensity(&self) -> (r: i32)
        ensures
            r == self.intensity,
    {
        self.intensity
    }

    /// Sets the brightness; refuses one outside its range and then changes
    /// nothing.
    pub fn set_intensity(&mut self, intensity: i32) -> (r: Result<(), PhotoError>)
        ensures
            (-MAX_INTENSITY <= intensity <= MAX_INTENSITY) <==> r.is_ok(),
            r.is_ok() ==> *final(self) == (TonemapReinhard { intensity, ..*old(self) }),
            r.is_err() ==> *final(self) == *old(self) && r == Err::<(), PhotoError>(PhotoError::InvalidArgument),
    {
        if intensity < -MAX_INTENSITY || intensity > MAX_INTENSITY {
            return Err(PhotoError::InvalidArgument);
        }
        self.intensity = intensity;
        Ok(())
    }

    pub fn get_light_adaptation(&self) -> (r: u32)
        ensures
            r == self.light_adaptation,
    {
        self.light_adaptation
    }

    /// Sets the light adaptation; refuses one above `ADAPT_ONE` and then
    /// changes nothing.
    pub fn set_light_adaptation(&mut self, light_adapt: u32) -> (r: Result<(), PhotoError>)
        ensures
            (light_adapt <= ADAPT_ONE) <==> r.is_ok(),
            r.is_ok() ==> *final(self) == (TonemapReinhard { light_adaptation: light_adapt, ..*old(self) }),
            r.is_err() ==> *final(self) == *old(self) && r == Err::<(), PhotoError>(PhotoError::InvalidArgument),
    {
        if light_adapt > ADAPT_ONE {
            return Err(PhotoError::InvalidArgument);
        }
        self.light_adaptation = light_adapt;
        Ok(())
    }

    pub fn get_color_adaptation(&self) -> (r: u32)
        ensures
            r == self.color_adaptation,
    {
        self.color_adaptation
    }

    /// Sets the colour adaptation; refuses one above `ADAPT_ONE` and then
    /// changes nothing.
    pub fn set_color_adaptation(&mut self, color_adapt: u32) -> (r: Result<(), PhotoError>)
        ensures
            (color_adapt <= ADAPT_ONE) <==> r.is_ok(),
            r.is_ok() ==> *final(self) == (TonemapReinhard { color_adaptation: color_adapt, ..*old(self) }),
            r.is_err() ==> *final(self) == *old(self) && r == Err::<(), PhotoError>(PhotoError::InvalidArgument),
    {
        if color_adapt > ADAPT_ONE {
            return Err(PhotoError::InvalidArgument);
        }
        self.color_adaptation = color_adapt;
        Ok(())
    }
}

} // verus!
