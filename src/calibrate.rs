use vstd::prelude::*;
use crate::arith::{abs_diff, lemma_div_bound};
use crate::image::{Image, PhotoError};
use crate::merge::{
    check_sequence, estimate_limit, exposures, robertson_map, valid_sequence,
    Exposure, MergeRobertson, RadianceMap, ResponseCurve,
};

verus! {

/// Fixed-point unit of a calibrated response: level 128 of every channel is
/// normalised to `RESPONSE_ONE`.
pub const RESPONSE_ONE: u64 = 0x1_0000;

/// The most pixel elements, over all images together, that calibration
/// accepts.
pub const MAX_CALIBRATION_ELEMENTS: u64 = 0x1_0000_0000_0000;

/// The linear curve calibration starts from: level `z` stands for
/// `z / 128`, in units of `RESPONSE_ONE`.
pub open spec fn initial_curve(ch: int) -> Seq<u32> {
    Seq::new((256 * ch) as nat, |k: int| ((k % 256) * 512) as u32)
}

/// Over the first `n` elements of one exposure `d` taken for `t`: the sum of
/// `t` times the radiance of each element of channel `c` at level `z`.
pub open spec fn element_acc(d: Seq<u8>, t: int, rad: Seq<u64>, ch: int, c: int, z: int, n: int) -> int
    decreases n,
{
    if n <= 0 {
        0
    } else {
        element_acc(d, t, rad, ch, c, z, n - 1) + if (n - 1) % ch == c && d[n - 1] == z {
            t * rad[n - 1]
        } else {
            0
        }
    }
}

/// Over the first `n` elements of `d`: how many of channel `c` are at level
/// `z`.
pub open spec fn element_card(d: Seq<u8>, ch: int, c: int, z: int, n: int) -> int
    decreases n,
{
    if n <= 0 {
        0
    } else {
        element_card(d, ch, c, z, n - 1) + if (n - 1) % ch == c && d[n - 1] == z {
            1int
        } else {
            0
        }
    }
}

/// `element_acc` over the first `m` exposures, `len` elements each.
pub open spec fn stack_acc(es: Seq<Exposure>, rad: Seq<u64>, ch: int, c: int, z: int, len: int, m: int) -> int
    decreases m,
{
    if m <= 0 {
        0
    } else {
        stack_acc(es, rad, ch, c, z, len, m - 1) + element_acc(es[m - 1].0, es[m - 1].1 as int, rad, ch, c, z, len)
    }
}

/// `element_card` over the first `m` exposures, `len` elements each.
pub open spec fn stack_card(es: Seq<Exposure>, ch: int, c: int, z: int, len: int, m: int) -> int
    decreases m,
{
    if m <= 0 {
        0
    } else {
        stack_card(es, ch, c, z, len, m - 1) + element_card(es[m - 1].0, ch, c, z, len)
    }
}

/// The new response of level `z` of channel `c`: the mean over the elements
/// at that level of time times radiance, or zero where none is.
pub open spec fn level_mean(es: Seq<Exposure>, rad: Seq<u64>, ch: int, c: int, z: int, len: int) -> int {
    let card = stack_card(es, ch, c, z, len, es.len() as int);
    if card > 0 {
        stack_acc(es, rad, ch, c, z, len, es.len() as int) / card
    } else {
        0
    }
}

/// `v` in units of the middle level `mid` (left as it is where `mid` is
/// zero), held within `[1, u32::MAX]`: a level that no pixel shows, or one
/// that rounds to nothing, keeps the smallest positive response.
pub open spec fn normalized(v: int, mid: int) -> u32 {
    let s = if mid > 0 { v * RESPONSE_ONE / mid } else { v };
    if s > u32::MAX {
        u32::MAX
    } else if s < 1 {
        1
    } else {
        s as u32
    }
}

/// The response curve re-estimated from the radiance map `rad`.
pub open spec fn curve_from_radiance(es: Seq<Exposure>, rad: Seq<u64>, ch: int, len: int) -> Seq<u32> {
    Seq::new(
        (256 * ch) as nat,
        |k: int|
            normalized(
                level_mean(es, rad, ch, k / 256, k % 256, len),
                level_mean(es, rad, ch, k / 256, 128, len),
            ),
    )
}

/// One refinement: merge with `curve`, then re-estimate the curve.
pub open spec fn refined_curve(es: Seq<Exposure>, curve: Seq<u32>, ch: int, len: int) -> Seq<u32> {
    curve_from_radiance(es, robertson_map(es, curve, ch, len as nat), ch, len)
}

/// The summed absolute difference of the first `n` entries.
pub open spec fn curve_change(a: Seq<u32>, b: Seq<u32>, n: int) -> int
    decreases n,
{
    if n <= 0 {
        0
    } else {
        curve_change(a, b, n - 1) + abs_diff(a[n - 1] as int, b[n - 1] as int)
    }
}

/// Refinement from `curve` with `left` (at least one) iterations left: the
/// final curve, whether the change per channel fell below `threshold`, and
/// the curve that the last merge used.
pub open spec fn calibrate_from(
    es: Seq<Exposure>,
    curve: Seq<u32>,
    ch: int,
    len: int,
    left: nat,
    threshold: int,
) -> (Seq<u32>, bool, Seq<u32>)
    decreases left,
{
    let next = refined_curve(es, curve, ch, len);
    let converged = curve_change(next, curve, 256 * ch) / ch < threshold;
    if converged || left <= 1 {
        (next, converged, curve)
    } else {
        calibrate_from(es, next, ch, len, (left - 1) as nat, threshold)
    }
}

/// Calibration yields one entry per level and channel.
pub proof fn lemma_calibrate_len(
    es: Seq<Exposure>,
    curve: Seq<u32>,
    ch: int,
    len: int,
    left: nat,
    threshold: int,
)
    requires
        ch >= 1,
    ensures
        calibrate_from(es, curve, ch, len, left, threshold).0.len() == 256 * ch,
    decreases left,
{
    let next = refined_curve(es, curve, ch, len);
    let converged = curve_change(next, curve, 256 * ch) / ch < threshold;
    if !(converged || left <= 1) {
        lemma_calibrate_len(es, next, ch, len, (left - 1) as nat, threshold);
    }
}

/// Every entry of a calibrated curve is positive.
pub proof fn lemma_calibrate_positive(
    es: Seq<Exposure>,
    curve: Seq<u32>,
    ch: int,
    len: int,
    left: nat,
    threshold: int,
)
    ensures
        forall|k: int|
            0 <= k < calibrate_from(es, curve, ch, len, left, threshold).0.len() ==> #[trigger] calibrate_from(
                es,
                curve,
                ch,
                len,
                left,
                threshold,
            ).0[k] >= 1,
    decreases left,
{
    let next = refined_curve(es, curve, ch, len);
    let converged = curve_change(next, curve, 256 * ch) / ch < threshold;
    let rad = robertson_map(es, curve, ch, len as nat);
    assert forall|k: int| 0 <= k < next.len() implies #[trigger] next[k] >= 1 by {
        let v = level_mean(es, rad, ch, k / 256, k % 256, len);
        let mid = level_mean(es, rad, ch, k / 256, 128, len);
        assert(next[k] == normalized(v, mid));
    }
    if !(converged || left <= 1) {
        lemma_calibrate_positive(es, next, ch, len, (left - 1) as nat, threshold);
        assert(calibrate_from(es, curve, ch, len, left, threshold) == calibrate_from(
            es,
            next,
            ch,
            len,
            (left - 1) as nat,
            threshold,
        ));
    } else {
        assert(calibrate_from(es, curve, ch, len, left, threshold).0 == next);
    }
}

/// Every exposure time equal: the times say nothing about the response.
pub open spec fn all_times_equal(times: Seq<u32>) -> bool {
    forall|i: int| 0 <= i < times.len() ==> #[trigger] times[i] == times[0]
}

/// The largest product of an exposure time and a merged radiance.
pub open spec fn product_limit() -> int {
    0x1_0000_0000 * estimate_limit()
}

/// Per level and channel, the sum of time times radiance and the count of
/// elements, over the whole stack.
fn accumulate(src: &Vec<Image>, times: &Vec<u32>, rad: &Vec<u64>, ch: usize) -> (r: (Vec<u128>, Vec<u128>))
    requires
        valid_sequence(src@, times@),
        forall|j: int| 0 <= j < src@.len() ==> (#[trigger] src@[j]).wf(),
        ch == src@[0].channels,
        rad@.len() == src@[0].data@.len(),
        forall|q: int| 0 <= q < rad@.len() ==> #[trigger] rad@[q] <= estimate_limit(),
        src@.len() * src@[0].data@.len() <= MAX_CALIBRATION_ELEMENTS,
    ensures
        r.0@.len() == 256 * ch,
        r.1@.len() == 256 * ch,
        forall|c: int, z: int|
            0 <= c < ch && 0 <= z < 256 ==> {
                &&& #[trigger] r.0@[c * 256 + z] == stack_acc(
                    exposures(src@, times@),
                    rad@,
                    ch as int,
                    c,
                    z,
                    src@[0].data@.len() as int,
                    src@.len() as int,
                )
                &&& r.1@[c * 256 + z] == stack_card(
                    exposures(src@, times@),
                    ch as int,
                    c,
                    z,
                    src@[0].data@.len() as int,
                    src@.len() as int,
                )
                &&& r.0@[c * 256 + z] <= r.1@[c * 256 + z] * product_limit()
            },
{
    let ghost es = exposures(src@, times@);
    let n = src.len();
    let len = src[0].data.len();
    let mut acc: Vec<u128> = vec![0u128; 256 * ch];
    let mut card: Vec<u128> = vec![0u128; 256 * ch];
    let mut i: usize = 0;
    while i < n
        invariant
            valid_sequence(src@, times@),
            forall|j: int| 0 <= j < src@.len() ==> (#[trigger] src@[j]).wf(),
            es == exposures(src@, times@),
            n == src@.len(),
            len == src@[0].data@.len(),
            ch == src@[0].channels,
            ch == 1 || ch == 3,
            rad@.len() == len,
            forall|q: int| 0 <= q < rad@.len() ==> #[trigger] rad@[q] <= estimate_limit(),
            n * len <= MAX_CALIBRATION_ELEMENTS,
            i <= n,
            acc@.len() == 256 * ch,
            card@.len() == 256 * ch,
            forall|c: int, z: int|
                0 <= c < ch && 0 <= z < 256 ==> {
                    &&& #[trigger] acc@[c * 256 + z] == stack_acc(es, rad@, ch as int, c, z, len as int, i as int)
                    &&& card@[c * 256 + z] == stack_card(es, ch as int, c, z, len as int, i as int)
                    &&& acc@[c * 256 + z] <= card@[c * 256 + z] * product_limit()
                    &&& card@[c * 256 + z] <= i * len
                },
        decreases n - i,
    {
        proof {
            src@[0].lemma_len();
            src@[i as int].lemma_len();
            assert(src@[i as int].same_shape(&src@[0]));
            assert(es[i as int] == (src@[i as int].data@, times@[i as int]));
            assert(times@[i as int] > 0);
        }
        let t = times[i] as u128;
        let mut p: usize = 0;
        while p < len
            invariant
                valid_sequence(src@, times@),
                forall|j: int| 0 <= j < src@.len() ==> (#[trigger] src@[j]).wf(),
                es == exposures(src@, times@),
                es[i as int] == (src@[i as int].data@, times@[i as int]),
                src@[i as int].data@.len() == len,
                n == src@.len(),
                len == src@[0].data@.len(),
                ch == src@[0].channels,
                ch == 1 || ch == 3,
                rad@.len() == len,
                forall|q: int| 0 <= q < rad@.len() ==> #[trigger] rad@[q] <= estimate_limit(),
                n * len <= MAX_CALIBRATION_ELEMENTS,
                i < n,
                t == times@[i as int],
                0 < t < 0x1_0000_0000,
                p <= len,
                acc@.len() == 256 * ch,
                card@.len() == 256 * ch,
                forall|c: int, z: int|
                    0 <= c < ch && 0 <= z < 256 ==> {
                        &&& #[trigger] acc@[c * 256 + z] == stack_acc(es, rad@, ch as int, c, z, len as int, i as int)
                            + element_acc(src@[i as int].data@, t as int, rad@, ch as int, c, z, p as int)
                        &&& card@[c * 256 + z] == stack_card(es, ch as int, c, z, len as int, i as int)
                            + element_card(src@[i as int].data@, ch as int, c, z, p as int)
                        &&& acc@[c * 256 + z] <= card@[c * 256 + z] * product_limit()
                        &&& card@[c * 256 + z] <= i * len + p
                    },
            decreases len - p,
        {
            let c0 = p % ch;
            let z0 = src[i].data[p] as usize;
            let k0 = c0 * 256 + z0;
            proof {
                assert(t * rad@[p as int] <= product_limit()) by (nonlinear_arith)
                    requires t < 0x1_0000_0000, rad@[p as int] <= estimate_limit(),
                        product_limit() == 0x1_0000_0000 * estimate_limit();
                assert(acc@[c0 * 256 + z0] <= card@[c0 * 256 + z0] * product_limit());
            }
            let term = t * rad[p] as u128;
            proof {
                assert(i * len + p + 1 <= n * len) by (nonlinear_arith)
                    requires i < n, p < len;
                assert(card@[k0 as int] * product_limit() + product_limit() <= MAX_CALIBRATION_ELEMENTS
                    * product_limit()) by (nonlinear_arith)
                    requires card@[k0 as int] <= i * len + p, i * len + p + 1 <= n * len,
                        n * len <= MAX_CALIBRATION_ELEMENTS, product_limit() > 0;
                assert((card@[k0 as int] + 1) * product_limit() == card@[k0 as int] * product_limit()
                    + product_limit()) by (nonlinear_arith);
            }
            let ghost acc0 = acc@;
            let ghost card0 = card@;
            let a = acc[k0];
            acc.set(k0, a + term);
            let b = card[k0];
            card.set(k0, b + 1);
            proof {
                assert forall|c: int, z: int| 0 <= c < ch && 0 <= z < 256 implies {
                    &&& #[trigger] acc@[c * 256 + z] == stack_acc(es, rad@, ch as int, c, z, len as int, i as int)
                        + element_acc(src@[i as int].data@, t as int, rad@, ch as int, c, z, p + 1)
                    &&& card@[c * 256 + z] == stack_card(es, ch as int, c, z, len as int, i as int)
                        + element_card(src@[i as int].data@, ch as int, c, z, p + 1)
                    &&& acc@[c * 256 + z] <= card@[c * 256 + z] * product_limit()
                    &&& card@[c * 256 + z] <= i * len + p + 1
                } by {
                    let d = src@[i as int].data@;
                    assert(acc0[c * 256 + z] == stack_acc(es, rad@, ch as int, c, z, len as int, i as int)
                        + element_acc(d, t as int, rad@, ch as int, c, z, p as int));
                    assert(card0[c * 256 + z] <= i * len + p);
                    assert(acc0[c * 256 + z] <= card0[c * 256 + z] * product_limit());
                    assert(element_acc(d, t as int, rad@, ch as int, c, z, p + 1) == element_acc(
                        d,
                        t as int,
                        rad@,
                        ch as int,
                        c,
                        z,
                        p as int,
                    ) + if (p as int) % (ch as int) == c && d[p as int] == z {
                        t * rad@[p as int]
                    } else {
                        0
                    });
                    assert(element_card(d, ch as int, c, z, p + 1) == element_card(d, ch as int, c, z, p as int)
                        + if (p as int) % (ch as int) == c && d[p as int] == z {
                        1int
                    } else {
                        0
                    });
                    if c == c0 && z == z0 {
                        assert(c * 256 + z == k0);
                        assert((card0[k0 as int] + 1) * product_limit() == card0[k0 as int] * product_limit()
                            + product_limit()) by (nonlinear_arith);
                    } else {
                        assert(c * 256 + z != k0);
                    }
                }
            }
            p = p + 1;
        }
        proof {
            assert forall|c: int, z: int| 0 <= c < ch && 0 <= z < 256 implies {
                &&& #[trigger] acc@[c * 256 + z] == stack_acc(es, rad@, ch as int, c, z, len as int, i + 1)
                &&& card@[c * 256 + z] == stack_card(es, ch as int, c, z, len as int, i + 1)
                &&& acc@[c * 256 + z] <= card@[c * 256 + z] * product_limit()
                &&& card@[c * 256 + z] <= (i + 1) * len
            } by {
                assert((i + 1) * len == i * len + len) by (nonlinear_arith);
                assert(stack_acc(es, rad@, ch as int, c, z, len as int, i + 1) == stack_acc(
                    es,
                    rad@,
                    ch as int,
                    c,
                    z,
                    len as int,
                    i as int,
                ) + element_acc(es[i as int].0, es[i as int].1 as int, rad@, ch as int, c, z, len as int));
                assert(stack_card(es, ch as int, c, z, len as int, i + 1) == stack_card(
                    es,
                    ch as int,
                    c,
                    z,
                    len as int,
                    i as int,
                ) + element_card(es[i as int].0, ch as int, c, z, len as int));
                assert(acc@[c * 256 + z] <= card@[c * 256 + z] * product_limit());
            }
        }
        i = i + 1;
    }
    (acc, card)
}

/// The response curve re-estimated from the radiance map `rad` of `src`.
fn curve_from_merge(src: &Vec<Image>, times: &Vec<u32>, rad: &Vec<u64>, ch: usize) -> (r: Vec<u32>)
    requires
        valid_sequence(src@, times@),
        forall|j: int| 0 <= j < src@.len() ==> (#[trigger] src@[j]).wf(),
        ch == src@[0].channels,
        rad@.len() == src@[0].data@.len(),
        forall|q: int| 0 <= q < rad@.len() ==> #[trigger] rad@[q] <= estimate_limit(),
        src@.len() * src@[0].data@.len() <= MAX_CALIBRATION_ELEMENTS,
    ensures
        r@ == curve_from_radiance(exposures(src@, times@), rad@, ch as int, src@[0].data@.len() as int),
{
    let ghost es = exposures(src@, times@);
    let ghost len = src@[0].data@.len() as int;
    let (acc, card) = accumulate(src, times, rad, ch);
    let nk = 256 * ch;
    let mut means: Vec<u128> = Vec::with_capacity(nk);
    let mut k: usize = 0;
    while k < nk
        invariant
            ch == 1 || ch == 3,
            nk == 256 * ch,
            acc@.len() == nk,
            card@.len() == nk,
            forall|c: int, z: int|
                0 <= c < ch && 0 <= z < 256 ==> {
                    &&& #[trigger] acc@[c * 256 + z] == stack_acc(es, rad@, ch as int, c, z, len, es.len() as int)
                    &&& card@[c * 256 + z] == stack_card(es, ch as int, c, z, len, es.len() as int)
                    &&& acc@[c * 256 + z] <= card@[c * 256 + z] * product_limit()
                },
            k <= nk,
            means@.len() == k,
            forall|j: int| 0 <= j < k ==> #[trigger] means@[j] == level_mean(es, rad@, ch as int, j / 256, j % 256, len),
            forall|j: int| 0 <= j < k ==> #[trigger] means@[j] <= product_limit(),
        decreases nk - k,
    {
        proof {
            assert(k == (k / 256) * 256 + k % 256);
            assert(acc@[(k / 256) * 256 + k % 256] <= card@[(k / 256) * 256 + k % 256] * product_limit());
        }
        let m = if card[k] > 0 {
            proof {
                lemma_div_bound(acc@[k as int] as int, card@[k as int] as int, product_limit());
            }
            acc[k] / card[k]
        } else {
            0
        };
        means.push(m);
        k = k + 1;
    }
    let mut out: Vec<u32> = Vec::with_capacity(nk);
    let mut k: usize = 0;
    while k < nk
        invariant
            ch == 1 || ch == 3,
            nk == 256 * ch,
            means@.len() == nk,
            forall|j: int| 0 <= j < nk ==> #[trigger] means@[j] == level_mean(es, rad@, ch as int, j / 256, j % 256, len),
            forall|j: int| 0 <= j < nk ==> #[trigger] means@[j] <= product_limit(),
            k <= nk,
            out@.len() == k,
            forall|j: int|
                0 <= j < k ==> #[trigger] out@[j] == normalized(
                    level_mean(es, rad@, ch as int, j / 256, j % 256, len),
                    level_mean(es, rad@, ch as int, j / 256, 128, len),
                ),
        decreases nk - k,
    {
        let v = means[k];
        let mk = (k / 256) * 256 + 128;
        proof {
            assert(mk / 256 == k / 256 && mk % 256 == 128);
        }
        let mid = means[mk];
        let s: u128 = if mid > 0 {
            proof {
                assert(v * RESPONSE_ONE <= product_limit() * RESPONSE_ONE) by (nonlinear_arith)
                    requires v <= product_limit();
            }
            v * RESPONSE_ONE as u128 / mid
        } else {
            v
        };
        let r: u32 = if s > u32::MAX as u128 {
            u32::MAX
        } else if s < 1 {
            1
        } else {
            s as u32
        };
        out.push(r);
        k = k + 1;
    }
    proof {
        assert(out@ =~= curve_from_radiance(es, rad@, ch as int, len));
    }
    out
}

fn curve_change_exec(a: &Vec<u32>, b: &Vec<u32>) -> (r: u64)
    requires
        a@.len() == b@.len(),
        a@.len() <= 768,
    ensures
        r == curve_change(a@, b@, a@.len() as int),
{
    let n = a.len();
    let mut sum: u64 = 0;
    let mut k: usize = 0;
    while k < n
        invariant
            n == a@.len(),
            n == b@.len(),
            n <= 768,
            k <= n,
            sum == curve_change(a@, b@, k as int),
            sum <= k * 0x1_0000_0000,
        decreases n - k,
    {
        let x = a[k] as u64;
        let y = b[k] as u64;
        let d = if x >= y { x - y } else { y - x };
        sum = sum + d;
        k = k + 1;
    }
    sum
}

fn initial_curve_exec(ch: usize) -> (r: Vec<u32>)
    requires
        ch == 1 || ch == 3,
    ensures
        r@ == initial_curve(ch as int),
{
    let mut out: Vec<u32> = Vec::with_capacity(256 * ch);
    let mut k: usize = 0;
    while k < 256 * ch
        invariant
            ch == 1 || ch == 3,
            k <= 256 * ch,
            out@.len() == k,
            forall|j: int| 0 <= j < k ==> #[trigger] out@[j] == ((j % 256) * 512) as u32,
        decreases 256 * ch - k,
    {
        out.push(((k % 256) * 512) as u32);
        k = k + 1;
    }
    proof {
        assert(out@ =~= initial_curve(ch as int));
    }
    out
}

/// Robertson calibration: alternately merge with the current curve and
/// re-estimate the curve from the merge, for at most `max_iter` rounds or
/// until the change per channel falls below `threshold` (in units of
/// `RESPONSE_ONE` summed over the levels). Keeps the radiance map of the
/// last merge.
#[derive(Debug, Clone)]
pub struct CalibrateRobertson {
    pub max_iter: i32,
    pub threshold: u32,
    pub radiance: RadianceMap,
}

/// A Robertson calibration; refuses a `max_iter` below one.
pub fn create_calibrate_robertson(max_iter: i32, threshold: u32) -> (r: Result<CalibrateRobertson, PhotoError>)
    ensures
        (max_iter >= 1) <==> r.is_ok(),
        r matches Ok(cal) ==> cal.wf() && cal.max_iter == max_iter && cal.threshold == threshold
            && cal.radiance.data@.len() == 0,
        r matches Err(e) ==> e == PhotoError::InvalidArgument,
{
    if max_iter < 1 {
        return Err(PhotoError::InvalidArgument);
    }
    Ok(CalibrateRobertson {
        max_iter,
        threshold,
        radiance: RadianceMap { width: 0, height: 0, channels: 1, data: Vec::new() },
    })
}

impl CalibrateRobertson {
    pub open spec fn wf(&self) -> bool {
        self.max_iter >= 1
    }

    pub fn get_max_iter(&self) -> (r: i32)
        ensures
            r == self.max_iter,
    {
        self.max_iter
    }

    /// Sets the iteration cap; refuses one below one and then changes
    /// nothing.
    pub fn set_max_iter(&mut self, max_iter: i32) -> (r: Result<(), PhotoError>)
        ensures
            (max_iter >= 1) <==> r.is_ok(),
            r.is_ok() ==> final(self).max_iter == max_iter && final(self).threshold == old(self).threshold
                && final(self).radiance == old(self).radiance,
            r.is_err() ==> *final(self) == *old(self) && r == Err::<(), PhotoError>(PhotoError::InvalidArgument),
    {
        if max_iter < 1 {
            return Err(PhotoError::InvalidArgument);
        }
        self.max_iter = max_iter;
        Ok(())
    }

    pub fn get_threshold(&self) -> (r: u32)
        ensures
            r == self.threshold,
    {
        self.threshold
    }

    pub fn set_threshold(&mut self, threshold: u32)
        ensures
            final(self).threshold == threshold,
            final(self).max_iter == old(self).max_iter,
            final(self).radiance == old(self).radiance,
    {
        self.threshold = threshold;
    }

    /// The inverse response of the camera that took `src` at `times`, into
    /// `dst`: `Ok(true)` when the change fell below the threshold, `Ok(false)`
    /// when the iteration cap ended the refinement and the last estimate
    /// stands. Refuses an invalid sequence or one of more than
    /// `MAX_CALIBRATION_ELEMENTS` elements in all, and reports one whose
    /// times are all equal as degenerate; on refusal nothing changes.
    pub fn process(&mut self, src: &Vec<Image>, dst: &mut ResponseCurve, times: &Vec<u32>) -> (r: Result<
        bool,
        PhotoError,
    >)
        requires
            old(self).wf(),
            forall|j: int| 0 <= j < src@.len() ==> (#[trigger] src@[j]).wf(),
        ensures
            !(valid_sequence(src@, times@) && src@.len() * src@[0].data@.len() <= MAX_CALIBRATION_ELEMENTS)
                <==> r == Err::<bool, PhotoError>(PhotoError::InvalidArgument),
            (valid_sequence(src@, times@) && src@.len() * src@[0].data@.len() <= MAX_CALIBRATION_ELEMENTS
                && all_times_equal(times@)) <==> r == Err::<bool, PhotoError>(PhotoError::DegenerateInput),
            r.is_err() ==> *final(dst) == *old(dst) && *final(self) == *old(self),
            r matches Ok(converged) ==> {
                let es = exposures(src@, times@);
                let ch = src@[0].channels as int;
                let len = src@[0].data@.len() as int;
                let res = calibrate_from(es, initial_curve(ch), ch, len, old(self).max_iter as nat, old(self).threshold as int);
                &&& final(dst).channels == ch
                &&& final(dst).values@ == res.0
                &&& final(dst).values@.len() == 256 * ch
                &&& forall|k: int| 0 <= k < final(dst).values@.len() ==> #[trigger] final(dst).values@[k] >= 1
                &&& converged == res.1
                &&& final(self).radiance.data@ == robertson_map(es, res.2, ch, len as nat)
                &&& final(self).radiance.width == src@[0].width
                &&& final(self).radiance.height == src@[0].height
                &&& final(self).radiance.channels == ch
                &&& final(self).max_iter == old(self).max_iter
                &&& final(self).threshold == old(self).threshold
            },
    {
        match check_sequence(src, times) {
            Ok(()) => {},
            Err(e) => {
                return Err(e);
            },
        }
        let n = src.len();
        let len = src[0].data.len();
        proof {
            assert(n * len <= 0x1_0000_0000 * 0xffff_ffff_ffff_ffff) by (nonlinear_arith)
                requires n <= 0x1_0000_0000, len <= 0xffff_ffff_ffff_ffff;
        }
        if (n as u128) * (len as u128) > MAX_CALIBRATION_ELEMENTS as u128 {
            return Err(PhotoError::InvalidArgument);
        }
        let mut i: usize = 1;
        let mut varied = false;
        while i < n
            invariant
                n == times@.len(),
                1 <= i <= n,
                !varied ==> forall|j: int| 0 <= j < i ==> #[trigger] times@[j] == times@[0],
                varied ==> !all_times_equal(times@),
            decreases n - i,
        {
            if times[i] != times[0] {
                varied = true;
            }
            i = i + 1;
        }
        if !varied {
            return Err(PhotoError::DegenerateInput);
        }
        let ch = src[0].channels;
        let max_iter = self.max_iter;
        let thr = self.threshold as u64;
        let ghost es = exposures(src@, times@);
        let ghost target = calibrate_from(es, initial_curve(ch as int), ch as int, len as int, max_iter as nat, thr as int);
        let merger = MergeRobertson {  };
        let mut curve = initial_curve_exec(ch);
        let mut last: Vec<u32> = Vec::new();
        let mut rad = RadianceMap { width: 0, height: 0, channels: 1, data: Vec::new() };
        let mut converged = false;
        let mut k: i32 = 0;
        while k < max_iter
            invariant
                valid_sequence(src@, times@),
                forall|j: int| 0 <= j < src@.len() ==> (#[trigger] src@[j]).wf(),
                es == exposures(src@, times@),
                n == src@.len(),
                len == src@[0].data@.len(),
                n * len <= MAX_CALIBRATION_ELEMENTS,
                ch == src@[0].channels,
                1 <= max_iter,
                0 <= k <= max_iter,
                curve@.len() == 256 * ch,
                k < max_iter ==> target == calibrate_from(es, curve@, ch as int, len as int, (max_iter - k) as nat, thr as int),
                k == max_iter ==> {
                    &&& target == (curve@, converged, last@)
                    &&& rad.data@ == robertson_map(es, last@, ch as int, len as nat)
                    &&& rad.width == src@[0].width
                    &&& rad.height == src@[0].height
                    &&& rad.channels == ch
                },
            decreases max_iter - k,
        {
            let resp = ResponseCurve { channels: ch, values: curve };
            match merger.process_with_response(src, &mut rad, times, &resp) {
                Ok(()) => {},
                Err(e) => {
                    return Err(e);
                },
            }
            let next = curve_from_merge(src, times, &rad.data, ch);
            let change = curve_change_exec(&next, &resp.values) / ch as u64;
            let conv = change < thr;
            last = resp.values;
            curve = next;
            if conv || k + 1 >= max_iter {
                converged = conv;
                k = max_iter;
            } else {
                k = k + 1;
            }
        }
        proof {
            lemma_calibrate_positive(es, initial_curve(ch as int), ch as int, len as int, max_iter as nat, thr as int);
            lemma_calibrate_len(es, initial_curve(ch as int), ch as int, len as int, max_iter as nat, thr as int);
        }
        *dst = ResponseCurve { channels: ch, values: curve };
        self.radiance = rad;
        Ok(converged)
    }

    /// The radiance map of the last merge of the last calibration.
    pub fn get_radiance(&self) -> (r: &RadianceMap)
        ensures
            r == &self.radiance,
    {
        &self.radiance
    }
}

} // verus!
