use vstd::prelude::*;
use vstd::seq_lib::{commutative_foldl, lemma_fold_left_permutation};
use crate::arith::{lemma_div_bound, lemma_div_cancel};
use crate::image::{Image, PhotoError};

verus! {

/// Fixed-point unit of radiance: a stored value `v` stands for
/// `v / RADIANCE_ONE` response units per unit of exposure time.
pub const RADIANCE_ONE: u64 = 256;

/// The longest sequence the mergers accept.
pub const MAX_EXPOSURES: u64 = 0x1_0000_0000;

/// Entries per channel of a response curve: one per 8-bit level.
pub const LDR_SIZE: usize = 256;

/// An inverse camera response: entry `c * 256 + z` is the relative radiance
/// that level `z` of channel `c` stands for.
#[derive(Debug, Clone)]
pub struct ResponseCurve {
    pub channels: usize,
    pub values: Vec<u32>,
}

impl ResponseCurve {
    /// A curve for images of `channels` channels.
    pub open spec fn fits(&self, channels: int) -> bool {
        &&& self.channels == channels
        &&& self.values@.len() == 256 * channels
    }
}

/// A fixed-point radiance image laid out as `Image` is.
#[derive(Debug, Clone)]
pub struct RadianceMap {
    pub width: usize,
    pub height: usize,
    pub channels: usize,
    pub data: Vec<u64>,
}

impl RadianceMap {
    pub open spec fn wf(&self) -> bool {
        &&& (self.channels == 1 || self.channels == 3)
        &&& self.data@.len() == self.width * self.height * self.channels
    }
}

/// One exposure as the mergers see it: the pixels and the exposure time.
pub type Exposure = (Seq<u8>, u32);

/// The exposures of a sequence of images and their times, index by index.
pub open spec fn exposures(src: Seq<Image>, times: Seq<u32>) -> Seq<Exposure> {
    Seq::new(src.len(), |i: int| (src[i].data@, times[i]))
}

/// Images of one shape, each with a positive exposure time, at most
/// `MAX_EXPOSURES` of them and at least one.
pub open spec fn valid_sequence(src: Seq<Image>, times: Seq<u32>) -> bool {
    &&& 0 < src.len() <= MAX_EXPOSURES
    &&& times.len() == src.len()
    &&& forall|i: int| 0 <= i < src.len() ==> #[trigger] times[i] > 0
    &&& forall|i: int| 0 <= i < src.len() ==> (#[trigger] src[i]).same_shape(&src[0])
}

/// The confidence in level `z`: a hat that is zero at 0 and 255 and highest
/// in the middle.
pub open spec fn hat(z: int) -> int {
    if z <= 127 {
        z
    } else {
        255 - z
    }
}

/// The curve entry for element `p` of an exposure of `ch` channels.
pub open spec fn response_at(curve: Seq<u32>, ch: int, p: int, e: Exposure) -> int {
    curve[(p % ch) * 256 + e.0[p]] as int
}

/// What one exposure says of the radiance at element `p`, in fixed point:
/// response over exposure time.
pub open spec fn estimate(curve: Seq<u32>, ch: int, p: int, e: Exposure) -> int {
    response_at(curve, ch, p, e) * RADIANCE_ONE / (e.1 as int)
}

/// The sum over `es` of `term` at each element.
pub open spec fn total<A>(es: Seq<A>, term: spec_fn(A) -> int) -> int {
    es.fold_left(0int, |acc: int, e: A| acc + term(e))
}

/// A sum does not depend on the order of its elements.
pub proof fn lemma_total_permutation<A>(es1: Seq<A>, es2: Seq<A>, term: spec_fn(A) -> int)
    requires
        es1.to_multiset() == es2.to_multiset(),
    ensures
        total(es1, term) == total(es2, term),
{
    let f = |acc: int, e: A| acc + term(e);
    assert(commutative_foldl(f));
    lemma_fold_left_permutation(es1, es2, f, 0int);
}

/// One more element adds its term.
pub proof fn lemma_total_push<A>(es: Seq<A>, i: int, term: spec_fn(A) -> int)
    requires
        0 <= i < es.len(),
    ensures
        total(es.take(i + 1), term) == total(es.take(i), term) + term(es[i]),
{
    assert(es.take(i + 1).drop_last() == es.take(i));
}

pub proof fn lemma_total_single<A>(e: A, term: spec_fn(A) -> int)
    ensures
        total(seq![e], term) == term(e),
{
    let f = |acc: int, x: A| acc + term(x);
    assert(seq![e].drop_last() =~= Seq::<A>::empty());
    assert(Seq::<A>::empty().fold_left(0int, f) == 0);
    assert(seq![e].fold_left(0int, f) == f(0int, e));
}

// ---------------------------------------------------------------- Debevec

/// The weight of element `p` of an exposure.
pub open spec fn weight_term(p: int) -> spec_fn(Exposure) -> int {
    |e: Exposure| hat(e.0[p] as int)
}

/// The estimate of element `p` of an exposure.
pub open spec fn estimate_term(curve: Seq<u32>, ch: int, p: int) -> spec_fn(Exposure) -> int {
    |e: Exposure| estimate(curve, ch, p, e)
}

/// The weighted estimate of element `p` of an exposure.
pub open spec fn weighted_estimate_term(curve: Seq<u32>, ch: int, p: int) -> spec_fn(Exposure) -> int {
    |e: Exposure| hat(e.0[p] as int) * estimate(curve, ch, p, e)
}

/// The Debevec radiance of element `p`: the hat-weighted mean of the
/// estimates, or their plain mean where every weight is zero.
pub open spec fn debevec_value(es: Seq<Exposure>, curve: Seq<u32>, ch: int, p: int) -> int {
    let wsum = total(es, weight_term(p));
    if wsum > 0 {
        total(es, weighted_estimate_term(curve, ch, p)) / wsum
    } else {
        total(es, estimate_term(curve, ch, p)) / (es.len() as int)
    }
}

/// The Debevec radiance map of `n` elements.
pub open spec fn debevec_map(es: Seq<Exposure>, curve: Seq<u32>, ch: int, n: nat) -> Seq<u64> {
    Seq::new(n, |p: int| debevec_value(es, curve, ch, p) as u64)
}

// ---------------------------------------------------------------- Robertson

/// The response of element `p` of an exposure in fixed point.
pub open spec fn scaled_response(curve: Seq<u32>, ch: int, p: int, e: Exposure) -> int {
    response_at(curve, ch, p, e) * RADIANCE_ONE
}

/// `w t g` for element `p` of an exposure: weight, time, scaled response.
pub open spec fn robertson_num_term(curve: Seq<u32>, ch: int, p: int) -> spec_fn(Exposure) -> int {
    |e: Exposure| hat(e.0[p] as int) * (e.1 as int) * scaled_response(curve, ch, p, e)
}

/// `w t t` for element `p` of an exposure.
pub open spec fn robertson_den_term(p: int) -> spec_fn(Exposure) -> int {
    |e: Exposure| hat(e.0[p] as int) * (e.1 as int) * (e.1 as int)
}

/// `t g` for element `p` of an exposure.
pub open spec fn time_response_term(curve: Seq<u32>, ch: int, p: int) -> spec_fn(Exposure) -> int {
    |e: Exposure| (e.1 as int) * scaled_response(curve, ch, p, e)
}

/// `t t` of an exposure.
pub open spec fn time_square_term() -> spec_fn(Exposure) -> int {
    |e: Exposure| (e.1 as int) * (e.1 as int)
}

/// The Robertson radiance of element `p`: the least-squares fit
/// `sum(w t g) / sum(w t t)`, with unit weights where every weight is zero.
pub open spec fn robertson_value(es: Seq<Exposure>, curve: Seq<u32>, ch: int, p: int) -> int {
    let den = total(es, robertson_den_term(p));
    if den > 0 {
        total(es, robertson_num_term(curve, ch, p)) / den
    } else {
        total(es, time_response_term(curve, ch, p)) / total(es, time_square_term())
    }
}

/// The Robertson radiance map of `n` elements.
pub open spec fn robertson_map(es: Seq<Exposure>, curve: Seq<u32>, ch: int, n: nat) -> Seq<u64> {
    Seq::new(n, |p: int| robertson_value(es, curve, ch, p) as u64)
}

// ---------------------------------------------------------------- laws

/// Debevec merging depends on which time goes with which image, not on the
/// order of the pairs: any rearrangement of the exposures gives the same map.
pub proof fn lemma_debevec_order_free(
    es1: Seq<Exposure>,
    es2: Seq<Exposure>,
    curve: Seq<u32>,
    ch: int,
    n: nat,
)
    requires
        es1.to_multiset() == es2.to_multiset(),
    ensures
        debevec_map(es1, curve, ch, n) == debevec_map(es2, curve, ch, n),
{
    es1.to_multiset_ensures();
    es2.to_multiset_ensures();
    assert forall|p: int| 0 <= p < n implies debevec_value(es1, curve, ch, p) == debevec_value(
        es2,
        curve,
        ch,
        p,
    ) by {
        lemma_total_permutation(es1, es2, weight_term(p));
        lemma_total_permutation(es1, es2, weighted_estimate_term(curve, ch, p));
        lemma_total_permutation(es1, es2, estimate_term(curve, ch, p));
    }
    assert(debevec_map(es1, curve, ch, n) =~= debevec_map(es2, curve, ch, n));
}

/// Robertson merging depends on which time goes with which image, not on the
/// order of the pairs: any rearrangement of the exposures gives the same map.
pub proof fn lemma_robertson_order_free(
    es1: Seq<Exposure>,
    es2: Seq<Exposure>,
    curve: Seq<u32>,
    ch: int,
    n: nat,
)
    requires
        es1.to_multiset() == es2.to_multiset(),
    ensures
        robertson_map(es1, curve, ch, n) == robertson_map(es2, curve, ch, n),
{
    assert forall|p: int| 0 <= p < n implies robertson_value(es1, curve, ch, p) == robertson_value(
        es2,
        curve,
        ch,
        p,
    ) by {
        lemma_total_permutation(es1, es2, robertson_num_term(curve, ch, p));
        lemma_total_permutation(es1, es2, robertson_den_term(p));
        lemma_total_permutation(es1, es2, time_response_term(curve, ch, p));
        lemma_total_permutation(es1, es2, time_square_term());
    }
    assert(robertson_map(es1, curve, ch, n) =~= robertson_map(es2, curve, ch, n));
}

/// The radiance that a single exposure shows: response over time, in fixed
/// point, element by element.
pub open spec fn single_exposure_map(e: Exposure, curve: Seq<u32>, ch: int, n: nat) -> Seq<u64> {
    Seq::new(n, |p: int| estimate(curve, ch, p, e) as u64)
}

/// Debevec merging of one exposure gives that exposure's own radiance.
pub proof fn lemma_debevec_single(e: Exposure, curve: Seq<u32>, ch: int, n: nat)
    requires
        e.1 > 0,
    ensures
        debevec_map(seq![e], curve, ch, n) == single_exposure_map(e, curve, ch, n),
{
    assert forall|p: int| 0 <= p < n implies debevec_value(seq![e], curve, ch, p) == estimate(
        curve,
        ch,
        p,
        e,
    ) by {
        lemma_total_single(e, weight_term(p));
        lemma_total_single(e, weighted_estimate_term(curve, ch, p));
        lemma_total_single(e, estimate_term(curve, ch, p));
        let w = hat(e.0[p] as int);
        let est = estimate(curve, ch, p, e);
        assert(total(seq![e], weight_term(p)) == w);
        assert(total(seq![e], weighted_estimate_term(curve, ch, p)) == w * est);
        assert(total(seq![e], estimate_term(curve, ch, p)) == est);
        assert(seq![e].len() == 1);
        if w > 0 {
            vstd::arithmetic::div_mod::lemma_div_multiples_vanish(est, w);
        }
    }
    assert(debevec_map(seq![e], curve, ch, n) =~= single_exposure_map(e, curve, ch, n));
}

/// Robertson merging of one exposure gives that exposure's own radiance.
pub proof fn lemma_robertson_single(e: Exposure, curve: Seq<u32>, ch: int, n: nat)
    requires
        e.1 > 0,
    ensures
        robertson_map(seq![e], curve, ch, n) == single_exposure_map(e, curve, ch, n),
{
    assert forall|p: int| 0 <= p < n implies robertson_value(seq![e], curve, ch, p) == estimate(
        curve,
        ch,
        p,
        e,
    ) by {
        lemma_total_single(e, robertson_num_term(curve, ch, p));
        lemma_total_single(e, robertson_den_term(p));
        lemma_total_single(e, time_response_term(curve, ch, p));
        lemma_total_single(e, time_square_term());
        let w = hat(e.0[p] as int);
        let t = e.1 as int;
        let g = scaled_response(curve, ch, p, e);
        assert(total(seq![e], robertson_num_term(curve, ch, p)) == w * t * g);
        assert(total(seq![e], robertson_den_term(p)) == w * t * t);
        assert(total(seq![e], time_response_term(curve, ch, p)) == t * g);
        assert(total(seq![e], time_square_term()) == t * t);
        assert(estimate(curve, ch, p, e) == g / t);
        assert(g >= 0) by (nonlinear_arith)
            requires g == response_at(curve, ch, p, e) * 256, response_at(curve, ch, p, e) >= 0;
        if w > 0 {
            assert(w * t * g == g * (w * t) && w * t * t == t * (w * t)) by (nonlinear_arith);
            assert(w * t > 0 && w * t * t > 0) by (nonlinear_arith)
                requires w > 0, t > 0;
            lemma_div_cancel(g, t, w * t);
        } else {
            assert(w * t * t == 0 && t * t > 0) by (nonlinear_arith)
                requires w == 0, t > 0;
            assert(t * g == g * t) by (nonlinear_arith);
            lemma_div_cancel(g, t, t);
        }
    }
    assert(robertson_map(seq![e], curve, ch, n) =~= single_exposure_map(e, curve, ch, n));
}

/// The largest estimate: a response below 2^32 over a time of at least one.
pub open spec fn estimate_limit() -> int {
    0x100_0000_0000
}

/// Checks that `src` and `times` form a valid sequence.
pub(crate) fn check_sequence(src: &Vec<Image>, times: &Vec<u32>) -> (r: Result<(), PhotoError>)
    ensures
        r.is_ok() <==> valid_sequence(src@, times@),
        r.is_err() ==> r == Err::<(), PhotoError>(PhotoError::InvalidArgument),
{
    let n = src.len();
    if n == 0 || n as u64 > MAX_EXPOSURES || times.len() != n {
        return Err(PhotoError::InvalidArgument);
    }
    let mut i: usize = 0;
    while i < n
        invariant
            n == src@.len(),
            n == times@.len(),
            0 < n <= MAX_EXPOSURES,
            i <= n,
            forall|j: int| 0 <= j < i ==> #[trigger] times@[j] > 0,
            forall|j: int| 0 <= j < i ==> (#[trigger] src@[j]).same_shape(&src@[0]),
        decreases n - i,
    {
        if times[i] == 0 || src[i].width != src[0].width || src[i].height != src[0].height
            || src[i].channels != src[0].channels {
            return Err(PhotoError::InvalidArgument);
        }
        i = i + 1;
    }
    Ok(())
}

/// Facts about element `p` of exposure `i` that every merger needs.
proof fn lemma_exposure_element(src: Seq<Image>, times: Seq<u32>, i: int, p: int)
    requires
        valid_sequence(src, times),
        forall|j: int| 0 <= j < src.len() ==> (#[trigger] src[j]).wf(),
        0 <= i < src.len(),
        0 <= p < src[0].data@.len(),
    ensures
        exposures(src, times)[i] == (src[i].data@, times[i]),
        p < src[i].data@.len(),
        times[i] > 0,
{
    assert(src[i].same_shape(&src[0]));
}

/// The estimate of one element, in fixed point.
fn estimate_exec(curve: &Vec<u32>, ch: usize, p: usize, z: u8, t: u32) -> (r: u64)
    requires
        ch == 1 || ch == 3,
        curve@.len() == 256 * ch,
        t > 0,
    ensures
        r == curve@[(p % ch) * 256 + z] * RADIANCE_ONE / (t as int),
        r < estimate_limit(),
{
    let c = p % ch;
    let v = curve[c * 256 + z as usize] as u64;
    let r = v * RADIANCE_ONE / (t as u64);
    proof {
        let x = v * RADIANCE_ONE;
        assert(x <= t * x) by (nonlinear_arith)
            requires t >= 1, x >= 0;
        lemma_div_bound(x as int, t as int, x as int);
    }
    r
}

/// The Debevec radiance of element `p`.
fn debevec_pixel(src: &Vec<Image>, times: &Vec<u32>, curve: &Vec<u32>, ch: usize, p: usize) -> (r: u64)
    requires
        valid_sequence(src@, times@),
        forall|j: int| 0 <= j < src@.len() ==> (#[trigger] src@[j]).wf(),
        ch == src@[0].channels,
        curve@.len() == 256 * ch,
        p < src@[0].data@.len(),
    ensures
        r == debevec_value(exposures(src@, times@), curve@, ch as int, p as int),
{
    let ghost es = exposures(src@, times@);
    let n = src.len();
    let mut wsum: u128 = 0;
    let mut num: u128 = 0;
    let mut esum: u128 = 0;
    let mut i: usize = 0;
    while i < n
        invariant
            valid_sequence(src@, times@),
            forall|j: int| 0 <= j < src@.len() ==> (#[trigger] src@[j]).wf(),
            es == exposures(src@, times@),
            n == src@.len(),
            ch == src@[0].channels,
            curve@.len() == 256 * ch,
            p < src@[0].data@.len(),
            i <= n,
            wsum == total(es.take(i as int), weight_term(p as int)),
            num == total(es.take(i as int), weighted_estimate_term(curve@, ch as int, p as int)),
            esum == total(es.take(i as int), estimate_term(curve@, ch as int, p as int)),
            wsum <= 127 * i,
            num <= wsum * estimate_limit(),
            esum <= i * estimate_limit(),
        decreases n - i,
    {
        proof {
            lemma_exposure_element(src@, times@, i as int, p as int);
            lemma_total_push(es, i as int, weight_term(p as int));
            lemma_total_push(es, i as int, weighted_estimate_term(curve@, ch as int, p as int));
            lemma_total_push(es, i as int, estimate_term(curve@, ch as int, p as int));
        }
        let z = src[i].data[p];
        let t = times[i];
        let w: u128 = if z <= 127 { z as u128 } else { 255 - z as u128 };
        let e = estimate_exec(curve, ch, p, z, t) as u128;
        proof {
            assert(w * e <= w * estimate_limit()) by (nonlinear_arith)
                requires e < estimate_limit(), w >= 0;
            assert((wsum + w) * estimate_limit() == wsum * estimate_limit() + w * estimate_limit())
                by (nonlinear_arith);
            assert((i + 1) * estimate_limit() == i * estimate_limit() + estimate_limit())
                by (nonlinear_arith);
            assert(w * e <= 127 * estimate_limit()) by (nonlinear_arith)
                requires e < estimate_limit(), 0 <= w <= 127;
            assert(wsum * estimate_limit() <= 127 * i * estimate_limit()) by (nonlinear_arith)
                requires wsum <= 127 * i;
            assert(i * estimate_limit() <= 0x1_0000_0000 * estimate_limit()) by (nonlinear_arith)
                requires i <= 0x1_0000_0000;
        }
        wsum = wsum + w;
        num = num + w * e;
        esum = esum + e;
        i = i + 1;
    }
    proof {
        assert(es.take(n as int) == es);
    }
    if wsum > 0 {
        proof {
            lemma_div_bound(num as int, wsum as int, estimate_limit());
        }
        (num / wsum) as u64
    } else {
        proof {
            assert(esum <= n * estimate_limit());
            lemma_div_bound(esum as int, n as int, estimate_limit());
        }
        (esum / (n as u128)) as u64
    }
}

/// The entries of the identity response for `ch` channels.
pub open spec fn linear_curve(ch: int) -> Seq<u32> {
    Seq::new((256 * ch) as nat, |k: int| (k % 256) as u32)
}

/// The Robertson radiance of element `p`.
fn robertson_pixel(src: &Vec<Image>, times: &Vec<u32>, curve: &Vec<u32>, ch: usize, p: usize) -> (r: u64)
    requires
        valid_sequence(src@, times@),
        forall|j: int| 0 <= j < src@.len() ==> (#[trigger] src@[j]).wf(),
        ch == src@[0].channels,
        curve@.len() == 256 * ch,
        p < src@[0].data@.len(),
    ensures
        r == robertson_value(exposures(src@, times@), curve@, ch as int, p as int),
        r <= estimate_limit(),
{
    let ghost es = exposures(src@, times@);
    let ghost lim = estimate_limit();
    let n = src.len();
    let mut num: u128 = 0;
    let mut den: u128 = 0;
    let mut tnum: u128 = 0;
    let mut tden: u128 = 0;
    let mut i: usize = 0;
    while i < n
        invariant
            valid_sequence(src@, times@),
            forall|j: int| 0 <= j < src@.len() ==> (#[trigger] src@[j]).wf(),
            es == exposures(src@, times@),
            lim == estimate_limit(),
            n == src@.len(),
            ch == src@[0].channels,
            curve@.len() == 256 * ch,
            p < src@[0].data@.len(),
            i <= n,
            num == total(es.take(i as int), robertson_num_term(curve@, ch as int, p as int)),
            den == total(es.take(i as int), robertson_den_term(p as int)),
            tnum == total(es.take(i as int), time_response_term(curve@, ch as int, p as int)),
            tden == total(es.take(i as int), time_square_term()),
            num <= den * lim,
            tnum <= tden * lim,
            num <= i * 0x80_0000_0000_0000_0000_00,
            den <= i * 0x80_0000_0000_0000_0000,
            tnum <= i * 0x1_0000_0000_0000_0000_00,
            tden <= i * 0x1_0000_0000_0000_0000,
            i > 0 ==> tden > 0,
        decreases n - i,
    {
        proof {
            lemma_exposure_element(src@, times@, i as int, p as int);
            lemma_total_push(es, i as int, robertson_num_term(curve@, ch as int, p as int));
            lemma_total_push(es, i as int, robertson_den_term(p as int));
            lemma_total_push(es, i as int, time_response_term(curve@, ch as int, p as int));
            lemma_total_push(es, i as int, time_square_term());
        }
        let z = src[i].data[p];
        let t = times[i] as u128;
        let w: u128 = if z <= 127 { z as u128 } else { 255 - z as u128 };
        let c = p % ch;
        let g = curve[c * 256 + z as usize] as u128 * RADIANCE_ONE as u128;
        proof {
            assert(g < lim);
            assert(t * g <= t * t * lim) by (nonlinear_arith)
                requires g < lim, t >= 1;
            assert(w * t * g <= w * t * t * lim) by (nonlinear_arith)
                requires t * g <= t * t * lim, w >= 0;
            assert(t * g <= 0x1_0000_0000_0000_0000_00) by (nonlinear_arith)
                requires g < lim, lim == 0x100_0000_0000, 0 < t < 0x1_0000_0000;
            assert(t * t <= 0x1_0000_0000_0000_0000) by (nonlinear_arith)
                requires 0 < t < 0x1_0000_0000;
            assert(w * t * g <= 0x80_0000_0000_0000_0000_00) by (nonlinear_arith)
                requires t * g <= 0x1_0000_0000_0000_0000_00, 0 <= w <= 127;
            assert(w * t * t <= 0x80_0000_0000_0000_0000) by (nonlinear_arith)
                requires t * t <= 0x1_0000_0000_0000_0000, 0 <= w <= 127;
            assert((den + w * t * t) * lim == den * lim + w * t * t * lim) by (nonlinear_arith);
            assert((tden + t * t) * lim == tden * lim + t * t * lim) by (nonlinear_arith);
            assert(i * 0x80_0000_0000_0000_0000_00 <= 0x1_0000_0000 * 0x80_0000_0000_0000_0000_00)
                by (nonlinear_arith)
                requires i <= 0x1_0000_0000;
            assert(i * 0x80_0000_0000_0000_0000 <= 0x1_0000_0000 * 0x80_0000_0000_0000_0000)
                by (nonlinear_arith)
                requires i <= 0x1_0000_0000;
            assert(i * 0x1_0000_0000_0000_0000_00 <= 0x1_0000_0000 * 0x1_0000_0000_0000_0000_00)
                by (nonlinear_arith)
                requires i <= 0x1_0000_0000;
            assert(i * 0x1_0000_0000_0000_0000 <= 0x1_0000_0000 * 0x1_0000_0000_0000_0000)
                by (nonlinear_arith)
                requires i <= 0x1_0000_0000;
            assert(t * t > 0) by (nonlinear_arith)
                requires t > 0;
            assert(num + w * t * g <= (i + 1) * 0x80_0000_0000_0000_0000_00) by (nonlinear_arith)
                requires
                    num <= i * 0x80_0000_0000_0000_0000_00,
                    w * t * g <= 0x80_0000_0000_0000_0000_00;
            assert((i + 1) * 0x80_0000_0000_0000_0000_00 <= 0x1_0000_0001 * 0x80_0000_0000_0000_0000_00)
                by (nonlinear_arith)
                requires i <= 0x1_0000_0000;
        }
        proof {
            assert(w * t <= 127 * 0x1_0000_0000) by (nonlinear_arith)
                requires 0 <= w <= 127, 0 < t < 0x1_0000_0000;
        }
        let wt = w * t;
        let term = wt * g;
        num = num + term;
        den = den + wt * t;
        tnum = tnum + t * g;
        tden = tden + t * t;
        i = i + 1;
    }
    proof {
        assert(es.take(n as int) == es);
    }
    if den > 0 {
        proof {
            lemma_div_bound(num as int, den as int, lim);
        }
        (num / den) as u64
    } else {
        proof {
            lemma_div_bound(tnum as int, tden as int, lim);
        }
        (tnum / tden) as u64
    }
}

/// The identity response: level `z` of every channel stands for `z`.
pub fn linear_response(channels: usize) -> (r: ResponseCurve)
    requires
        channels == 1 || channels == 3,
    ensures
        r.fits(channels as int),
        r.values@ == linear_curve(channels as int),
        forall|c: int, z: int| 0 <= c < channels && 0 <= z < 256 ==> #[trigger] r.values@[c * 256 + z] == z,
{
    let mut values: Vec<u32> = Vec::with_capacity(256 * channels);
    let mut k: usize = 0;
    while k < 256 * channels
        invariant
            channels == 1 || channels == 3,
            k <= 256 * channels,
            values@.len() == k,
            forall|j: int| 0 <= j < k ==> #[trigger] values@[j] == j % 256,
        decreases 256 * channels - k,
    {
        values.push((k % 256) as u32);
        k = k + 1;
    }
    proof {
        assert forall|c: int, z: int| 0 <= c < channels && 0 <= z < 256 implies #[trigger] values@[c * 256
            + z] == z by {
            assert((c * 256 + z) % 256 == z) by (nonlinear_arith)
                requires 0 <= z < 256, 0 <= c;
            assert(c * 256 + z < 256 * channels) by (nonlinear_arith)
                requires 0 <= z < 256, 0 <= c < channels;
        }
    }
    assert(values@ =~= linear_curve(channels as int));
    ResponseCurve { channels, values }
}

/// Merging by the Debevec method: a hat-weighted mean of response over time.
#[derive(Debug, Clone, Copy, PartialEq, Eq, Structural)]
pub struct MergeDebevec {}

pub fn create_merge_debevec() -> (r: MergeDebevec) {
    MergeDebevec {  }
}

impl MergeDebevec {
    /// The radiance map of `src`, exposed for `times`, through `response`,
    /// into `dst`. Refuses an invalid sequence and a curve that does not fit
    /// its channels, and then leaves `dst` alone.
    pub fn process_with_response(
        &self,
        src: &Vec<Image>,
        dst: &mut RadianceMap,
        times: &Vec<u32>,
        response: &ResponseCurve,
    ) -> (r: Result<(), PhotoError>)
        requires
            forall|j: int| 0 <= j < src@.len() ==> (#[trigger] src@[j]).wf(),
        ensures
            (valid_sequence(src@, times@) && response.fits(src@[0].channels as int)) <==> r.is_ok(),
            r.is_err() ==> *final(dst) == *old(dst) && r == Err::<(), PhotoError>(PhotoError::InvalidArgument),
            r.is_ok() ==> {
                &&& final(dst).wf()
                &&& final(dst).width == src@[0].width
                &&& final(dst).height == src@[0].height
                &&& final(dst).channels == src@[0].channels
                &&& final(dst).data@ == debevec_map(
                    exposures(src@, times@),
                    response.values@,
                    src@[0].channels as int,
                    src@[0].data@.len(),
                )
            },
    {
        check_sequence(src, times)?;
        let ch = src[0].channels;
        if response.channels != ch || response.values.len() != 256 * ch {
            return Err(PhotoError::InvalidArgument);
        }
        let len = src[0].data.len();
        let mut data: Vec<u64> = Vec::with_capacity(len);
        let mut p: usize = 0;
        while p < len
            invariant
                valid_sequence(src@, times@),
                forall|j: int| 0 <= j < src@.len() ==> (#[trigger] src@[j]).wf(),
                ch == src@[0].channels,
                response.fits(ch as int),
                len == src@[0].data@.len(),
                p <= len,
                data@.len() == p,
                forall|q: int|
                    0 <= q < p ==> #[trigger] data@[q] == debevec_value(
                        exposures(src@, times@),
                        response.values@,
                        ch as int,
                        q,
                    ) as u64,
            decreases len - p,
        {
            let v = debevec_pixel(src, times, &response.values, ch, p);
            data.push(v);
            p = p + 1;
        }
        proof {
            assert(data@ =~= debevec_map(exposures(src@, times@), response.values@, ch as int, len as nat));
        }
        *dst = RadianceMap { width: src[0].width, height: src[0].height, channels: ch, data };
        Ok(())
    }

    /// As `process_with_response`, through the identity response.
    pub fn process(&self, src: &Vec<Image>, dst: &mut RadianceMap, times: &Vec<u32>) -> (r: Result<
        (),
        PhotoError,
    >)
        requires
            forall|j: int| 0 <= j < src@.len() ==> (#[trigger] src@[j]).wf(),
        ensures
            valid_sequence(src@, times@) <==> r.is_ok(),
            r.is_err() ==> *final(dst) == *old(dst) && r == Err::<(), PhotoError>(PhotoError::InvalidArgument),
            r.is_ok() ==> {
                &&& final(dst).wf()
                &&& final(dst).width == src@[0].width
                &&& final(dst).height == src@[0].height
                &&& final(dst).channels == src@[0].channels
                &&& final(dst).data@ == debevec_map(
                    exposures(src@, times@),
                    linear_curve(src@[0].channels as int),
                    src@[0].channels as int,
                    src@[0].data@.len(),
                )
            },
    {
        check_sequence(src, times)?;
        let curve = linear_response(src[0].channels);
        self.process_with_response(src, dst, times, &curve)
    }
}

/// Merging by the Robertson method: the weighted least-squares radiance.
#[derive(Debug, Clone, Copy, PartialEq, Eq, Structural)]
pub struct MergeRobertson {}

pub fn create_merge_robertson() -> (r: MergeRobertson) {
    MergeRobertson {  }
}

impl MergeRobertson {
    /// The radiance map of `src`, exposed for `times`, through `response`,
    /// into `dst`. Refuses an invalid sequence and a curve that does not fit
    /// its channels, and then leaves `dst` alone.
    pub fn process_with_response(
        &self,
        src: &Vec<Image>,
        dst: &mut RadianceMap,
        times: &Vec<u32>,
        response: &ResponseCurve,
    ) -> (r: Result<(), PhotoError>)
        requires
            forall|j: int| 0 <= j < src@.len() ==> (#[trigger] src@[j]).wf(),
        ensures
            (valid_sequence(src@, times@) && response.fits(src@[0].channels as int)) <==> r.is_ok(),
            r.is_err() ==> *final(dst) == *old(dst) && r == Err::<(), PhotoError>(PhotoError::InvalidArgument),
            r.is_ok() ==> {
                &&& final(dst).wf()
                &&& final(dst).width == src@[0].width
                &&& final(dst).height == src@[0].height
                &&& final(dst).channels == src@[0].channels
                &&& final(dst).data@ == robertson_map(
                    exposures(src@, times@),
                    response.values@,
                    src@[0].channels as int,
                    src@[0].data@.len(),
                )
                &&& forall|q: int| 0 <= q < final(dst).data@.len() ==> #[trigger] final(dst).data@[q] <= estimate_limit()
            },
    {
        check_sequence(src, times)?;
        let ch = src[0].channels;
        if response.channels != ch || response.values.len() != 256 * ch {
            return Err(PhotoError::InvalidArgument);
        }
        let len = src[0].data.len();
        let mut data: Vec<u64> = Vec::with_capacity(len);
        let mut p: usize = 0;
        while p < len
            invariant
                valid_sequence(src@, times@),
                forall|j: int| 0 <= j < src@.len() ==> (#[trigger] src@[j]).wf(),
                ch == src@[0].channels,
                response.fits(ch as int),
                len == src@[0].data@.len(),
                p <= len,
                data@.len() == p,
                forall|q: int|
                    0 <= q < p ==> #[trigger] data@[q] == robertson_value(
                        exposures(src@, times@),
                        response.values@,
                        ch as int,
                        q,
                    ) as u64,
                forall|q: int| 0 <= q < p ==> #[trigger] data@[q] <= estimate_limit(),
            decreases len - p,
        {
            let v = robertson_pixel(src, times, &response.values, ch, p);
            data.push(v);
            p = p + 1;
        }
        proof {
            assert(data@ =~= robertson_map(exposures(src@, times@), response.values@, ch as int, len as nat));
        }
        *dst = RadianceMap { width: src[0].width, height: src[0].height, channels: ch, data };
        Ok(())
    }

    /// As `process_with_response`, through the identity response.
    pub fn process(&self, src: &Vec<Image>, dst: &mut RadianceMap, times: &Vec<u32>) -> (r: Result<
        (),
        PhotoError,
    >)
        requires
            forall|j: int| 0 <= j < src@.len() ==> (#[trigger] src@[j]).wf(),
        ensures
            valid_sequence(src@, times@) <==> r.is_ok(),
            r.is_err() ==> *final(dst) == *old(dst) && r == Err::<(), PhotoError>(PhotoError::InvalidArgument),
            r.is_ok() ==> {
                &&& final(dst).wf()
                &&& final(dst).width == src@[0].width
                &&& final(dst).height == src@[0].height
                &&& final(dst).channels == src@[0].channels
                &&& final(dst).data@ == robertson_map(
                    exposures(src@, times@),
                    linear_curve(src@[0].channels as int),
                    src@[0].channels as int,
                    src@[0].data@.len(),
                )
            },
    {
        check_sequence(src, times)?;
        let curve = linear_response(src[0].channels);
        self.process_with_response(src, dst, times, &curve)
    }
}

} // verus!
