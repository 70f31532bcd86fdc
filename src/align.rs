use vstd::prelude::*;
use crate::arith::{lemma_cell_in_range, lemma_index_in_grid, lemma_split_index};
use crate::image::{Image, PhotoError};
use crate::merge::ResponseCurve;
use crate::mtb::{exclude_bitmap, plane_bitmaps, threshold_bitmap};
use crate::pyramid::{half, lemma_pyramid_level_dims, lemma_pyramid_level_len, pyramid_level};

verus! {

/// An integer offset between two images, in pixels.
#[derive(Debug, Clone, Copy, PartialEq, Eq, Structural)]
pub struct Shift {
    pub dx: i32,
    pub dy: i32,
}

impl Shift {
    pub open spec fn pair(self) -> (int, int) {
        (self.dx as int, self.dy as int)
    }
}

// ---------------------------------------------------------------- luminance

/// Luminance of pixel `q`: the byte itself for one channel, otherwise the
/// integer weighting 29:150:77 (out of 256) of the blue, green and red bytes.
pub open spec fn luma(d: Seq<u8>, channels: int, q: int) -> u8 {
    if channels == 1 {
        d[q]
    } else {
        ((29 * d[3 * q] + 150 * d[3 * q + 1] + 77 * d[3 * q + 2]) / 256) as u8
    }
}

/// The luminance plane of an image, one byte per pixel.
pub open spec fn luma_plane(img: &Image) -> Seq<u8> {
    Seq::new((img.width * img.height) as nat, |q: int| luma(img.data@, img.channels as int, q))
}

/// The one-channel image of the luminance of `img`.
pub fn luminance(img: &Image) -> (r: Image)
    requires
        img.wf(),
    ensures
        r.wf(),
        r.channels == 1,
        r.width == img.width,
        r.height == img.height,
        r.data@ == luma_plane(img),
{
    let len = img.data.len();
    proof {
        img.lemma_len();
    }
    let n = img.width * img.height;
    let ch = img.channels;
    let mut out: Vec<u8> = Vec::with_capacity(n);
    let mut q: usize = 0;
    while q < n
        invariant
            img.wf(),
            n == img.width * img.height,
            ch == img.channels,
            q <= n,
            len == img.data@.len(),
            ch == 1 ==> img.data@.len() == n,
            ch == 3 ==> img.data@.len() == 3 * n,
            out@.len() == q,
            forall|i: int| 0 <= i < q ==> out@[i] == luma(img.data@, ch as int, i),
        decreases n - q,
    {
        if ch == 1 {
            out.push(img.data[q]);
        } else {
            proof {
                lemma_cell_in_range(q as int, 2, n as int, 3);
            }
            let b = img.data[3 * q] as u32;
            let g = img.data[3 * q + 1] as u32;
            let r = img.data[3 * q + 2] as u32;
            let v = (29 * b + 150 * g + 77 * r) / 256;
            out.push(v as u8);
        }
        q = q + 1;
    }
    proof {
        assert(out@ =~= luma_plane(img));
    }
    Image { width: img.width, height: img.height, channels: 1, data: out }
}

// ---------------------------------------------------------------- shifting

/// Element `p` of `img` moved by `(dx, dy)`: the element that lay `dx`
/// columns left of it and `dy` rows above it, or zero where that lies outside.
pub open spec fn shifted_value(img: &Image, dx: int, dy: int, p: int) -> u8 {
    let w = img.width as int;
    let h = img.height as int;
    let ch = img.channels as int;
    let c = p % ch;
    let q = p / ch;
    let sx = q % w - dx;
    let sy = q / w - dy;
    if 0 <= sx < w && 0 <= sy < h {
        img.data@[(sy * w + sx) * ch + c]
    } else {
        0
    }
}

/// The pixels of `img` moved by `(dx, dy)`, with zeros where nothing moved in.
pub open spec fn shifted(img: &Image, dx: int, dy: int) -> Seq<u8> {
    Seq::new(img.data@.len(), |p: int| shifted_value(img, dx, dy, p))
}

/// Moving an image by nothing gives it back unchanged.
pub proof fn lemma_shift_zero_identity(img: &Image)
    requires
        img.wf(),
    ensures
        shifted(img, 0, 0) == img.data@,
{
    let w = img.width as int;
    let h = img.height as int;
    let ch = img.channels as int;
    assert forall|p: int| 0 <= p < img.data@.len() implies #[trigger] shifted_value(img, 0, 0, p)
        == img.data@[p] by {
        img.lemma_len();
        assert(p < ch * (w * h)) by (nonlinear_arith)
            requires p < (w * h) * ch;
        lemma_split_index(p, ch, w * h);
        let q = p / ch;
        assert(w > 0) by (nonlinear_arith)
            requires 0 <= p < (w * h) * ch, w >= 0, h >= 0, ch >= 0;
        lemma_split_index(q, w, h);
    }
    assert(shifted(img, 0, 0) =~= img.data@);
}

/// `img` moved by `shift`; elements that enter from outside are zero.
pub fn shift_image(img: &Image, shift: Shift) -> (r: Image)
    requires
        img.wf(),
    ensures
        r.wf(),
        r.same_shape(img),
        r.data@ == shifted(img, shift.dx as int, shift.dy as int),
{
    let w = img.width;
    let h = img.height;
    let ch = img.channels;
    let n = img.data.len();
    let mut out: Vec<u8> = Vec::with_capacity(n);
    let mut p: usize = 0;
    while p < n
        invariant
            img.wf(),
            w == img.width,
            h == img.height,
            ch == img.channels,
            n == img.data@.len(),
            p <= n,
            out@.len() == p,
            forall|i: int| 0 <= i < p ==> out@[i] == shifted_value(img, shift.dx as int, shift.dy as int, i),
        decreases n - p,
    {
        let c = p % ch;
        let q = p / ch;
        proof {
            assert(n == (w * h) * ch) by (nonlinear_arith)
                requires n == w * h * ch;
            lemma_split_index(p as int, ch as int, (w * h) as int);
            assert(w > 0 && w * h <= n) by (nonlinear_arith)
                requires p < n, n == (w * h) * ch, ch >= 1, w >= 0, h >= 0;
        }
        let x = (q % w) as i128;
        let y = (q / w) as i128;
        proof {
            lemma_split_index(q as int, w as int, h as int);
        }
        let sx = x - shift.dx as i128;
        let sy = y - shift.dy as i128;
        if 0 <= sx && sx < w as i128 && 0 <= sy && sy < h as i128 {
            let sxu = sx as usize;
            let syu = sy as usize;
            proof {
                lemma_index_in_grid(sxu as int, syu as int, w as int, h as int);
                lemma_cell_in_range(syu * w + sxu, c as int, (w * h) as int, ch as int);
            }
            out.push(img.data[(syu * w + sxu) * ch + c]);
        } else {
            out.push(0);
        }
        p = p + 1;
    }
    proof {
        assert(out@ =~= shifted(img, shift.dx as int, shift.dy as int));
    }
    Image { width: w, height: h, channels: ch, data: out }
}

// ---------------------------------------------------------------- cropping

/// Element `p` of the `w2`-wide window, with its top left corner at column
/// `x0`, row `y0`, of the `w`-wide pixels `d` of `ch` channels.
pub open spec fn cropped_value(d: Seq<u8>, w: int, ch: int, x0: int, y0: int, w2: int, p: int) -> u8 {
    let c = p % ch;
    let q = p / ch;
    let x = q % w2 + x0;
    let y = q / w2 + y0;
    d[(y * w + x) * ch + c]
}

/// The `w2` by `h2` window, at column `x0`, row `y0`, of the `w`-wide pixels
/// `d` of `ch` channels.
pub open spec fn cropped(d: Seq<u8>, w: int, ch: int, x0: int, y0: int, w2: int, h2: int) -> Seq<u8> {
    Seq::new((w2 * h2 * ch) as nat, |p: int| cropped_value(d, w, ch, x0, y0, w2, p))
}

/// The `w2` by `h2` window of `img` whose top left corner is at column `x0`,
/// row `y0`.
pub fn crop(img: &Image, x0: usize, y0: usize, w2: usize, h2: usize) -> (r: Image)
    requires
        img.wf(),
        x0 + w2 <= img.width,
        y0 + h2 <= img.height,
    ensures
        r.wf(),
        r.width == w2,
        r.height == h2,
        r.channels == img.channels,
        r.data@ == cropped(img.data@, img.width as int, img.channels as int, x0 as int, y0 as int, w2 as int, h2 as int),
{
    let w = img.width;
    let h = img.height;
    let ch = img.channels;
    let len = img.data.len();
    proof {
        img.lemma_len();
        assert(w2 * h2 <= (w2 * h2) * ch) by (nonlinear_arith)
            requires ch >= 1, w2 * h2 >= 0;
        assert(w2 * h2 <= w * h) by (nonlinear_arith)
            requires w2 <= w, h2 <= h, w2 >= 0, h2 >= 0;
        assert((w2 * h2) * ch <= (w * h) * ch) by (nonlinear_arith)
            requires w2 * h2 <= w * h, ch >= 0;
    }
    let n = w2 * h2 * ch;
    let mut out: Vec<u8> = Vec::with_capacity(n);
    let mut p: usize = 0;
    while p < n
        invariant
            img.wf(),
            w == img.width,
            h == img.height,
            ch == img.channels,
            img.data@.len() == (w * h) * ch,
            len == img.data@.len(),
            w * h <= len,
            x0 + w2 <= w,
            y0 + h2 <= h,
            n == (w2 * h2) * ch,
            p <= n,
            out@.len() == p,
            forall|i: int| 0 <= i < p ==> out@[i] == cropped_value(img.data@, w as int, ch as int, x0 as int, y0 as int, w2 as int, i),
        decreases n - p,
    {
        proof {
            assert(p < ch * (w2 * h2)) by (nonlinear_arith)
                requires p < (w2 * h2) * ch;
            lemma_split_index(p as int, ch as int, (w2 * h2) as int);
        }
        let c = p % ch;
        let q = p / ch;
        proof {
            assert(w2 > 0) by (nonlinear_arith)
                requires q < w2 * h2, q >= 0, w2 >= 0, h2 >= 0;
            lemma_split_index(q as int, w2 as int, h2 as int);
        }
        let x = q % w2 + x0;
        let y = q / w2 + y0;
        proof {
            lemma_index_in_grid(x as int, y as int, w as int, h as int);
            lemma_cell_in_range(y * w + x, c as int, (w * h) as int, ch as int);
        }
        out.push(img.data[(y * w + x) * ch + c]);
        p = p + 1;
    }
    proof {
        assert(out@ =~= cropped(img.data@, w as int, ch as int, x0 as int, y0 as int, w2 as int, h2 as int));
    }
    Image { width: w2, height: h2, channels: ch, data: out }
}

/// The largest first coordinate among `s` and zero.
pub open spec fn max_dx(s: Seq<(int, int)>) -> int
    decreases s.len(),
{
    if s.len() == 0 { 0 } else { let m = max_dx(s.drop_last()); if s.last().0 > m { s.last().0 } else { m } }
}

/// The smallest first coordinate among `s` and zero.
pub open spec fn min_dx(s: Seq<(int, int)>) -> int
    decreases s.len(),
{
    if s.len() == 0 { 0 } else { let m = min_dx(s.drop_last()); if s.last().0 < m { s.last().0 } else { m } }
}

/// The largest second coordinate among `s` and zero.
pub open spec fn max_dy(s: Seq<(int, int)>) -> int
    decreases s.len(),
{
    if s.len() == 0 { 0 } else { let m = max_dy(s.drop_last()); if s.last().1 > m { s.last().1 } else { m } }
}

/// The smallest second coordinate among `s` and zero.
pub open spec fn min_dy(s: Seq<(int, int)>) -> int
    decreases s.len(),
{
    if s.len() == 0 { 0 } else { let m = min_dy(s.drop_last()); if s.last().1 < m { s.last().1 } else { m } }
}

/// The extent of the part that all images moved by `s` still cover along an
/// axis of length `len`, given the largest and smallest shifts along it.
pub open spec fn common_extent(len: int, hi: int, lo: int) -> int {
    if len - (hi - lo) > 0 { len - (hi - lo) } else { 0 }
}

/// Where that common part starts.
pub open spec fn common_start(len: int, hi: int, lo: int) -> int {
    if len - (hi - lo) > 0 { hi } else { 0 }
}

// ---------------------------------------------------------------- matching

/// Whether pixel `p` of the first bitmap pair disagrees with the second pair
/// moved by `(dx, dy)`: both exclusion bits set and the threshold bits differ.
pub open spec fn differs_at(
    tb0: Seq<bool>,
    eb0: Seq<bool>,
    tb1: Seq<bool>,
    eb1: Seq<bool>,
    w: int,
    h: int,
    dx: int,
    dy: int,
    p: int,
) -> bool {
    let sx = p % w - dx;
    let sy = p / w - dy;
    &&& 0 <= sx < w
    &&& 0 <= sy < h
    &&& eb0[p]
    &&& eb1[sy * w + sx]
    &&& tb0[p] != tb1[sy * w + sx]
}

/// How many of the first `n` pixels disagree.
pub open spec fn mismatch_count(
    tb0: Seq<bool>,
    eb0: Seq<bool>,
    tb1: Seq<bool>,
    eb1: Seq<bool>,
    w: int,
    h: int,
    dx: int,
    dy: int,
    n: int,
) -> nat
    decreases n,
{
    if n <= 0 {
        0
    } else {
        mismatch_count(tb0, eb0, tb1, eb1, w, h, dx, dy, n - 1) + if differs_at(
            tb0,
            eb0,
            tb1,
            eb1,
            w,
            h,
            dx,
            dy,
            n - 1,
        ) {
            1nat
        } else {
            0nat
        }
    }
}

/// The alignment error of two `w` by `h` luminance planes when the second is
/// moved by `s`: the pixels where their bitmaps disagree.
pub open spec fn level_error(s0: Seq<u8>, s1: Seq<u8>, w: int, h: int, range: int, s: (int, int)) -> nat {
    mismatch_count(
        threshold_bitmap(s0),
        exclude_bitmap(s0, range),
        threshold_bitmap(s1),
        exclude_bitmap(s1, range),
        w,
        h,
        s.0,
        s.1,
        w * h,
    )
}

/// Candidate `k` (0 to 8) around `c`: offsets -1, 0, 1 on each axis, rows of
/// three.
pub open spec fn candidate(c: (int, int), k: int) -> (int, int) {
    (c.0 + k % 3 - 1, c.1 + k / 3 - 1)
}

pub open spec fn magnitude(s: (int, int)) -> int {
    (if s.0 < 0 { -s.0 } else { s.0 }) + (if s.1 < 0 { -s.1 } else { s.1 })
}

/// The best of the first `k` candidates around `c`: least error, and among
/// equal errors the least magnitude, and among those the first.
pub open spec fn best_candidate(
    s0: Seq<u8>,
    s1: Seq<u8>,
    w: int,
    h: int,
    range: int,
    c: (int, int),
    k: int,
) -> (int, int)
    decreases k,
{
    if k <= 1 {
        candidate(c, 0)
    } else {
        let b = best_candidate(s0, s1, w, h, range, c, k - 1);
        let n = candidate(c, k - 1);
        let eb = level_error(s0, s1, w, h, range, b);
        let en = level_error(s0, s1, w, h, range, n);
        if en < eb || (en == eb && magnitude(n) < magnitude(b)) {
            n
        } else {
            b
        }
    }
}

/// The shift found after the `k` coarsest of `levels` pyramid levels: each
/// level doubles the shift found above it and takes the best of the nine
/// candidates around it.
pub open spec fn shift_after(
    s0: Seq<u8>,
    s1: Seq<u8>,
    w: nat,
    h: nat,
    range: int,
    levels: nat,
    k: nat,
) -> (int, int)
    decreases k,
{
    if k == 0 {
        (0, 0)
    } else {
        let prev = shift_after(s0, s1, w, h, range, levels, (k - 1) as nat);
        let lvl = (levels - k) as nat;
        let l0 = pyramid_level(s0, w, h, lvl);
        let l1 = pyramid_level(s1, w, h, lvl);
        best_candidate(l0.0, l1.0, l0.1 as int, l0.2 as int, range, (2 * prev.0, 2 * prev.1), 9)
    }
}

/// The shift that moves `img1` onto `img0`, searched over `max_bits` levels.
pub open spec fn mtb_shift(img0: &Image, img1: &Image, max_bits: nat, range: int) -> (int, int) {
    shift_after(
        luma_plane(img0),
        luma_plane(img1),
        img0.width as nat,
        img0.height as nat,
        range,
        max_bits,
        max_bits,
    )
}

/// The largest coordinate the search can reach after `k` levels.
pub open spec fn search_radius(k: nat) -> int
    decreases k,
{
    if k == 0 {
        0
    } else {
        2 * search_radius((k - 1) as nat) + 1
    }
}

pub proof fn lemma_best_candidate_near(
    s0: Seq<u8>,
    s1: Seq<u8>,
    w: int,
    h: int,
    range: int,
    c: (int, int),
    k: int,
)
    requires
        k <= 9,
    ensures
        c.0 - 1 <= best_candidate(s0, s1, w, h, range, c, k).0 <= c.0 + 1,
        c.1 - 1 <= best_candidate(s0, s1, w, h, range, c, k).1 <= c.1 + 1,
    decreases k,
{
    if k > 1 {
        lemma_best_candidate_near(s0, s1, w, h, range, c, k - 1);
        assert(0 <= (k - 1) % 3 < 3);
        assert(0 <= (k - 1) / 3 < 3);
    }
}

pub proof fn lemma_shift_after_bound(
    s0: Seq<u8>,
    s1: Seq<u8>,
    w: nat,
    h: nat,
    range: int,
    levels: nat,
    k: nat,
)
    ensures
        -search_radius(k) <= shift_after(s0, s1, w, h, range, levels, k).0 <= search_radius(k),
        -search_radius(k) <= shift_after(s0, s1, w, h, range, levels, k).1 <= search_radius(k),
    decreases k,
{
    if k > 0 {
        lemma_shift_after_bound(s0, s1, w, h, range, levels, (k - 1) as nat);
        let prev = shift_after(s0, s1, w, h, range, levels, (k - 1) as nat);
        let lvl = (levels - k) as nat;
        let l0 = pyramid_level(s0, w, h, lvl);
        let l1 = pyramid_level(s1, w, h, lvl);
        lemma_best_candidate_near(l0.0, l1.0, l0.1 as int, l0.2 as int, range, (2 * prev.0, 2 * prev.1), 9);
    }
}

pub proof fn lemma_search_radius_grows(k: nat, j: nat)
    requires
        k <= j,
    ensures
        0 <= search_radius(k) <= search_radius(j),
    decreases j,
{
    if j > k {
        lemma_search_radius_grows(k, (j - 1) as nat);
    } else if k > 0 {
        lemma_search_radius_grows((k - 1) as nat, (k - 1) as nat);
    }
}

/// How many pixels of the first bitmaps disagree with the second ones moved
/// by `(dx, dy)`.
pub fn count_mismatches(
    tb0: &Vec<bool>,
    eb0: &Vec<bool>,
    tb1: &Vec<bool>,
    eb1: &Vec<bool>,
    w: usize,
    h: usize,
    dx: i64,
    dy: i64,
) -> (r: usize)
    requires
        tb0@.len() == w * h,
        eb0@.len() == w * h,
        tb1@.len() == w * h,
        eb1@.len() == w * h,
    ensures
        r == mismatch_count(tb0@, eb0@, tb1@, eb1@, w as int, h as int, dx as int, dy as int, w * h),
{
    let n = tb0.len();
    let mut count: usize = 0;
    let mut p: usize = 0;
    while p < n
        invariant
            n == w * h,
            tb0@.len() == n,
            eb0@.len() == n,
            tb1@.len() == n,
            eb1@.len() == n,
            p <= n,
            count <= p,
            count == mismatch_count(tb0@, eb0@, tb1@, eb1@, w as int, h as int, dx as int, dy as int, p as int),
        decreases n - p,
    {
        proof {
            assert(w > 0) by (nonlinear_arith)
                requires p < w * h, w >= 0, h >= 0, p >= 0;
            lemma_split_index(p as int, w as int, h as int);
        }
        let sx = (p % w) as i128 - dx as i128;
        let sy = (p / w) as i128 - dy as i128;
        let mut hit = false;
        if 0 <= sx && sx < w as i128 && 0 <= sy && sy < h as i128 {
            proof {
                lemma_index_in_grid(sx as int, sy as int, w as int, h as int);
            }
            let q = (sy as usize) * w + (sx as usize);
            hit = eb0[p] && eb1[q] && tb0[p] != tb1[q];
        }
        if hit {
            count = count + 1;
        }
        p = p + 1;
    }
    count
}

/// Bitmaps compared with themselves, unmoved, never disagree.
pub proof fn lemma_no_mismatch_with_self(tb: Seq<bool>, eb: Seq<bool>, w: int, h: int, n: int)
    requires
        n <= w * h,
        w >= 0,
        h >= 0,
    ensures
        mismatch_count(tb, eb, tb, eb, w, h, 0, 0, n) == 0,
    decreases n,
{
    if n > 0 {
        lemma_no_mismatch_with_self(tb, eb, w, h, n - 1);
        assert(w > 0) by (nonlinear_arith)
            requires 0 < n <= w * h, w >= 0, h >= 0;
        lemma_split_index(n - 1, w, h);
    }
}

/// Around the origin, a plane matched with itself keeps the origin: its error
/// is zero and no other candidate has a smaller magnitude.
pub proof fn lemma_best_candidate_self(s: Seq<u8>, w: int, h: int, range: int, k: int)
    requires
        5 <= k <= 9,
        w >= 0,
        h >= 0,
    ensures
        best_candidate(s, s, w, h, range, (0, 0), k) == (0int, 0int),
    decreases k,
{
    lemma_no_mismatch_with_self(
        threshold_bitmap(s),
        exclude_bitmap(s, range),
        w,
        h,
        w * h,
    );
    assert(candidate((0, 0), 4) == (0int, 0int));
    if k > 5 {
        lemma_best_candidate_self(s, w, h, range, k - 1);
    }
}

/// Whatever the depth and the noise band, two images with the same pixels
/// need no shift.
pub proof fn lemma_identical_images_zero_shift(img0: &Image, img1: &Image, max_bits: nat, range: int)
    requires
        img0.wf(),
        img1.same_pixels(img0),
    ensures
        mtb_shift(img0, img1, max_bits, range) == (0int, 0int),
{
    assert(luma_plane(img0) =~= luma_plane(img1));
    lemma_shift_after_self(luma_plane(img0), img0.width as nat, img0.height as nat, range, max_bits, max_bits);
}

pub proof fn lemma_shift_after_self(s: Seq<u8>, w: nat, h: nat, range: int, levels: nat, k: nat)
    ensures
        shift_after(s, s, w, h, range, levels, k) == (0int, 0int),
    decreases k,
{
    if k > 0 {
        lemma_shift_after_self(s, w, h, range, levels, (k - 1) as nat);
        let lvl = (levels - k) as nat;
        let l = pyramid_level(s, w, h, lvl);
        lemma_best_candidate_self(l.0, l.1 as int, l.2 as int, range, 9);
    }
}

pub proof fn lemma_search_radius_limit(k: nat)
    requires
        k <= MAX_SEARCH_BITS,
    ensures
        0 <= search_radius(k) <= 0x7fff_ffff,
{
    lemma_search_radius_pow2(31);
    vstd::arithmetic::power2::lemma2_to64();
    lemma_search_radius_grows(k, 31);
}

pub proof fn lemma_search_radius_pow2(k: nat)
    ensures
        search_radius(k) == vstd::arithmetic::power2::pow2(k) - 1,
    decreases k,
{
    if k == 0 {
        vstd::arithmetic::power2::lemma2_to64();
    } else {
        lemma_search_radius_pow2((k - 1) as nat);
        vstd::arithmetic::power2::lemma_pow2_unfold(k);
    }
}

fn abs_sum(x: i64, y: i64) -> (r: i64)
    requires
        -0x1_0000_0000 <= x <= 0x1_0000_0000,
        -0x1_0000_0000 <= y <= 0x1_0000_0000,
    ensures
        r == magnitude((x as int, y as int)),
{
    let ax = if x < 0 { -x } else { x };
    let ay = if y < 0 { -y } else { y };
    ax + ay
}

/// The shift of each image of `src` onto the first.
pub open spec fn sequence_shifts(src: Seq<Image>, max_bits: nat, range: int) -> Seq<(int, int)> {
    Seq::new(src.len(), |i: int| mtb_shift(&src[0], &src[i], max_bits, range))
}

/// Image `i` of `src` laid over the first; with `cut`, cropped to the part
/// that every moved image still covers.
pub open spec fn aligned_pixels(src: Seq<Image>, i: int, max_bits: nat, range: int, cut: bool) -> Seq<u8> {
    let sh = sequence_shifts(src, max_bits, range);
    let moved = shifted(&src[i], sh[i].0, sh[i].1);
    let w = src[0].width as int;
    let h = src[0].height as int;
    if cut {
        cropped(
            moved,
            w,
            src[i].channels as int,
            common_start(w, max_dx(sh), min_dx(sh)),
            common_start(h, max_dy(sh), min_dy(sh)),
            common_extent(w, max_dx(sh), min_dx(sh)),
            common_extent(h, max_dy(sh), min_dy(sh)),
        )
    } else {
        moved
    }
}

/// The width and height of every aligned image.
pub open spec fn aligned_size(src: Seq<Image>, max_bits: nat, range: int, cut: bool) -> (int, int) {
    let sh = sequence_shifts(src, max_bits, range);
    let w = src[0].width as int;
    let h = src[0].height as int;
    if cut {
        (common_extent(w, max_dx(sh), min_dx(sh)), common_extent(h, max_dy(sh), min_dy(sh)))
    } else {
        (w, h)
    }
}

/// A sequence of images of one width, height and channel count.
pub open spec fn same_size_sequence(src: Seq<Image>) -> bool {
    &&& src.len() > 0
    &&& forall|i: int|
        0 <= i < src.len() ==> (#[trigger] src[i]).same_shape(&src[0])
}

pub proof fn lemma_extremes_step(s: Seq<(int, int)>)
    requires
        s.len() > 0,
    ensures
        max_dx(s) == if s.last().0 > max_dx(s.drop_last()) { s.last().0 } else { max_dx(s.drop_last()) },
        min_dx(s) == if s.last().0 < min_dx(s.drop_last()) { s.last().0 } else { min_dx(s.drop_last()) },
        max_dy(s) == if s.last().1 > max_dy(s.drop_last()) { s.last().1 } else { max_dy(s.drop_last()) },
        min_dy(s) == if s.last().1 < min_dy(s.drop_last()) { s.last().1 } else { min_dy(s.drop_last()) },
{
}

/// The extremes are taken with zero, so they bracket it.
pub proof fn lemma_extremes_sign(s: Seq<(int, int)>)
    ensures
        max_dx(s) >= 0,
        min_dx(s) <= 0,
        max_dy(s) >= 0,
        min_dy(s) <= 0,
    decreases s.len(),
{
    if s.len() > 0 {
        lemma_extremes_sign(s.drop_last());
    }
}

/// Aligned images are never larger than the originals.
pub proof fn lemma_aligned_size_within(src: Seq<Image>, max_bits: nat, range: int, cut: bool)
    requires
        src.len() > 0,
    ensures
        0 <= aligned_size(src, max_bits, range, cut).0 <= src[0].width,
        0 <= aligned_size(src, max_bits, range, cut).1 <= src[0].height,
{
    lemma_extremes_sign(sequence_shifts(src, max_bits, range));
}

// ---------------------------------------------------------------- the engine

/// The deepest search: `max_bits` beyond it searches this many levels,
/// shifts of up to 2^31 - 1 pixels per axis, the range of a `Shift`.
pub const MAX_SEARCH_BITS: u32 = 31;

/// The number of pyramid levels searched for a `max_bits`.
pub open spec fn search_depth(max_bits: int) -> nat {
    if max_bits > MAX_SEARCH_BITS {
        MAX_SEARCH_BITS as nat
    } else if max_bits < 0 {
        0
    } else {
        max_bits as nat
    }
}

/// Median-threshold-bitmap alignment: its search depth, the noise band around
/// the median, and whether aligned images are cropped to their common part.
#[derive(Debug, Clone, Copy, PartialEq, Eq, Structural)]
pub struct AlignMTB {
    pub max_bits: i32,
    pub exclude_range: i32,
    pub cut: bool,
}

/// An aligner with the given parameters, neither negative. A `max_bits`
/// above `MAX_SEARCH_BITS` is kept and searches `MAX_SEARCH_BITS` levels.
pub fn create_align_mtb(max_bits: i32, exclude_range: i32, cut: bool) -> (r: Result<AlignMTB, PhotoError>)
    ensures
        (0 <= max_bits && exclude_range >= 0) <==> r.is_ok(),
        r matches Ok(a) ==> a.wf() && a.max_bits == max_bits && a.exclude_range == exclude_range
            && a.cut == cut,
        r matches Err(e) ==> e == PhotoError::InvalidArgument,
{
    if max_bits < 0 || exclude_range < 0 {
        Err(PhotoError::InvalidArgument)
    } else {
        Ok(AlignMTB { max_bits, exclude_range, cut })
    }
}

impl AlignMTB {
    pub open spec fn wf(&self) -> bool {
        &&& 0 <= self.max_bits
        &&& self.exclude_range >= 0
    }

    pub fn get_max_bits(&self) -> (r: i32)
        ensures
            r == self.max_bits,
    {
        self.max_bits
    }

    /// Sets the search depth; refuses a negative one and then changes
    /// nothing.
    pub fn set_max_bits(&mut self, max_bits: i32) -> (r: Result<(), PhotoError>)
        ensures
            (0 <= max_bits) <==> r.is_ok(),
            r.is_ok() ==> *final(self) == (AlignMTB { max_bits, ..*old(self) }),
            r.is_err() ==> *final(self) == *old(self) && r == Err::<(), PhotoError>(PhotoError::InvalidArgument),
    {
        if max_bits < 0 {
            return Err(PhotoError::InvalidArgument);
        }
        self.max_bits = max_bits;
        Ok(())
    }

    pub fn get_exclude_range(&self) -> (r: i32)
        ensures
            r == self.exclude_range,
    {
        self.exclude_range
    }

    /// Sets the noise band; refuses a negative one and then changes nothing.
    pub fn set_exclude_range(&mut self, exclude_range: i32) -> (r: Result<(), PhotoError>)
        ensures
            (exclude_range >= 0) <==> r.is_ok(),
            r.is_ok() ==> *final(self) == (AlignMTB { exclude_range, ..*old(self) }),
            r.is_err() ==> *final(self) == *old(self) && r == Err::<(), PhotoError>(PhotoError::InvalidArgument),
    {
        if exclude_range < 0 {
            return Err(PhotoError::InvalidArgument);
        }
        self.exclude_range = exclude_range;
        Ok(())
    }

    pub fn get_cut(&self) -> (r: bool)
        ensures
            r == self.cut,
    {
        self.cut
    }

    pub fn set_cut(&mut self, value: bool)
        ensures
            *final(self) == (AlignMTB { cut: value, ..*old(self) }),
    {
        self.cut = value;
    }

    /// `src` moved by `shift` into `dst`; pixels that enter from outside are
    /// zero.
    pub fn shift_mat(&self, src: &Image, dst: &mut Image, shift: Shift)
        requires
            src.wf(),
        ensures
            final(dst).wf(),
            final(dst).same_shape(src),
            final(dst).data@ == shifted(src, shift.dx as int, shift.dy as int),
    {
        *dst = shift_image(src, shift);
    }

    /// The threshold and exclusion bitmaps of the luminance of `img`, written
    /// into `tb` and `eb`.
    pub fn compute_bitmaps(&self, img: &Image, tb: &mut Vec<bool>, eb: &mut Vec<bool>)
        requires
            self.wf(),
            img.wf(),
        ensures
            final(tb)@ == threshold_bitmap(luma_plane(img)),
            final(eb)@ == exclude_bitmap(luma_plane(img), self.exclude_range as int),
    {
        let g = luminance(img);
        plane_bitmaps(&g.data, self.exclude_range as u32, tb, eb);
    }

    /// Every image of `src` laid over the first, into `dst`. Refuses an empty
    /// sequence and images of different width, height or channel count, and then leaves
    /// `dst` alone.
    pub fn process(&self, src: &Vec<Image>, dst: &mut Vec<Image>) -> (r: Result<(), PhotoError>)
        requires
            self.wf(),
            forall|i: int| 0 <= i < src@.len() ==> (#[trigger] src@[i]).wf(),
        ensures
            same_size_sequence(src@) <==> r.is_ok(),
            r.is_err() ==> final(dst)@ == old(dst)@ && r == Err::<(), PhotoError>(PhotoError::InvalidArgument),
            r.is_ok() ==> final(dst)@.len() == src@.len(),
            r.is_ok() ==> forall|i: int|
                0 <= i < src@.len() ==> {
                    &&& (#[trigger] final(dst)@[i]).wf()
                    &&& final(dst)@[i].channels == src@[i].channels
                    &&& (final(dst)@[i].width as int, final(dst)@[i].height as int) == aligned_size(
                        src@,
                        search_depth(self.max_bits as int),
                        self.exclude_range as int,
                        self.cut,
                    )
                    &&& final(dst)@[i].data@ == aligned_pixels(
                        src@,
                        i,
                        search_depth(self.max_bits as int),
                        self.exclude_range as int,
                        self.cut,
                    )
                },
    {
        let n = src.len();
        if n == 0 {
            return Err(PhotoError::InvalidArgument);
        }
        let w = src[0].width;
        let h = src[0].height;
        let mut i: usize = 1;
        while i < n
            invariant
                n == src@.len(),
                1 <= i <= n,
                w == src@[0].width,
                h == src@[0].height,
                forall|j: int| 0 <= j < i ==> (#[trigger] src@[j]).same_shape(&src@[0]),
            decreases n - i,
        {
            if src[i].width != w || src[i].height != h || src[i].channels != src[0].channels {
                return Err(PhotoError::InvalidArgument);
            }
            i = i + 1;
        }
        let ghost mb = search_depth(self.max_bits as int);
        let ghost rg = self.exclude_range as int;
        let ghost sh = sequence_shifts(src@, mb, rg);
        let mut moved: Vec<Image> = Vec::with_capacity(n);
        let mut hx: i64 = 0;
        let mut lx: i64 = 0;
        let mut hy: i64 = 0;
        let mut ly: i64 = 0;
        let mut i: usize = 0;
        while i < n
            invariant
                self.wf(),
                mb == search_depth(self.max_bits as int),
                rg == self.exclude_range,
                sh == sequence_shifts(src@, mb, rg),
                n == src@.len(),
                i <= n,
                same_size_sequence(src@),
                forall|j: int| 0 <= j < src@.len() ==> (#[trigger] src@[j]).wf(),
                moved@.len() == i,
                forall|j: int|
                    0 <= j < i ==> {
                        &&& (#[trigger] moved@[j]).wf()
                        &&& moved@[j].same_shape(&src@[j])
                        &&& moved@[j].data@ == shifted(&src@[j], sh[j].0, sh[j].1)
                    },
                hx == max_dx(sh.take(i as int)),
                lx == min_dx(sh.take(i as int)),
                hy == max_dy(sh.take(i as int)),
                ly == min_dy(sh.take(i as int)),
                -0x7fff_ffff <= lx <= 0 <= hx <= 0x7fff_ffff,
                -0x7fff_ffff <= ly <= 0 <= hy <= 0x7fff_ffff,
            decreases n - i,
        {
            let s = match self.calculate_shift(&src[0], &src[i]) {
                Ok(s) => s,
                Err(e) => {
                    return Err(e);
                },
            };
            proof {
                let t = sh.take(i + 1);
                assert(t.drop_last() == sh.take(i as int));
                assert(t.last() == sh[i as int]);
                lemma_extremes_step(t);
                lemma_shift_after_bound(
                    luma_plane(&src@[0]),
                    luma_plane(&src@[i as int]),
                    src@[0].width as nat,
                    src@[0].height as nat,
                    rg,
                    mb,
                    mb,
                );
                lemma_search_radius_limit(mb);
            }
            let dx = s.dx as i64;
            let dy = s.dy as i64;
            if dx > hx {
                hx = dx;
            }
            if dx < lx {
                lx = dx;
            }
            if dy > hy {
                hy = dy;
            }
            if dy < ly {
                ly = dy;
            }
            moved.push(shift_image(&src[i], s));
            i = i + 1;
        }
        proof {
            assert(sh.take(n as int) == sh);
        }
        if !self.cut {
            *dst = moved;
            return Ok(());
        }
        let ew = w as i128 - (hx as i128 - lx as i128);
        let eh = h as i128 - (hy as i128 - ly as i128);
        let (x0, w2) = if ew > 0 { (hx as usize, ew as usize) } else { (0usize, 0usize) };
        let (y0, h2) = if eh > 0 { (hy as usize, eh as usize) } else { (0usize, 0usize) };
        let mut out: Vec<Image> = Vec::with_capacity(n);
        let mut i: usize = 0;
        while i < n
            invariant
                self.wf(),
                self.cut,
                mb == search_depth(self.max_bits as int),
                rg == self.exclude_range,
                sh == sequence_shifts(src@, mb, rg),
                n == src@.len(),
                i <= n,
                same_size_sequence(src@),
                w == src@[0].width,
                h == src@[0].height,
                x0 + w2 <= w,
                y0 + h2 <= h,
                x0 == common_start(w as int, max_dx(sh), min_dx(sh)),
                y0 == common_start(h as int, max_dy(sh), min_dy(sh)),
                w2 == common_extent(w as int, max_dx(sh), min_dx(sh)),
                h2 == common_extent(h as int, max_dy(sh), min_dy(sh)),
                forall|j: int| 0 <= j < src@.len() ==> (#[trigger] src@[j]).wf(),
                moved@.len() == n,
                forall|j: int|
                    0 <= j < n ==> {
                        &&& (#[trigger] moved@[j]).wf()
                        &&& moved@[j].same_shape(&src@[j])
                        &&& moved@[j].data@ == shifted(&src@[j], sh[j].0, sh[j].1)
                    },
                out@.len() == i,
                forall|j: int|
                    0 <= j < i ==> {
                        &&& (#[trigger] out@[j]).wf()
                        &&& out@[j].channels == src@[j].channels
                        &&& out@[j].width == w2
                        &&& out@[j].height == h2
                        &&& out@[j].data@ == aligned_pixels(src@, j, mb, rg, true)
                    },
            decreases n - i,
        {
            let c = crop(&moved[i], x0, y0, w2, h2);
            out.push(c);
            i = i + 1;
        }
        *dst = out;
        Ok(())
    }

    /// As `process`: alignment needs neither exposure times nor a response
    /// curve, and these play no part.
    pub fn process_with_response(
        &self,
        src: &Vec<Image>,
        dst: &mut Vec<Image>,
        times: &Vec<u32>,
        response: &ResponseCurve,
    ) -> (r: Result<(), PhotoError>)
        requires
            self.wf(),
            forall|i: int| 0 <= i < src@.len() ==> (#[trigger] src@[i]).wf(),
        ensures
            same_size_sequence(src@) <==> r.is_ok(),
            r.is_err() ==> final(dst)@ == old(dst)@ && r == Err::<(), PhotoError>(PhotoError::InvalidArgument),
            r.is_ok() ==> final(dst)@.len() == src@.len(),
            r.is_ok() ==> forall|i: int|
                0 <= i < src@.len() ==> {
                    &&& (#[trigger] final(dst)@[i]).wf()
                    &&& final(dst)@[i].channels == src@[i].channels
                    &&& (final(dst)@[i].width as int, final(dst)@[i].height as int) == aligned_size(
                        src@,
                        search_depth(self.max_bits as int),
                        self.exclude_range as int,
                        self.cut,
                    )
                    &&& final(dst)@[i].data@ == aligned_pixels(
                        src@,
                        i,
                        search_depth(self.max_bits as int),
                        self.exclude_range as int,
                        self.cut,
                    )
                },
    {
        self.process(src, dst)
    }

    /// The shift that, applied to `img1` by `shift_mat`, lays it over `img0`.
    /// Refuses images of different width, height or channel count.
    pub fn calculate_shift(&self, img0: &Image, img1: &Image) -> (r: Result<Shift, PhotoError>)
        requires
            self.wf(),
            img0.wf(),
            img1.wf(),
        ensures
            img0.same_shape(img1) <==> r.is_ok(),
            r matches Ok(s) ==> s.pair() == mtb_shift(
                img0,
                img1,
                search_depth(self.max_bits as int),
                self.exclude_range as int,
            ),
            r matches Err(e) ==> e == PhotoError::InvalidArgument,
    {
        if img0.width != img1.width || img0.height != img1.height || img0.channels != img1.channels {
            return Err(PhotoError::InvalidArgument);
        }
        let w = img0.width;
        let h = img0.height;
        let g0 = luminance(img0);
        let g1 = luminance(img1);
        let ghost s0 = luma_plane(img0);
        let ghost s1 = luma_plane(img1);
        let levels: usize = if self.max_bits > MAX_SEARCH_BITS as i32 {
            MAX_SEARCH_BITS as usize
        } else {
            self.max_bits as usize
        };
        let range = self.exclude_range as u32;
        proof {
            g0.lemma_len();
            g1.lemma_len();
        }
        let mut p0: Vec<Vec<u8>> = Vec::new();
        let mut p1: Vec<Vec<u8>> = Vec::new();
        let mut ws: Vec<usize> = Vec::new();
        let mut hs: Vec<usize> = Vec::new();
        let mut cur0: Vec<u8> = g0.data;
        let mut cur1: Vec<u8> = g1.data;
        let mut cw: usize = w;
        let mut chh: usize = h;
        let mut k: usize = 0;
        while k < levels
            invariant
                k <= levels,
                s0.len() == w * h,
                s1.len() == w * h,
                p0@.len() == k,
                p1@.len() == k,
                ws@.len() == k,
                hs@.len() == k,
                forall|j: int|
                    0 <= j < k ==> {
                        &&& (#[trigger] p0@[j])@ == pyramid_level(s0, w as nat, h as nat, j as nat).0
                        &&& p1@[j]@ == pyramid_level(s1, w as nat, h as nat, j as nat).0
                        &&& ws@[j] == pyramid_level(s0, w as nat, h as nat, j as nat).1
                        &&& hs@[j] == pyramid_level(s0, w as nat, h as nat, j as nat).2
                    },
                cur0@ == pyramid_level(s0, w as nat, h as nat, k as nat).0,
                cur1@ == pyramid_level(s1, w as nat, h as nat, k as nat).0,
                cw == pyramid_level(s0, w as nat, h as nat, k as nat).1,
                chh == pyramid_level(s0, w as nat, h as nat, k as nat).2,
            decreases levels - k,
        {
            proof {
                lemma_pyramid_level_len(s0, w as nat, h as nat, k as nat);
                lemma_pyramid_level_len(s1, w as nat, h as nat, k as nat);
                lemma_pyramid_level_dims(s0, s1, w as nat, h as nat, k as nat);
            }
            let n0 = half(&cur0, cw, chh);
            let n1 = half(&cur1, cw, chh);
            p0.push(cur0);
            p1.push(cur1);
            ws.push(cw);
            hs.push(chh);
            cur0 = n0;
            cur1 = n1;
            cw = cw / 2;
            chh = chh / 2;
            k = k + 1;
        }
        let mut sx: i64 = 0;
        let mut sy: i64 = 0;
        let mut k: usize = 0;
        while k < levels
            invariant
                k <= levels,
                levels == search_depth(self.max_bits as int),
                self.wf(),
                range == self.exclude_range,
                s0.len() == w * h,
                s1.len() == w * h,
                p0@.len() == levels,
                p1@.len() == levels,
                ws@.len() == levels,
                hs@.len() == levels,
                forall|j: int|
                    0 <= j < levels ==> {
                        &&& (#[trigger] p0@[j])@ == pyramid_level(s0, w as nat, h as nat, j as nat).0
                        &&& p1@[j]@ == pyramid_level(s1, w as nat, h as nat, j as nat).0
                        &&& ws@[j] == pyramid_level(s0, w as nat, h as nat, j as nat).1
                        &&& hs@[j] == pyramid_level(s0, w as nat, h as nat, j as nat).2
                    },
                (sx as int, sy as int) == shift_after(s0, s1, w as nat, h as nat, range as int, levels as nat, k as nat),
                -search_radius(k as nat) <= sx <= search_radius(k as nat),
                -search_radius(k as nat) <= sy <= search_radius(k as nat),
            decreases levels - k,
        {
            let lvl = levels - 1 - k;
            let lw = ws[lvl];
            let lh = hs[lvl];
            let ghost l0 = pyramid_level(s0, w as nat, h as nat, lvl as nat);
            let ghost l1 = pyramid_level(s1, w as nat, h as nat, lvl as nat);
            proof {
                lemma_pyramid_level_len(s0, w as nat, h as nat, lvl as nat);
                lemma_pyramid_level_len(s1, w as nat, h as nat, lvl as nat);
                lemma_pyramid_level_dims(s0, s1, w as nat, h as nat, lvl as nat);
                assert(p0@[lvl as int]@ == l0.0);
                lemma_search_radius_limit((k + 1) as nat);
                lemma_search_radius_grows(k as nat, (k + 1) as nat);
            }
            let mut tb0: Vec<bool> = Vec::new();
            let mut eb0: Vec<bool> = Vec::new();
            let mut tb1: Vec<bool> = Vec::new();
            let mut eb1: Vec<bool> = Vec::new();
            plane_bitmaps(&p0[lvl], range, &mut tb0, &mut eb0);
            plane_bitmaps(&p1[lvl], range, &mut tb1, &mut eb1);
            let cx = 2 * sx;
            let cy = 2 * sy;
            let ghost c = (cx as int, cy as int);
            let mut bx = cx - 1;
            let mut by = cy - 1;
            let mut be = count_mismatches(&tb0, &eb0, &tb1, &eb1, lw, lh, bx, by);
            let mut j: usize = 1;
            while j < 9
                invariant
                    1 <= j <= 9,
                    -search_radius(k as nat) <= sx <= search_radius(k as nat),
                    -search_radius(k as nat) <= sy <= search_radius(k as nat),
                    search_radius((k + 1) as nat) == 2 * search_radius(k as nat) + 1,
                    search_radius((k + 1) as nat) <= 0x7fff_ffff,
                    cx == 2 * sx,
                    cy == 2 * sy,
                    c == (cx as int, cy as int),
                    lw == l0.1,
                    lh == l0.2,
                    tb0@ == threshold_bitmap(l0.0),
                    eb0@ == exclude_bitmap(l0.0, range as int),
                    tb1@ == threshold_bitmap(l1.0),
                    eb1@ == exclude_bitmap(l1.0, range as int),
                    tb0@.len() == lw * lh,
                    eb0@.len() == lw * lh,
                    tb1@.len() == lw * lh,
                    eb1@.len() == lw * lh,
                    (bx as int, by as int) == best_candidate(l0.0, l1.0, lw as int, lh as int, range as int, c, j as int),
                    be == level_error(l0.0, l1.0, lw as int, lh as int, range as int, (bx as int, by as int)),
                    cx - 1 <= bx <= cx + 1,
                    cy - 1 <= by <= cy + 1,
                decreases 9 - j,
            {
                let nx = cx + (j % 3) as i64 - 1;
                let ny = cy + (j / 3) as i64 - 1;
                let e = count_mismatches(&tb0, &eb0, &tb1, &eb1, lw, lh, nx, ny);
                let mb = abs_sum(bx, by);
                let mn = abs_sum(nx, ny);
                if e < be || (e == be && mn < mb) {
                    bx = nx;
                    by = ny;
                    be = e;
                }
                j = j + 1;
            }
            proof {
                lemma_best_candidate_near(l0.0, l1.0, lw as int, lh as int, range as int, c, 9);
            }
            sx = bx;
            sy = by;
            k = k + 1;
        }
        proof {
            lemma_search_radius_limit(levels as nat);
        }
        Ok(Shift { dx: sx as i32, dy: sy as i32 })
    }
}

} // verus!
