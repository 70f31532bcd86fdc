use vstd::prelude::*;
use crate::arith::{lemma_index_in_grid, lemma_split_index};

verus! {

/// Pixel `i` of the half-size plane: the floor of the mean of the two by two
/// block of `s` (a plane of width `w`) that it covers.
pub open spec fn half_value(s: Seq<u8>, w: int, i: int) -> u8 {
    let x = 2 * (i % (w / 2));
    let y = 2 * (i / (w / 2));
    ((s[y * w + x] + s[y * w + x + 1] + s[(y + 1) * w + x] + s[(y + 1) * w + x + 1]) / 4) as u8
}

/// A `w` by `h` plane shrunk to `w / 2` by `h / 2`, each pixel the mean of a
/// two by two block; an odd last row or column is dropped.
pub open spec fn half_plane(s: Seq<u8>, w: int, h: int) -> Seq<u8> {
    Seq::new(((w / 2) * (h / 2)) as nat, |i: int| half_value(s, w, i))
}

/// Level `k` of the pyramid over a `w` by `h` plane: the plane halved `k`
/// times, with its width and height.
pub open spec fn pyramid_level(s: Seq<u8>, w: nat, h: nat, k: nat) -> (Seq<u8>, nat, nat)
    decreases k,
{
    if k == 0 {
        (s, w, h)
    } else {
        let below = pyramid_level(s, w, h, (k - 1) as nat);
        (half_plane(below.0, below.1 as int, below.2 as int), below.1 / 2, below.2 / 2)
    }
}

/// Every level holds one pixel per position of its own size.
pub proof fn lemma_pyramid_level_len(s: Seq<u8>, w: nat, h: nat, k: nat)
    requires
        s.len() == w * h,
    ensures
        pyramid_level(s, w, h, k).0.len() == pyramid_level(s, w, h, k).1 * pyramid_level(s, w, h, k).2,
    decreases k,
{
    if k > 0 {
        lemma_pyramid_level_len(s, w, h, (k - 1) as nat);
    }
}

/// The size of a level depends on the size of the base alone.
pub proof fn lemma_pyramid_level_dims(s: Seq<u8>, t: Seq<u8>, w: nat, h: nat, k: nat)
    ensures
        pyramid_level(s, w, h, k).1 == pyramid_level(t, w, h, k).1,
        pyramid_level(s, w, h, k).2 == pyramid_level(t, w, h, k).2,
        pyramid_level(s, w, h, k).1 <= w,
        pyramid_level(s, w, h, k).2 <= h,
    decreases k,
{
    if k > 0 {
        lemma_pyramid_level_dims(s, t, w, h, (k - 1) as nat);
    }
}

/// The half-size plane of a `w` by `h` plane.
pub fn half(s: &Vec<u8>, w: usize, h: usize) -> (r: Vec<u8>)
    requires
        s@.len() == w * h,
    ensures
        r@ == half_plane(s@, w as int, h as int),
{
    let w2 = w / 2;
    let h2 = h / 2;
    let len = s.len();
    proof {
        assert(w2 * h2 <= w * h) by (nonlinear_arith)
            requires w2 == w / 2, h2 == h / 2, w >= 0, h >= 0;
    }
    let n = w2 * h2;
    let mut out: Vec<u8> = Vec::with_capacity(n);
    let mut i: usize = 0;
    while i < n
        invariant
            s@.len() == w * h,
            len == s@.len(),
            w2 == w / 2,
            h2 == h / 2,
            n == w2 * h2,
            i <= n,
            out@.len() == i,
            forall|j: int| 0 <= j < i ==> out@[j] == half_value(s@, w as int, j),
        decreases n - i,
    {
        proof {
            assert(w2 > 0) by (nonlinear_arith)
                requires i < w2 * h2, w2 >= 0, h2 >= 0, i >= 0;
            lemma_split_index(i as int, w2 as int, h2 as int);
        }
        let x = 2 * (i % w2);
        let y = 2 * (i / w2);
        proof {
            lemma_index_in_grid(x + 1, y + 1, w as int, h as int);
            assert(y * w + x + 1 < (y + 1) * w + x + 1) by (nonlinear_arith)
                requires x + 1 < w;
        }
        let a = s[y * w + x] as u32;
        let b = s[y * w + x + 1] as u32;
        let c = s[(y + 1) * w + x] as u32;
        let d = s[(y + 1) * w + x + 1] as u32;
        out.push(((a + b + c + d) / 4) as u8);
        i = i + 1;
    }
    proof {
        assert(out@ =~= half_plane(s@, w as int, h as int));
    }
    out
}

} // verus!
