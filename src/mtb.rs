use vstd::prelude::*;

verus! {

/// How many elements of `s` equal `v`.
pub open spec fn count_eq(s: Seq<u8>, v: int) -> nat
    decreases s.len(),
{
    if s.len() == 0 {
        0
    } else {
        count_eq(s.drop_last(), v) + if s.last() == v { 1nat } else { 0nat }
    }
}

/// How many elements of `s` are at most `v`.
pub open spec fn count_le(s: Seq<u8>, v: int) -> nat
    decreases s.len(),
{
    if s.len() == 0 {
        0
    } else {
        count_le(s.drop_last(), v) + if s.last() <= v { 1nat } else { 0nat }
    }
}

/// The least level from `v` on, up to 255, at or below which more than half
/// of `s` lies.
pub open spec fn median_from(s: Seq<u8>, v: int) -> int
    decreases 255 - v,
{
    if v >= 255 || 2 * count_le(s, v) > s.len() {
        v
    } else {
        median_from(s, v + 1)
    }
}

/// The median of a plane: the least level at or below which more than half of
/// its pixels lie (255 for an empty plane).
pub open spec fn median(s: Seq<u8>) -> int {
    median_from(s, 0)
}

/// Pixels brighter than the median.
pub open spec fn threshold_bitmap(s: Seq<u8>) -> Seq<bool> {
    Seq::new(s.len(), |i: int| s[i] > median(s))
}

/// Pixels farther than `range` from the median; the others are too close to it
/// for their threshold bit to be trusted.
pub open spec fn exclude_bitmap(s: Seq<u8>, range: int) -> Seq<bool> {
    Seq::new(s.len(), |i: int| s[i] < median(s) - range || s[i] > median(s) + range)
}

pub proof fn lemma_count_eq_bound(s: Seq<u8>, v: int)
    ensures
        count_eq(s, v) <= s.len(),
    decreases s.len(),
{
    if s.len() > 0 {
        lemma_count_eq_bound(s.drop_last(), v);
    }
}

pub proof fn lemma_count_le_step(s: Seq<u8>, v: int)
    ensures
        count_le(s, v) == count_le(s, v - 1) + count_eq(s, v),
    decreases s.len(),
{
    if s.len() > 0 {
        lemma_count_le_step(s.drop_last(), v);
    }
}

pub proof fn lemma_count_le_below(s: Seq<u8>)
    ensures
        count_le(s, -1) == 0,
    decreases s.len(),
{
    if s.len() > 0 {
        lemma_count_le_below(s.drop_last());
    }
}

/// The median of a plane, found through its histogram.
pub fn median_of(s: &Vec<u8>) -> (m: u8)
    ensures
        m == median(s@),
{
    let n = s.len();
    let mut hist: Vec<usize> = vec![0usize; 256];
    let mut i: usize = 0;
    while i < n
        invariant
            n == s@.len(),
            i <= n,
            hist@.len() == 256,
            forall|u: int| 0 <= u < 256 ==> hist@[u] == count_eq(#[trigger] s@.take(i as int), u),
        decreases n - i,
    {
        let v = s[i] as usize;
        proof {
            assert(s@.take(i + 1).drop_last() == s@.take(i as int));
            lemma_count_eq_bound(s@.take(i as int), v as int);
        }
        let old_count = hist[v];
        hist.set(v, old_count + 1);
        i = i + 1;
    }
    proof {
        assert(s@.take(n as int) == s@);
    }
    let mut v: usize = 0;
    let mut cum: usize = hist[0];
    proof {
        lemma_count_le_step(s@, 0);
        lemma_count_le_below(s@);
    }
    while v < 255 && cum <= n / 2
        invariant
            n == s@.len(),
            v <= 255,
            hist@.len() == 256,
            forall|u: int| 0 <= u < 256 ==> hist@[u] == count_eq(s@, u),
            cum == count_le(s@, v as int),
            median(s@) == median_from(s@, v as int),
        decreases 255 - v,
    {
        proof {
            lemma_count_le_step(s@, v + 1);
            assert(count_le(s@, v + 1) <= n) by {
                lemma_count_le_total(s@, v + 1);
            }
        }
        v = v + 1;
        cum = cum + hist[v];
    }
    v as u8
}

pub proof fn lemma_count_le_total(s: Seq<u8>, v: int)
    ensures
        count_le(s, v) <= s.len(),
    decreases s.len(),
{
    if s.len() > 0 {
        lemma_count_le_total(s.drop_last(), v);
    }
}

/// The threshold and exclusion bitmaps of a luminance plane, written into
/// `tb` and `eb`.
pub fn plane_bitmaps(s: &Vec<u8>, range: u32, tb: &mut Vec<bool>, eb: &mut Vec<bool>)
    ensures
        final(tb)@ == threshold_bitmap(s@),
        final(eb)@ == exclude_bitmap(s@, range as int),
{
    let m = median_of(s) as i64;
    let r = range as i64;
    let n = s.len();
    let mut t: Vec<bool> = Vec::with_capacity(n);
    let mut e: Vec<bool> = Vec::with_capacity(n);
    let mut i: usize = 0;
    while i < n
        invariant
            n == s@.len(),
            m == median(s@),
            0 <= m <= 255,
            r == range,
            i <= n,
            t@.len() == i,
            e@.len() == i,
            forall|j: int| 0 <= j < i ==> t@[j] == (s@[j] > median(s@)),
            forall|j: int| 0 <= j < i ==> e@[j] == (s@[j] < median(s@) - range || s@[j] > median(s@) + range),
        decreases n - i,
    {
        let g = s[i] as i64;
        t.push(g > m);
        e.push(g < m - r || g > m + r);
        i = i + 1;
    }
    proof {
        assert(t@ =~= threshold_bitmap(s@));
        assert(e@ =~= exclude_bitmap(s@, range as int));
    }
    *tb = t;
    *eb = e;
}

} // verus!
