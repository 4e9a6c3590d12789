//! Decision stage of the broadcast-FM detector: from per-channel scores on
//! the ITU raster to one channel per occupancy blob, spaced apart.
//!
//! Scores are exact fixed-point images of the measured statistics:
//! `snr_q` is SNR in dB times 2^21 and `occupancy_q` the occupied fraction
//! times 2^25, so comparisons and the valley test are integer arithmetic.

use vstd::prelude::*;

verus! {

/// Scale of `snr_q`: one dB is 2^21 units.
pub const SNR_SCALE: i64 = 2_097_152;

/// Scale of `occupancy_q`: a fully occupied test cell is 2^25 units.
pub const OCCUPANCY_SCALE: i64 = 33_554_432;

/// A blob is split only at a valley at least this far (6 dB) below the
/// weaker of the two peaks around it.
pub const VALLEY_Q: i64 = 12_582_912;

/// One WBFM occupancy is ~180 kHz, so 200 kHz raster twins are the same station.
pub const MIN_SEP_KHZ: u32 = 250;

pub const MAX_CHANNELS: usize = 50;

/// Detector statistics of one raster channel.
#[derive(Debug, Clone, Copy, PartialEq, Eq, Structural)]
pub struct ChannelScore {
    pub frequency_khz: u32,
    /// Radiometer SNR, dB · 2^21.
    pub snr_q: i64,
    /// Fraction of occupied bins, · 2^25.
    pub occupancy_q: i64,
    /// Passed the SNR, occupancy and bandwidth thresholds.
    pub eligible: bool,
}

/// `a` ranks below `b`: lower SNR, or equal SNR and lower occupancy.
pub open spec fn quality_lt(a: ChannelScore, b: ChannelScore) -> bool {
    a.snr_q < b.snr_q || (a.snr_q == b.snr_q && a.occupancy_q < b.occupancy_q)
}

/// SNR decides the ranking; occupancy only breaks SNR ties.
pub proof fn lemma_quality_snr_first(a: ChannelScore, b: ChannelScore)
    ensures
        a.snr_q < b.snr_q ==> quality_lt(a, b) && !quality_lt(b, a),
        a.snr_q == b.snr_q ==> (quality_lt(a, b) <==> a.occupancy_q < b.occupancy_q),
{
}

pub fn quality_less(a: &ChannelScore, b: &ChannelScore) -> (r: bool)
    ensures
        r == quality_lt(*a, *b),
        a.snr_q < b.snr_q ==> r,
        b.snr_q < a.snr_q ==> !r,
        a.snr_q == b.snr_q ==> (r <==> a.occupancy_q < b.occupancy_q),
{
    a.snr_q < b.snr_q || (a.snr_q == b.snr_q && a.occupancy_q < b.occupancy_q)
}

/// `r` is the last channel of best quality in `[lo, hi)`.
pub open spec fn is_last_best(s: Seq<ChannelScore>, lo: int, hi: int, r: int) -> bool {
    &&& lo <= r < hi
    &&& forall|j: int| lo <= j < hi ==> !quality_lt(s[r], #[trigger] s[j])
    &&& forall|j: int| r < j < hi ==> quality_lt(#[trigger] s[j], s[r])
}

/// The index of the best channel in `[start, end)`; on ties the last one.
pub fn argmax_quality(stats: &Vec<ChannelScore>, start: usize, end: usize) -> (r: Option<usize>)
    requires
        end <= stats.len(),
    ensures
        match r {
            Some(i) => is_last_best(stats@, start as int, end as int, i as int),
            None => start >= end,
        },
        r matches Some(i) ==> forall|j: int|
            start <= j < end ==> (#[trigger] stats@[j]).snr_q <= stats@[i as int].snr_q,
{
    if start >= end {
        return None;
    }
    let mut best = start;
    let mut i = start + 1;
    while i < end
        invariant
            end <= stats.len(),
            start < i <= end,
            is_last_best(stats@, start as int, i as int, best as int),
        decreases end - i,
    {
        if !quality_less(&stats[i], &stats[best]) {
            best = i;
        }
        i = i + 1;
    }
    Some(best)
}


/// Channel `i` of the blob `[start, end)` is a local SNR maximum: no lower
/// than either neighbour inside the blob.
pub open spec fn is_local_max(s: Seq<ChannelScore>, start: int, end: int, i: int) -> bool {
    &&& (i == start || s[i - 1].snr_q <= s[i].snr_q)
    &&& (i + 1 == end || s[i + 1].snr_q <= s[i].snr_q)
}

/// The local maxima of `[start, end)` among its first channels up to `k`, in order.
pub open spec fn local_maxima_upto(s: Seq<ChannelScore>, start: int, end: int, k: int) -> Seq<
    usize,
>
    decreases k - start,
{
    if k <= start {
        Seq::empty()
    } else {
        local_maxima_upto(s, start, end, k - 1) + if is_local_max(s, start, end, k - 1) {
            seq![(k - 1) as usize]
        } else {
            Seq::empty()
        }
    }
}

pub open spec fn local_maxima(s: Seq<ChannelScore>, start: int, end: int) -> Seq<usize> {
    local_maxima_upto(s, start, end, end)
}

/// `r` is the first channel of lowest SNR in `[lo, hi]`.
pub open spec fn is_first_min(s: Seq<ChannelScore>, lo: int, hi: int, r: int) -> bool {
    &&& lo <= r <= hi
    &&& forall|j: int| lo <= j <= hi ==> s[r].snr_q <= (#[trigger] s[j]).snr_q
    &&& forall|j: int| lo <= j < r ==> s[r].snr_q < (#[trigger] s[j]).snr_q
}

pub open spec fn first_min(s: Seq<ChannelScore>, lo: int, hi: int) -> int {
    choose|r: int| #[trigger] is_first_min(s, lo, hi, r)
}

proof fn lemma_first_min_unique(s: Seq<ChannelScore>, lo: int, hi: int, r: int)
    requires
        is_first_min(s, lo, hi, r),
    ensures
        first_min(s, lo, hi) == r,
{
    let q = first_min(s, lo, hi);
    assert(is_first_min(s, lo, hi, q));
    if q < r {
        assert(s[r].snr_q <= s[q].snr_q);
        assert(s[r].snr_q < s[q].snr_q);
    } else if r < q {
        assert(s[q].snr_q <= s[r].snr_q);
        assert(s[q].snr_q < s[r].snr_q);
    }
}

/// Splitting state after examining the first `k` pairs of neighbouring
/// maxima: the segments closed so far and where the open one starts.
pub open spec fn valley_fold(
    s: Seq<ChannelScore>,
    start: int,
    end: int,
    maxima: Seq<usize>,
    k: int,
) -> (Seq<(usize, usize)>, int)
    decreases k,
{
    if k <= 0 {
        (Seq::empty(), start)
    } else {
        let (segs, seg_start) = valley_fold(s, start, end, maxima, k - 1);
        let left = maxima[k - 1] as int;
        let right = maxima[k] as int;
        let valley = first_min(s, left, right);
        let weaker = if s[left].snr_q <= s[right].snr_q {
            s[left].snr_q
        } else {
            s[right].snr_q
        };
        if weaker - s[valley].snr_q >= VALLEY_Q && valley > seg_start && valley + 1 < end {
            (segs.push((seg_start as usize, valley as usize)), valley + 1)
        } else {
            (segs, seg_start)
        }
    }
}

/// The sub-blobs of `[start, end)`: cut at every valley between neighbouring
/// maxima that lies at least 6 dB below the weaker of the two (the valley
/// channel itself belongs to neither side).
pub open spec fn split_valleys_spec(s: Seq<ChannelScore>, start: int, end: int) -> Seq<
    (usize, usize),
> {
    let maxima = local_maxima(s, start, end);
    if end <= start + 2 || maxima.len() <= 1 {
        seq![(start as usize, end as usize)]
    } else {
        let (segs, seg_start) = valley_fold(s, start, end, maxima, maxima.len() - 1);
        let closed = if seg_start < end {
            segs.push((seg_start as usize, end as usize))
        } else {
            segs
        };
        if closed.len() == 0 {
            seq![(start as usize, end as usize)]
        } else {
            closed
        }
    }
}

fn local_maxima_of(stats: &Vec<ChannelScore>, start: usize, end: usize) -> (m: Vec<usize>)
    requires
        start < end <= stats.len(),
    ensures
        m@ == local_maxima(stats@, start as int, end as int),
        forall|j: int| 0 <= j < m.len() ==> start <= #[trigger] m@[j] < end,
        forall|j: int, k: int| 0 <= j < k < m.len() ==> m@[j] < m@[k],
        forall|j: int|
            0 <= j < m.len() ==> is_local_max(stats@, start as int, end as int, #[trigger] m@[j] as int),
{
    let mut m: Vec<usize> = Vec::new();
    let mut i = start;
    while i < end
        invariant
            start <= i <= end <= stats.len(),
            m@ == local_maxima_upto(stats@, start as int, end as int, i as int),
            forall|j: int| 0 <= j < m.len() ==> start <= #[trigger] m@[j] < i,
            forall|j: int, k: int| 0 <= j < k < m.len() ==> m@[j] < m@[k],
            forall|j: int|
                0 <= j < m.len() ==> is_local_max(
                    stats@,
                    start as int,
                    end as int,
                    #[trigger] m@[j] as int,
                ),
        decreases end - i,
    {
        let left_ok = i == start || stats[i - 1].snr_q <= stats[i].snr_q;
        let right_ok = i + 1 == end || stats[i + 1].snr_q <= stats[i].snr_q;
        if left_ok && right_ok {
            m.push(i);
        }
        i = i + 1;
    }
    m
}

fn first_min_index(stats: &Vec<ChannelScore>, lo: usize, hi: usize) -> (r: usize)
    requires
        lo <= hi < stats.len(),
    ensures
        is_first_min(stats@, lo as int, hi as int, r as int),
        r as int == first_min(stats@, lo as int, hi as int),
{
    let mut best = lo;
    let mut i = lo + 1;
    while i <= hi
        invariant
            lo < i <= hi + 1,
            hi < stats.len(),
            is_first_min(stats@, lo as int, i - 1, best as int),
        decreases hi + 1 - i,
    {
        if stats[i].snr_q < stats[best].snr_q {
            best = i;
        }
        i = i + 1;
    }
    proof {
        lemma_first_min_unique(stats@, lo as int, hi as int, best as int);
    }
    best
}

/// Channel `v` lies between the local maxima `a` and `b` of the blob
/// `[start, end)`, is no higher than any channel from `a` to `b`, and is at
/// least 6 dB below both of them.
pub open spec fn deep_valley_between(
    s: Seq<ChannelScore>,
    start: int,
    end: int,
    a: int,
    v: int,
    b: int,
) -> bool {
    &&& start <= a < v < b < end
    &&& is_local_max(s, start, end, a)
    &&& is_local_max(s, start, end, b)
    &&& forall|j: int| a <= j <= b ==> s[v].snr_q <= (#[trigger] s[j]).snr_q
    &&& s[a].snr_q - s[v].snr_q >= VALLEY_Q
    &&& s[b].snr_q - s[v].snr_q >= VALLEY_Q
}

/// Channel `v` is a valley at least 6 dB below the weaker of two local
/// maxima around it.
pub open spec fn is_deep_valley(s: Seq<ChannelScore>, start: int, end: int, v: int) -> bool {
    exists|a: int, b: int| #[trigger] deep_valley_between(s, start, end, a, v, b)
}

/// A blob with exactly two local maxima is cut at the lowest channel
/// between them when that channel lies at least 6 dB below both maxima and
/// is not the blob's last channel.
pub proof fn lemma_split_two_peaks(s: Seq<ChannelScore>, start: int, end: int, a: int, v: int, b: int)
    requires
        0 <= start,
        end <= s.len(),
        end <= usize::MAX,
        local_maxima(s, start, end) == seq![a as usize, b as usize],
        deep_valley_between(s, start, end, a, v, b),
        forall|j: int| a <= j < v ==> s[v].snr_q < (#[trigger] s[j]).snr_q,
        v + 1 < end,
    ensures
        split_valleys_spec(s, start, end) == seq![(start as usize, v as usize), (
            (v + 1) as usize,
            end as usize,
        )],
{
    let maxima = local_maxima(s, start, end);
    assert(maxima[0] as int == a && maxima[1] as int == b);
    assert(is_first_min(s, a, b, v));
    lemma_first_min_unique(s, a, b, v);
    assert(valley_fold(s, start, end, maxima, 0) == (Seq::<(usize, usize)>::empty(), start));
    let weaker = if s[a].snr_q <= s[b].snr_q {
        s[a].snr_q
    } else {
        s[b].snr_q
    };
    assert(weaker - s[v].snr_q >= VALLEY_Q);
    assert(valley_fold(s, start, end, maxima, 1) == (
        seq![(start as usize, v as usize)],
        v + 1,
    )) by {
        assert(Seq::<(usize, usize)>::empty().push((start as usize, v as usize)) =~= seq![
            (start as usize, v as usize),
        ]);
    }
    assert(seq![(start as usize, v as usize)].push(((v + 1) as usize, end as usize)) =~= seq![
        (start as usize, v as usize),
        ((v + 1) as usize, end as usize),
    ]);
}

/// Split the eligible blob `[start, end)` at deep SNR valleys.
pub fn split_valleys(stats: &Vec<ChannelScore>, start: usize, end: usize) -> (r: Vec<
    (usize, usize),
>)
    requires
        start < end <= stats.len(),
    ensures
        r@ == split_valleys_spec(stats@, start as int, end as int),
        r.len() >= 1,
        forall|j: int|
            0 <= j < r.len() ==> start <= (#[trigger] r@[j]).0 < r@[j].1 <= end,
        forall|j: int, l: int| 0 <= j < l < r.len() ==> r@[j].1 < r@[l].0,
        r@[0].0 == start,
        r@[r.len() - 1].1 == end,
        forall|j: int|
            0 <= j < r.len() - 1 ==> r@[j + 1].0 == (#[trigger] r@[j]).1 + 1 && is_deep_valley(
                stats@,
                start as int,
                end as int,
                r@[j].1 as int,
            ),
{
    if end - start <= 2 {
        return vec![(start, end)];
    }
    let maxima = local_maxima_of(stats, start, end);
    if maxima.len() <= 1 {
        let r = vec![(start, end)];
        assert(r@ =~= seq![(start, end)]);
        return r;
    }
    let mut segments: Vec<(usize, usize)> = Vec::new();
    let mut seg_start = start;
    let mut k: usize = 1;
    while k < maxima.len()
        invariant
            start < end <= stats.len(),
            maxima@ == local_maxima(stats@, start as int, end as int),
            forall|j: int| 0 <= j < maxima.len() ==> start <= #[trigger] maxima@[j] < end,
            forall|j: int, l: int| 0 <= j < l < maxima.len() ==> maxima@[j] < maxima@[l],
            1 <= k <= maxima.len(),
            (segments@, seg_start as int) == valley_fold(
                stats@,
                start as int,
                end as int,
                maxima@,
                k - 1,
            ),
            start <= seg_start < end,
            forall|j: int|
                0 <= j < segments.len() ==> start <= (#[trigger] segments@[j]).0
                    < segments@[j].1 < seg_start,
            forall|j: int, l: int|
                0 <= j < l < segments.len() ==> segments@[j].1 < segments@[l].0,
            forall|j: int|
                0 <= j < maxima.len() ==> is_local_max(
                    stats@,
                    start as int,
                    end as int,
                    #[trigger] maxima@[j] as int,
                ),
            segments.len() == 0 ==> seg_start == start,
            segments.len() > 0 ==> segments@[0].0 == start && seg_start == segments@[segments.len()
                - 1].1 + 1,
            forall|j: int|
                0 <= j < segments.len() - 1 ==> segments@[j + 1].0 == (#[trigger] segments@[j]).1
                    + 1,
            forall|j: int|
                0 <= j < segments.len() ==> is_deep_valley(
                    stats@,
                    start as int,
                    end as int,
                    (#[trigger] segments@[j]).1 as int,
                ),
        decreases maxima.len() - k,
    {
        let left_peak = maxima[k - 1];
        let right_peak = maxima[k];
        let valley = first_min_index(stats, left_peak, right_peak);
        let weaker = if stats[left_peak].snr_q <= stats[right_peak].snr_q {
            stats[left_peak].snr_q
        } else {
            stats[right_peak].snr_q
        };
        let depth = (weaker as i128) - (stats[valley].snr_q as i128);
        if depth >= VALLEY_Q as i128 && valley > seg_start && valley + 1 < end {
            proof {
                assert(is_local_max(stats@, start as int, end as int, maxima@[k - 1] as int));
                assert(is_local_max(stats@, start as int, end as int, maxima@[k as int] as int));
                assert(deep_valley_between(
                    stats@,
                    start as int,
                    end as int,
                    left_peak as int,
                    valley as int,
                    right_peak as int,
                ));
            }
            segments.push((seg_start, valley));
            seg_start = valley + 1;
        }
        k = k + 1;
    }
    if seg_start < end {
        segments.push((seg_start, end));
    }
    if segments.len() == 0 {
        let r = vec![(start, end)];
        assert(r@ =~= seq![(start, end)]);
        r
    } else {
        segments
    }
}

/// End of the run of eligible channels that starts at `i`.
pub open spec fn run_end(s: Seq<ChannelScore>, i: int) -> int
    decreases s.len() - i,
{
    if 0 <= i < s.len() && s[i].eligible {
        run_end(s, i + 1)
    } else {
        i
    }
}

pub proof fn lemma_run_end(s: Seq<ChannelScore>, i: int)
    requires
        0 <= i <= s.len(),
    ensures
        i <= run_end(s, i) <= s.len(),
        forall|j: int| i <= j < run_end(s, i) ==> (#[trigger] s[j]).eligible,
        run_end(s, i) < s.len() ==> !s[run_end(s, i)].eligible,
        i < s.len() && s[i].eligible ==> run_end(s, i) > i,
    decreases s.len() - i,
{
    if i < s.len() && s[i].eligible {
        lemma_run_end(s, i + 1);
    }
}

/// The best channel of a segment, if it is non-empty.
pub open spec fn segment_peak(s: Seq<ChannelScore>, seg: (usize, usize)) -> Seq<ChannelScore> {
    if seg.0 < seg.1 {
        seq![s[choose|r: int| #[trigger] is_last_best(s, seg.0 as int, seg.1 as int, r)]]
    } else {
        Seq::empty()
    }
}

pub open spec fn segment_peaks(s: Seq<ChannelScore>, segs: Seq<(usize, usize)>) -> Seq<
    ChannelScore,
>
    decreases segs.len(),
{
    if segs.len() == 0 {
        Seq::empty()
    } else {
        segment_peaks(s, segs.drop_last()) + segment_peak(s, segs.last())
    }
}

/// The peaks of every blob at or after channel `i`: each maximal run of
/// eligible channels is split at its valleys, and each part gives its best
/// channel.
pub open spec fn blob_peaks(s: Seq<ChannelScore>, i: int) -> Seq<ChannelScore>
    decreases s.len() - i,
{
    if i < 0 || i >= s.len() {
        Seq::empty()
    } else if !s[i].eligible {
        blob_peaks(s, i + 1)
    } else {
        let e = run_end(s, i);
        proof {
            lemma_run_end(s, i);
        }
        segment_peaks(s, split_valleys_spec(s, i, e)) + blob_peaks(s, e)
    }
}

proof fn lemma_last_best_unique(s: Seq<ChannelScore>, lo: int, hi: int, r: int)
    requires
        is_last_best(s, lo, hi, r),
    ensures
        (choose|q: int| #[trigger] is_last_best(s, lo, hi, q)) == r,
{
    let q = choose|q: int| #[trigger] is_last_best(s, lo, hi, q);
    assert(is_last_best(s, lo, hi, q));
    if q < r {
        assert(quality_lt(s[r], s[q]));
        assert(!quality_lt(s[q], s[r]));
    } else if r < q {
        assert(quality_lt(s[q], s[r]));
        assert(!quality_lt(s[r], s[q]));
    }
}

/// Keep the highest-quality channel of each occupancy blob.
pub fn best_per_blob(stats: &Vec<ChannelScore>) -> (peaks: Vec<ChannelScore>)
    ensures
        peaks@ == blob_peaks(stats@, 0),
{
    let n = stats.len();
    let mut peaks: Vec<ChannelScore> = Vec::new();
    let mut i: usize = 0;
    while i < n
        invariant
            n == stats.len(),
            i <= n,
            blob_peaks(stats@, 0) == peaks@ + blob_peaks(stats@, i as int),
        decreases n - i,
    {
        if !stats[i].eligible {
            assert(blob_peaks(stats@, i as int) == blob_peaks(stats@, i + 1));
            i = i + 1;
            continue;
        }
        let start = i;
        proof {
            lemma_run_end(stats@, start as int);
        }
        while i < n && stats[i].eligible
            invariant
                n == stats.len(),
                start <= i <= n,
                start < n,
                stats@[start as int].eligible,
                run_end(stats@, start as int) == run_end(stats@, i as int),
            decreases n - i,
        {
            i = i + 1;
        }
        proof {
            lemma_run_end(stats@, i as int);
            lemma_run_end(stats@, start as int);
        }
        let ghost before = peaks@;
        let segments = split_valleys(stats, start, i);
        let mut k: usize = 0;
        while k < segments.len()
            invariant
                n == stats.len(),
                start < i <= n,
                forall|j: int|
                    0 <= j < segments.len() ==> start <= (#[trigger] segments@[j]).0
                        < segments@[j].1 <= i,
                k <= segments.len(),
                peaks@ == before + segment_peaks(stats@, segments@.subrange(0, k as int)),
            decreases segments.len() - k,
        {
            let (lo, hi) = segments[k];
            assert(segments@.subrange(0, k + 1).drop_last() =~= segments@.subrange(0, k as int));
            if let Some(best) = argmax_quality(stats, lo, hi) {
                proof {
                    lemma_last_best_unique(stats@, lo as int, hi as int, best as int);
                }
                peaks.push(stats[best]);
            }
            k = k + 1;
            assert(peaks@ =~= before + segment_peaks(stats@, segments@.subrange(0, k as int)));
        }
        assert(segments@.subrange(0, segments.len() as int) =~= segments@);
        assert(blob_peaks(stats@, start as int) == segment_peaks(
            stats@,
            split_valleys_spec(stats@, start as int, i as int),
        ) + blob_peaks(stats@, i as int));
        assert(peaks@ + blob_peaks(stats@, i as int) =~= before + blob_peaks(
            stats@,
            start as int,
        ));
    }
    assert(peaks@ =~= peaks@ + blob_peaks(stats@, n as int));
    peaks
}

/// Where a stable sort by descending quality puts `x` among `sorted`:
/// after every channel that is not worse than it.
pub open spec fn quality_slot(sorted: Seq<ChannelScore>, x: ChannelScore) -> int
    decreases sorted.len(),
{
    if sorted.len() == 0 || quality_lt(sorted[0], x) {
        0
    } else {
        1 + quality_slot(sorted.drop_first(), x)
    }
}

/// Stable sort by descending quality (insertion in arrival order).
pub open spec fn sort_by_quality(s: Seq<ChannelScore>) -> Seq<ChannelScore>
    decreases s.len(),
{
    if s.len() == 0 {
        Seq::empty()
    } else {
        let sorted = sort_by_quality(s.drop_last());
        sorted.insert(quality_slot(sorted, s.last()), s.last())
    }
}

/// Where a stable sort by ascending frequency puts `x` among `sorted`.
pub open spec fn frequency_slot(sorted: Seq<ChannelScore>, x: ChannelScore) -> int
    decreases sorted.len(),
{
    if sorted.len() == 0 || sorted[0].frequency_khz > x.frequency_khz {
        0
    } else {
        1 + frequency_slot(sorted.drop_first(), x)
    }
}

/// Stable sort by ascending frequency.
pub open spec fn sort_by_frequency(s: Seq<ChannelScore>) -> Seq<ChannelScore>
    decreases s.len(),
{
    if s.len() == 0 {
        Seq::empty()
    } else {
        let sorted = sort_by_frequency(s.drop_last());
        sorted.insert(frequency_slot(sorted, s.last()), s.last())
    }
}

proof fn lemma_quality_slot_bounds(sorted: Seq<ChannelScore>, x: ChannelScore)
    ensures
        0 <= quality_slot(sorted, x) <= sorted.len(),
        forall|j: int| 0 <= j < quality_slot(sorted, x) ==> !quality_lt(#[trigger] sorted[j], x),
        quality_slot(sorted, x) < sorted.len() ==> quality_lt(sorted[quality_slot(sorted, x)], x),
    decreases sorted.len(),
{
    if sorted.len() > 0 && !quality_lt(sorted[0], x) {
        lemma_quality_slot_bounds(sorted.drop_first(), x);
        assert forall|j: int| 0 <= j < quality_slot(sorted, x) implies !quality_lt(
            #[trigger] sorted[j],
            x,
        ) by {
            if j > 0 {
                assert(sorted[j] == sorted.drop_first()[j - 1]);
            }
        }
    }
}

proof fn lemma_frequency_slot_bounds(sorted: Seq<ChannelScore>, x: ChannelScore)
    ensures
        0 <= frequency_slot(sorted, x) <= sorted.len(),
        forall|j: int|
            0 <= j < frequency_slot(sorted, x) ==> (#[trigger] sorted[j]).frequency_khz
                <= x.frequency_khz,
        frequency_slot(sorted, x) < sorted.len() ==> sorted[frequency_slot(
            sorted,
            x,
        )].frequency_khz > x.frequency_khz,
    decreases sorted.len(),
{
    if sorted.len() > 0 && sorted[0].frequency_khz <= x.frequency_khz {
        lemma_frequency_slot_bounds(sorted.drop_first(), x);
        assert forall|j: int| 0 <= j < frequency_slot(sorted, x) implies (
        #[trigger] sorted[j]).frequency_khz <= x.frequency_khz by {
            if j > 0 {
                assert(sorted[j] == sorted.drop_first()[j - 1]);
            }
        }
    }
}

proof fn lemma_quality_slot_prefix(sorted: Seq<ChannelScore>, x: ChannelScore, j: int)
    requires
        0 <= j <= sorted.len(),
        forall|i: int| 0 <= i < j ==> !quality_lt(#[trigger] sorted[i], x),
        j == sorted.len() || quality_lt(sorted[j], x),
    ensures
        quality_slot(sorted, x) == j,
    decreases j,
{
    if j > 0 {
        assert(!quality_lt(sorted[0], x));
        assert forall|i: int| 0 <= i < j - 1 implies !quality_lt(
            #[trigger] sorted.drop_first()[i],
            x,
        ) by {
            assert(sorted.drop_first()[i] == sorted[i + 1]);
        }
        if j < sorted.len() {
            assert(sorted.drop_first()[j - 1] == sorted[j]);
        }
        lemma_quality_slot_prefix(sorted.drop_first(), x, j - 1);
    }
}

proof fn lemma_frequency_slot_prefix(sorted: Seq<ChannelScore>, x: ChannelScore, j: int)
    requires
        0 <= j <= sorted.len(),
        forall|i: int| 0 <= i < j ==> (#[trigger] sorted[i]).frequency_khz <= x.frequency_khz,
        j == sorted.len() || sorted[j].frequency_khz > x.frequency_khz,
    ensures
        frequency_slot(sorted, x) == j,
    decreases j,
{
    if j > 0 {
        assert forall|i: int| 0 <= i < j - 1 implies (
        #[trigger] sorted.drop_first()[i]).frequency_khz <= x.frequency_khz by {
            assert(sorted.drop_first()[i] == sorted[i + 1]);
        }
        if j < sorted.len() {
            assert(sorted.drop_first()[j - 1] == sorted[j]);
        }
        lemma_frequency_slot_prefix(sorted.drop_first(), x, j - 1);
    }
}

fn sort_quality_desc(v: &Vec<ChannelScore>) -> (r: Vec<ChannelScore>)
    ensures
        r@ == sort_by_quality(v@),
{
    let mut r: Vec<ChannelScore> = Vec::new();
    let mut i: usize = 0;
    while i < v.len()
        invariant
            i <= v.len(),
            r@ == sort_by_quality(v@.subrange(0, i as int)),
        decreases v.len() - i,
    {
        let x = v[i];
        let mut j: usize = 0;
        while j < r.len() && !quality_less(&r[j], &x)
            invariant
                j <= r.len(),
                forall|l: int| 0 <= l < j ==> !quality_lt(#[trigger] r@[l], x),
            decreases r.len() - j,
        {
            j = j + 1;
        }
        proof {
            lemma_quality_slot_prefix(r@, x, j as int);
            assert(v@.subrange(0, i + 1).drop_last() =~= v@.subrange(0, i as int));
            assert(v@.subrange(0, i + 1).last() == x);
        }
        r.insert(j, x);
        i = i + 1;
    }
    assert(v@.subrange(0, v.len() as int) =~= v@);
    r
}

fn sort_frequency_asc(v: &Vec<ChannelScore>) -> (r: Vec<ChannelScore>)
    ensures
        r@ == sort_by_frequency(v@),
{
    let mut r: Vec<ChannelScore> = Vec::new();
    let mut i: usize = 0;
    while i < v.len()
        invariant
            i <= v.len(),
            r@ == sort_by_frequency(v@.subrange(0, i as int)),
        decreases v.len() - i,
    {
        let x = v[i];
        let mut j: usize = 0;
        while j < r.len() && r[j].frequency_khz <= x.frequency_khz
            invariant
                j <= r.len(),
                forall|l: int| 0 <= l < j ==> (#[trigger] r@[l]).frequency_khz <= x.frequency_khz,
            decreases r.len() - j,
        {
            j = j + 1;
        }
        proof {
            lemma_frequency_slot_prefix(r@, x, j as int);
            assert(v@.subrange(0, i + 1).drop_last() =~= v@.subrange(0, i as int));
            assert(v@.subrange(0, i + 1).last() == x);
        }
        r.insert(j, x);
        i = i + 1;
    }
    assert(v@.subrange(0, v.len() as int) =~= v@);
    r
}

pub open spec fn khz_distance(a: u32, b: u32) -> int {
    if a >= b {
        a - b
    } else {
        b - a
    }
}

/// Some already selected channel is closer than `min_sep_khz` to `x`.
pub open spec fn too_close(selected: Seq<ChannelScore>, x: ChannelScore, min_sep_khz: u32) -> bool {
    exists|j: int|
        0 <= j < selected.len() && khz_distance(
            (#[trigger] selected[j]).frequency_khz,
            x.frequency_khz,
        ) < min_sep_khz
}

/// Greedy selection over the first `k` candidates (best first): a candidate
/// is kept unless it is too close to one already kept; selection stops once
/// it holds `max_peaks` channels (and at least one).
pub open spec fn greedy_select(
    ranked: Seq<ChannelScore>,
    k: int,
    min_sep_khz: u32,
    max_peaks: usize,
) -> Seq<ChannelScore>
    decreases k,
{
    if k <= 0 {
        Seq::empty()
    } else {
        let sel = greedy_select(ranked, k - 1, min_sep_khz, max_peaks);
        if sel.len() >= 1 && sel.len() >= max_peaks {
            sel
        } else if too_close(sel, ranked[k - 1], min_sep_khz) {
            sel
        } else {
            sel.push(ranked[k - 1])
        }
    }
}

pub open spec fn merge_spaced_spec(
    peaks: Seq<ChannelScore>,
    min_sep_khz: u32,
    max_peaks: usize,
) -> Seq<ChannelScore> {
    let ranked = sort_by_quality(peaks);
    sort_by_frequency(greedy_select(ranked, ranked.len() as int, min_sep_khz, max_peaks))
}

proof fn lemma_sort_by_quality_len(s: Seq<ChannelScore>)
    ensures
        sort_by_quality(s).len() == s.len(),
    decreases s.len(),
{
    if s.len() > 0 {
        lemma_sort_by_quality_len(s.drop_last());
        lemma_quality_slot_bounds(sort_by_quality(s.drop_last()), s.last());
    }
}

fn abs_diff_u32(a: u32, b: u32) -> (d: u32)
    ensures
        d == khz_distance(a, b),
{
    if a >= b {
        a - b
    } else {
        b - a
    }
}

/// Strongest first, drop any channel closer than `min_sep_khz` to one
/// already kept, keep at most `max_peaks`; result in frequency order.
pub fn merge_spaced(peaks: Vec<ChannelScore>, min_sep_khz: u32, max_peaks: usize) -> (r: Vec<
    ChannelScore,
>)
    ensures
        r@ == merge_spaced_spec(peaks@, min_sep_khz, max_peaks),
{
    let ranked = sort_quality_desc(&peaks);
    proof {
        lemma_sort_by_quality_len(peaks@);
    }
    let mut selected: Vec<ChannelScore> = Vec::new();
    let mut i: usize = 0;
    while i < ranked.len()
        invariant
            ranked@ == sort_by_quality(peaks@),
            i <= ranked.len(),
            selected@ == greedy_select(ranked@, i as int, min_sep_khz, max_peaks),
            !(selected.len() >= 1 && selected.len() >= max_peaks),
        decreases ranked.len() - i,
    {
        let peak = ranked[i];
        let mut close = false;
        let mut j: usize = 0;
        while j < selected.len()
            invariant
                j <= selected.len(),
                close == exists|l: int|
                    0 <= l < j && khz_distance(
                        (#[trigger] selected@[l]).frequency_khz,
                        peak.frequency_khz,
                    ) < min_sep_khz,
            decreases selected.len() - j,
        {
            if abs_diff_u32(selected[j].frequency_khz, peak.frequency_khz) < min_sep_khz {
                close = true;
            }
            j = j + 1;
        }
        assert(close == too_close(selected@, peak, min_sep_khz));
        if !close {
            selected.push(peak);
            if selected.len() >= max_peaks {
                proof {
                    let k = (i + 1) as int;
                    assert forall|m: int| k <= m <= ranked.len() implies greedy_select(
                        ranked@,
                        m,
                        min_sep_khz,
                        max_peaks,
                    ) == selected@ by {
                        lemma_greedy_stops(ranked@, k, m, min_sep_khz, max_peaks);
                    }
                }
                return sort_frequency_asc(&selected);
            }
        }
        i = i + 1;
    }
    sort_frequency_asc(&selected)
}

proof fn lemma_greedy_stops(
    ranked: Seq<ChannelScore>,
    k: int,
    m: int,
    min_sep_khz: u32,
    max_peaks: usize,
)
    requires
        0 <= k <= m,
        greedy_select(ranked, k, min_sep_khz, max_peaks).len() >= 1,
        greedy_select(ranked, k, min_sep_khz, max_peaks).len() >= max_peaks,
    ensures
        greedy_select(ranked, m, min_sep_khz, max_peaks) == greedy_select(
            ranked,
            k,
            min_sep_khz,
            max_peaks,
        ),
    decreases m - k,
{
    if m > k {
        lemma_greedy_stops(ranked, k, m - 1, min_sep_khz, max_peaks);
    }
}

/// Of two peaks closer than `min_sep_khz`, the merge keeps only the one
/// with the higher SNR, whichever order they come in.
pub proof fn lemma_merge_keeps_stronger(
    a: ChannelScore,
    b: ChannelScore,
    min_sep_khz: u32,
    max_peaks: usize,
)
    requires
        khz_distance(a.frequency_khz, b.frequency_khz) < min_sep_khz,
        b.snr_q < a.snr_q,
    ensures
        merge_spaced_spec(seq![a, b], min_sep_khz, max_peaks) == seq![a],
        merge_spaced_spec(seq![b, a], min_sep_khz, max_peaks) == seq![a],
{
    let e = Seq::<ChannelScore>::empty();
    assert(seq![a, b].drop_last() =~= seq![a]);
    assert(seq![b, a].drop_last() =~= seq![b]);
    assert(seq![a].drop_last() =~= e);
    assert(seq![b].drop_last() =~= e);
    assert(sort_by_quality(e) =~= e);
    assert(quality_slot(e, a) == 0 && quality_slot(e, b) == 0);
    assert(e.insert(0, a) =~= seq![a] && e.insert(0, b) =~= seq![b]);
    assert(sort_by_quality(seq![a]) =~= seq![a]);
    assert(sort_by_quality(seq![b]) =~= seq![b]);
    assert(quality_slot(seq![a].drop_first(), b) == 0);
    assert(quality_slot(seq![a], b) == 1);
    assert(quality_slot(seq![b], a) == 0);
    let ranked = seq![a, b];
    assert(sort_by_quality(seq![a, b]) =~= ranked);
    assert(sort_by_quality(seq![b, a]) =~= ranked);
    assert(greedy_select(ranked, 0, min_sep_khz, max_peaks) =~= e);
    assert(!too_close(e, a, min_sep_khz));
    assert(greedy_select(ranked, 1, min_sep_khz, max_peaks) =~= seq![a]);
    assert(too_close(seq![a], b, min_sep_khz)) by {
        assert(seq![a][0] == a);
    }
    assert(greedy_select(ranked, 2, min_sep_khz, max_peaks) =~= seq![a]);
    assert(sort_by_frequency(seq![a]) =~= seq![a]) by {
        assert(sort_by_frequency(e) =~= e);
    }
}

proof fn lemma_sort_by_quality_perm(s: Seq<ChannelScore>)
    ensures
        sort_by_quality(s).to_multiset() == s.to_multiset(),
        sort_by_quality(s).len() == s.len(),
        forall|i: int, j: int|
            0 <= i < j < sort_by_quality(s).len() ==> !quality_lt(
                #[trigger] sort_by_quality(s)[i],
                #[trigger] sort_by_quality(s)[j],
            ),
    decreases s.len(),
{
    broadcast use vstd::seq_lib::group_to_multiset_ensures;

    if s.len() > 0 {
        let t = s.drop_last();
        let x = s.last();
        lemma_sort_by_quality_perm(t);
        let sorted = sort_by_quality(t);
        let k = quality_slot(sorted, x);
        lemma_quality_slot_bounds(sorted, x);
        let r = sorted.insert(k, x);
        vstd::seq_lib::to_multiset_insert(sorted, k, x);
        assert(s =~= t.push(x));
        vstd::seq_lib::to_multiset_build(t, x);
        assert forall|i: int, j: int| 0 <= i < j < r.len() implies !quality_lt(
            #[trigger] r[i],
            #[trigger] r[j],
        ) by {
            if j < k {
                assert(r[i] == sorted[i] && r[j] == sorted[j]);
            } else if j == k {
                assert(r[i] == sorted[i]);
            } else if i < k {
                assert(r[i] == sorted[i] && r[j] == sorted[j - 1]);
                if k < j - 1 {
                    assert(!quality_lt(sorted[k], sorted[j - 1]));
                }
                assert(quality_lt(sorted[k], x));
            } else if i == k {
                assert(r[j] == sorted[j - 1]);
                if k < j - 1 {
                    assert(!quality_lt(sorted[k], sorted[j - 1]));
                }
                assert(quality_lt(sorted[k], x));
            } else {
                assert(r[i] == sorted[i - 1] && r[j] == sorted[j - 1]);
            }
        }
    }
}

proof fn lemma_sort_by_frequency_perm(s: Seq<ChannelScore>)
    ensures
        sort_by_frequency(s).to_multiset() == s.to_multiset(),
    decreases s.len(),
{
    broadcast use vstd::seq_lib::group_to_multiset_ensures;

    if s.len() > 0 {
        let t = s.drop_last();
        let x = s.last();
        lemma_sort_by_frequency_perm(t);
        let sorted = sort_by_frequency(t);
        let k = frequency_slot(sorted, x);
        lemma_frequency_slot_bounds(sorted, x);
        vstd::seq_lib::to_multiset_insert(sorted, k, x);
        assert(s =~= t.push(x));
        vstd::seq_lib::to_multiset_build(t, x);
    }
}

/// Greedy selection only grows: what is kept after `k` candidates is kept
/// after `m >= k`, and comes from the first `k` candidates.
proof fn lemma_greedy_grows(
    ranked: Seq<ChannelScore>,
    k: int,
    m: int,
    min_sep_khz: u32,
    max_peaks: usize,
)
    requires
        0 <= k <= m <= ranked.len(),
    ensures
        greedy_select(ranked, k, min_sep_khz, max_peaks).len() <= greedy_select(
            ranked,
            m,
            min_sep_khz,
            max_peaks,
        ).len(),
        forall|l: int|
            0 <= l < greedy_select(ranked, k, min_sep_khz, max_peaks).len() ==> greedy_select(
                ranked,
                m,
                min_sep_khz,
                max_peaks,
            )[l] == #[trigger] greedy_select(ranked, k, min_sep_khz, max_peaks)[l],
        forall|l: int|
            0 <= l < greedy_select(ranked, k, min_sep_khz, max_peaks).len() ==> exists|q: int|
                0 <= q < k && ranked[q] == #[trigger] greedy_select(
                    ranked,
                    k,
                    min_sep_khz,
                    max_peaks,
                )[l],
    decreases m - k, k,
{
    if k > 0 {
        lemma_greedy_grows(ranked, k - 1, k - 1, min_sep_khz, max_peaks);
        let prev = greedy_select(ranked, k - 1, min_sep_khz, max_peaks);
        let cur = greedy_select(ranked, k, min_sep_khz, max_peaks);
        assert forall|l: int| 0 <= l < cur.len() implies exists|q: int|
            0 <= q < k && ranked[q] == #[trigger] cur[l] by {
            if l < prev.len() {
                assert(cur[l] == prev[l]);
                let q = choose|q: int| 0 <= q < k - 1 && ranked[q] == prev[l];
                assert(ranked[q] == cur[l]);
            } else {
                assert(cur[l] == ranked[k - 1]);
            }
        }
    }
    if m > k {
        lemma_greedy_grows(ranked, k, m - 1, min_sep_khz, max_peaks);
        let mid = greedy_select(ranked, m - 1, min_sep_khz, max_peaks);
        let last = greedy_select(ranked, m, min_sep_khz, max_peaks);
        assert forall|l: int| 0 <= l < mid.len() implies last[l] == #[trigger] mid[l] by {}
    }
}

/// The spaced merge drops a peak only for a stronger one: unless the
/// `max_peaks` limit was reached, every input peak missing from the result
/// lies closer than `min_sep_khz` to a kept peak whose SNR is at least its own.
pub proof fn lemma_merge_drops_only_for_stronger(
    peaks: Seq<ChannelScore>,
    min_sep_khz: u32,
    max_peaks: usize,
    i: int,
)
    requires
        0 <= i < peaks.len(),
        !merge_spaced_spec(peaks, min_sep_khz, max_peaks).contains(peaks[i]),
        merge_spaced_spec(peaks, min_sep_khz, max_peaks).len() < max_peaks,
    ensures
        exists|j: int|
            0 <= j < merge_spaced_spec(peaks, min_sep_khz, max_peaks).len() && khz_distance(
                (#[trigger] merge_spaced_spec(peaks, min_sep_khz, max_peaks)[j]).frequency_khz,
                peaks[i].frequency_khz,
            ) < min_sep_khz && merge_spaced_spec(peaks, min_sep_khz, max_peaks)[j].snr_q
                >= peaks[i].snr_q,
{
    broadcast use vstd::seq_lib::group_to_multiset_ensures;

    let ranked = sort_by_quality(peaks);
    lemma_sort_by_quality_perm(peaks);
    let n = ranked.len() as int;
    let fin = greedy_select(ranked, n, min_sep_khz, max_peaks);
    let out = merge_spaced_spec(peaks, min_sep_khz, max_peaks);
    assert(out == sort_by_frequency(fin));
    lemma_sort_by_frequency_perm(fin);
    assert(out.len() == fin.len()) by {
        assert(out.to_multiset().len() == fin.to_multiset().len());
    }
    // the dropped peak's place among the ranked candidates
    assert(peaks.to_multiset().count(peaks[i]) > 0) by {
        assert(peaks.contains(peaks[i]));
    }
    assert(ranked.contains(peaks[i]));
    let m = choose|m: int| 0 <= m < ranked.len() && ranked[m] == peaks[i];
    let x = ranked[m];
    lemma_greedy_grows(ranked, m, m + 1, min_sep_khz, max_peaks);
    lemma_greedy_grows(ranked, m + 1, n, min_sep_khz, max_peaks);
    lemma_greedy_grows(ranked, m, n, min_sep_khz, max_peaks);
    let before = greedy_select(ranked, m, min_sep_khz, max_peaks);
    let after = greedy_select(ranked, m + 1, min_sep_khz, max_peaks);
    if !too_close(before, x, min_sep_khz) {
        assert(after == before.push(x));
        assert(after[before.len() as int] == x);
        assert(fin[before.len() as int] == x);
        assert(fin.contains(x));
        assert(out.to_multiset().count(x) > 0);
        assert(out.contains(x));
        assert(false);
    }
    let l = choose|l: int|
        0 <= l < before.len() && khz_distance(
            (#[trigger] before[l]).frequency_khz,
            x.frequency_khz,
        ) < min_sep_khz;
    let y = before[l];
    let q = choose|q: int| 0 <= q < m && ranked[q] == y;
    assert(!quality_lt(ranked[q], ranked[m]));
    assert(fin[l] == y);
    assert(fin.contains(y));
    assert(out.to_multiset().count(y) > 0);
    assert(out.contains(y));
    let j = choose|j: int| 0 <= j < out.len() && out[j] == y;
    assert(khz_distance(out[j].frequency_khz, peaks[i].frequency_khz) < min_sep_khz);
}

/// The channels reported for a vector of scores.
pub open spec fn select_channels_spec(stats: Seq<ChannelScore>) -> Seq<ChannelScore> {
    merge_spaced_spec(blob_peaks(stats, 0), MIN_SEP_KHZ, MAX_CHANNELS)
}

/// Detector decision: best channel per blob, then spaced merge.
pub fn select_channels(stats: &Vec<ChannelScore>) -> (r: Vec<ChannelScore>)
    ensures
        r@ == select_channels_spec(stats@),
{
    let peaks = best_per_blob(stats);
    merge_spaced(peaks, MIN_SEP_KHZ, MAX_CHANNELS)
}

proof fn lemma_last_best_exists(s: Seq<ChannelScore>, lo: int, hi: int)
    requires
        lo < hi,
    ensures
        exists|r: int| is_last_best(s, lo, hi, r),
    decreases hi - lo,
{
    if hi - lo == 1 {
        assert(is_last_best(s, lo, hi, lo));
    } else {
        lemma_last_best_exists(s, lo, hi - 1);
        let r = choose|r: int| #[trigger] is_last_best(s, lo, hi - 1, r);
        if quality_lt(s[hi - 1], s[r]) {
            assert(is_last_best(s, lo, hi, r));
        } else {
            assert(is_last_best(s, lo, hi, hi - 1));
        }
    }
}

proof fn lemma_first_min_exists(s: Seq<ChannelScore>, lo: int, hi: int)
    requires
        lo <= hi,
    ensures
        is_first_min(s, lo, hi, first_min(s, lo, hi)),
    decreases hi - lo,
{
    if hi == lo {
        assert(is_first_min(s, lo, hi, lo));
    } else {
        lemma_first_min_exists(s, lo, hi - 1);
        let r = first_min(s, lo, hi - 1);
        if s[hi].snr_q < s[r].snr_q {
            assert(is_first_min(s, lo, hi, hi));
        } else {
            assert(is_first_min(s, lo, hi, r));
        }
    }
}

proof fn lemma_local_maxima_bounds(s: Seq<ChannelScore>, start: int, end: int, k: int)
    requires
        0 <= start <= k <= usize::MAX,
    ensures
        forall|j: int|
            0 <= j < local_maxima_upto(s, start, end, k).len() ==> start <= #[trigger] local_maxima_upto(
                s,
                start,
                end,
                k,
            )[j] < k,
        forall|j: int, l: int|
            0 <= j < l < local_maxima_upto(s, start, end, k).len() ==> local_maxima_upto(
                s,
                start,
                end,
                k,
            )[j] < local_maxima_upto(s, start, end, k)[l],
    decreases k - start,
{
    if k > start {
        lemma_local_maxima_bounds(s, start, end, k - 1);
        let prev = local_maxima_upto(s, start, end, k - 1);
        let cur = local_maxima_upto(s, start, end, k);
        if is_local_max(s, start, end, k - 1) {
            assert(cur =~= prev.push((k - 1) as usize));
            assert forall|j: int| 0 <= j < cur.len() implies start <= #[trigger] cur[j] < k by {
                if j < prev.len() {
                    assert(cur[j] == prev[j]);
                }
            }
            assert forall|j: int, l: int| 0 <= j < l < cur.len() implies cur[j] < cur[l] by {
                assert(cur[j] == prev[j]);
                if l < prev.len() {
                    assert(cur[l] == prev[l]);
                }
            }
        } else {
            assert(cur =~= prev);
        }
    }
}

proof fn lemma_valley_fold_bounds(
    s: Seq<ChannelScore>,
    start: int,
    end: int,
    maxima: Seq<usize>,
    k: int,
)
    requires
        0 <= start < end,
        end <= usize::MAX,
        0 <= k < maxima.len(),
        forall|j: int| 0 <= j < maxima.len() ==> start <= #[trigger] maxima[j] < end,
        forall|j: int, l: int| 0 <= j < l < maxima.len() ==> maxima[j] < maxima[l],
    ensures
        ({
            let (segs, seg_start) = valley_fold(s, start, end, maxima, k);
            &&& start <= seg_start < end
            &&& forall|j: int|
                0 <= j < segs.len() ==> start <= (#[trigger] segs[j]).0 < segs[j].1 < seg_start
            &&& forall|j: int, l: int| 0 <= j < l < segs.len() ==> segs[j].1 < segs[l].0
        }),
    decreases k,
{
    if k > 0 {
        lemma_valley_fold_bounds(s, start, end, maxima, k - 1);
        let left = maxima[k - 1] as int;
        let right = maxima[k] as int;
        lemma_first_min_exists(s, left, right);
    }
}

/// The parts of a blob are non-empty, lie inside it, and come in order
/// without overlapping.
pub proof fn lemma_split_valleys_parts(s: Seq<ChannelScore>, start: int, end: int)
    requires
        0 <= start < end <= usize::MAX,
    ensures
        split_valleys_spec(s, start, end).len() >= 1,
        forall|j: int|
            0 <= j < split_valleys_spec(s, start, end).len() ==> start <= (
            #[trigger] split_valleys_spec(s, start, end)[j]).0 < split_valleys_spec(
                s,
                start,
                end,
            )[j].1 <= end,
        forall|j: int, l: int|
            0 <= j < l < split_valleys_spec(s, start, end).len() ==> split_valleys_spec(
                s,
                start,
                end,
            )[j].1 < split_valleys_spec(s, start, end)[l].0,
{
    let maxima = local_maxima(s, start, end);
    lemma_local_maxima_bounds(s, start, end, end);
    if !(end <= start + 2 || maxima.len() <= 1) {
        lemma_valley_fold_bounds(s, start, end, maxima, maxima.len() - 1);
    }
}

/// `x` is one of the channels `s[lo..hi]`.
pub open spec fn one_of(s: Seq<ChannelScore>, lo: int, hi: int, x: ChannelScore) -> bool {
    exists|r: int| lo <= r < hi && s[r] == x
}

proof fn lemma_segment_peaks_from(
    s: Seq<ChannelScore>,
    segs: Seq<(usize, usize)>,
    lo: int,
    hi: int,
)
    requires
        forall|j: int|
            0 <= j < segs.len() ==> lo <= (#[trigger] segs[j]).0 && segs[j].1 <= hi,
    ensures
        forall|j: int|
            0 <= j < segment_peaks(s, segs).len() ==> one_of(
                s,
                lo,
                hi,
                #[trigger] segment_peaks(s, segs)[j],
            ),
    decreases segs.len(),
{
    if segs.len() > 0 {
        let rest = segs.drop_last();
        assert forall|j: int| 0 <= j < rest.len() implies lo <= (#[trigger] rest[j]).0
            && rest[j].1 <= hi by {
            assert(rest[j] == segs[j]);
        }
        lemma_segment_peaks_from(s, rest, lo, hi);
        let seg = segs.last();
        let prev = segment_peaks(s, rest);
        let all = segment_peaks(s, segs);
        assert(all == prev + segment_peak(s, seg));
        if seg.0 < seg.1 {
            lemma_last_best_exists(s, seg.0 as int, seg.1 as int);
            let r = choose|r: int| #[trigger] is_last_best(s, seg.0 as int, seg.1 as int, r);
            assert forall|j: int| 0 <= j < all.len() implies one_of(s, lo, hi, #[trigger] all[j]) by {
                if j < prev.len() {
                    assert(all[j] == prev[j]);
                } else {
                    assert(all[j] == s[r]);
                }
            }
        } else {
            assert(all =~= prev);
            assert forall|j: int| 0 <= j < all.len() implies one_of(s, lo, hi, #[trigger] all[j]) by {
                assert(all[j] == prev[j]);
            }
        }
    }
}

/// Every blob peak is an eligible input channel.
proof fn lemma_blob_peaks_eligible(s: Seq<ChannelScore>, i: int)
    requires
        0 <= i,
        s.len() <= usize::MAX,
    ensures
        forall|j: int|
            0 <= j < blob_peaks(s, i).len() ==> one_of(s, i, s.len() as int, #[trigger] blob_peaks(s, i)[j])
                && blob_peaks(s, i)[j].eligible,
    decreases s.len() - i,
{
    if i < s.len() {
        if !s[i].eligible {
            lemma_blob_peaks_eligible(s, i + 1);
            assert forall|j: int| 0 <= j < blob_peaks(s, i).len() implies one_of(
                s,
                i,
                s.len() as int,
                #[trigger] blob_peaks(s, i)[j],
            ) && blob_peaks(s, i)[j].eligible by {
                assert(blob_peaks(s, i)[j] == blob_peaks(s, i + 1)[j]);
                let r = choose|r: int| i + 1 <= r < s.len() && s[r] == blob_peaks(s, i + 1)[j];
                assert(i <= r < s.len() && s[r] == blob_peaks(s, i)[j]);
            }
        } else {
            let e = run_end(s, i);
            lemma_run_end(s, i);
            lemma_blob_peaks_eligible(s, e);
            let segs = split_valleys_spec(s, i, e);
            lemma_split_valleys_parts(s, i, e);
            lemma_segment_peaks_from(s, segs, i, e);
            let first = segment_peaks(s, segs);
            let rest = blob_peaks(s, e);
            assert forall|j: int| 0 <= j < blob_peaks(s, i).len() implies one_of(
                s,
                i,
                s.len() as int,
                #[trigger] blob_peaks(s, i)[j],
            ) && blob_peaks(s, i)[j].eligible by {
                if j < first.len() {
                    assert(blob_peaks(s, i)[j] == first[j]);
                    assert(one_of(s, i, e, first[j]));
                    let r = choose|r: int| i <= r < e && s[r] == first[j];
                    assert(s[r].eligible);
                } else {
                    assert(blob_peaks(s, i)[j] == rest[j - first.len()]);
                    assert(one_of(s, e, s.len() as int, rest[j - first.len()]));
                    let r = choose|r: int| e <= r < s.len() && s[r] == rest[j - first.len()];
                    assert(i <= r < s.len());
                }
            }
        }
    }
}


pub open spec fn pairwise_separated(s: Seq<ChannelScore>, min_sep_khz: u32) -> bool {
    forall|i: int, j: int|
        0 <= i < j < s.len() ==> khz_distance(
            (#[trigger] s[i]).frequency_khz,
            (#[trigger] s[j]).frequency_khz,
        ) >= min_sep_khz
}

pub open spec fn ascending_frequency(s: Seq<ChannelScore>) -> bool {
    forall|i: int, j: int|
        0 <= i < j < s.len() ==> (#[trigger] s[i]).frequency_khz <= (#[trigger] s[j]).frequency_khz
}

pub open spec fn drawn_from(out: Seq<ChannelScore>, src: Seq<ChannelScore>) -> bool {
    forall|i: int| 0 <= i < out.len() ==> src.contains(#[trigger] out[i])
}

proof fn lemma_insert_props(sorted: Seq<ChannelScore>, x: ChannelScore, k: int, min_sep_khz: u32)
    requires
        k == frequency_slot(sorted, x),
        ascending_frequency(sorted),
    ensures
        ascending_frequency(sorted.insert(k, x)),
        pairwise_separated(sorted, min_sep_khz) && (forall|i: int|
            0 <= i < sorted.len() ==> khz_distance((#[trigger] sorted[i]).frequency_khz, x.frequency_khz)
                >= min_sep_khz) ==> pairwise_separated(sorted.insert(k, x), min_sep_khz),
{
    lemma_frequency_slot_bounds(sorted, x);
    let t = sorted.insert(k, x);
    assert forall|i: int, j: int| 0 <= i < j < t.len() implies (#[trigger] t[i]).frequency_khz
        <= (#[trigger] t[j]).frequency_khz by {
        if j < k {
            assert(t[i] == sorted[i] && t[j] == sorted[j]);
        } else if j == k {
            assert(t[i] == sorted[i]);
        } else if i < k {
            assert(t[i] == sorted[i] && t[j] == sorted[j - 1]);
            assert(sorted[k].frequency_khz > x.frequency_khz);
            if i < k {
                assert(sorted[i].frequency_khz <= x.frequency_khz);
            }
        } else if i == k {
            assert(t[j] == sorted[j - 1]);
            assert(sorted[k].frequency_khz > x.frequency_khz);
        } else {
            assert(t[i] == sorted[i - 1] && t[j] == sorted[j - 1]);
        }
    }
    if pairwise_separated(sorted, min_sep_khz) && (forall|i: int|
        0 <= i < sorted.len() ==> khz_distance((#[trigger] sorted[i]).frequency_khz, x.frequency_khz)
            >= min_sep_khz) {
        assert forall|i: int, j: int| 0 <= i < j < t.len() implies khz_distance(
            (#[trigger] t[i]).frequency_khz,
            (#[trigger] t[j]).frequency_khz,
        ) >= min_sep_khz by {
            if j < k {
                assert(t[i] == sorted[i] && t[j] == sorted[j]);
            } else if j == k {
                assert(t[i] == sorted[i]);
            } else if i < k {
                assert(t[i] == sorted[i] && t[j] == sorted[j - 1]);
            } else if i == k {
                assert(t[j] == sorted[j - 1]);
            } else {
                assert(t[i] == sorted[i - 1] && t[j] == sorted[j - 1]);
            }
        }
    }
}

proof fn lemma_sort_by_frequency_props(s: Seq<ChannelScore>, min_sep_khz: u32)
    ensures
        sort_by_frequency(s).len() == s.len(),
        ascending_frequency(sort_by_frequency(s)),
        drawn_from(sort_by_frequency(s), s),
        pairwise_separated(s, min_sep_khz) ==> pairwise_separated(
            sort_by_frequency(s),
            min_sep_khz,
        ),
    decreases s.len(),
{
    if s.len() > 0 {
        let t = s.drop_last();
        let x = s.last();
        lemma_sort_by_frequency_props(t, min_sep_khz);
        let sorted = sort_by_frequency(t);
        let k = frequency_slot(sorted, x);
        lemma_frequency_slot_bounds(sorted, x);
        lemma_insert_props(sorted, x, k, min_sep_khz);
        let r = sorted.insert(k, x);
        assert forall|i: int| 0 <= i < r.len() implies s.contains(#[trigger] r[i]) by {
            if i < k {
                assert(r[i] == sorted[i]);
                let q = choose|q: int| 0 <= q < t.len() && t[q] == sorted[i];
                assert(s[q] == t[q]);
            } else if i == k {
                assert(s[s.len() - 1] == x);
            } else {
                assert(r[i] == sorted[i - 1]);
                let q = choose|q: int| 0 <= q < t.len() && t[q] == sorted[i - 1];
                assert(s[q] == t[q]);
            }
        }
        if pairwise_separated(s, min_sep_khz) {
            assert forall|i: int, j: int| 0 <= i < j < t.len() implies khz_distance(
                (#[trigger] t[i]).frequency_khz,
                (#[trigger] t[j]).frequency_khz,
            ) >= min_sep_khz by {
                assert(t[i] == s[i] && t[j] == s[j]);
            }
            assert forall|i: int| 0 <= i < sorted.len() implies khz_distance(
                (#[trigger] sorted[i]).frequency_khz,
                x.frequency_khz,
            ) >= min_sep_khz by {
                let q = choose|q: int| 0 <= q < t.len() && t[q] == sorted[i];
                assert(t[q] == s[q]);
                assert(khz_distance(s[q].frequency_khz, s[s.len() - 1].frequency_khz) >= min_sep_khz);
            }
        }
    }
}

proof fn lemma_sort_by_quality_drawn(s: Seq<ChannelScore>)
    ensures
        drawn_from(sort_by_quality(s), s),
        sort_by_quality(s).len() == s.len(),
    decreases s.len(),
{
    if s.len() > 0 {
        let t = s.drop_last();
        let x = s.last();
        lemma_sort_by_quality_drawn(t);
        let sorted = sort_by_quality(t);
        let k = quality_slot(sorted, x);
        lemma_quality_slot_bounds(sorted, x);
        let r = sorted.insert(k, x);
        assert forall|i: int| 0 <= i < r.len() implies s.contains(#[trigger] r[i]) by {
            if i < k {
                assert(r[i] == sorted[i]);
                let q = choose|q: int| 0 <= q < t.len() && t[q] == sorted[i];
                assert(s[q] == t[q]);
            } else if i == k {
                assert(s[s.len() - 1] == x);
            } else {
                assert(r[i] == sorted[i - 1]);
                let q = choose|q: int| 0 <= q < t.len() && t[q] == sorted[i - 1];
                assert(s[q] == t[q]);
            }
        }
    }
}

proof fn lemma_greedy_props(ranked: Seq<ChannelScore>, k: int, min_sep_khz: u32, max_peaks: usize)
    requires
        0 <= k <= ranked.len(),
    ensures
        pairwise_separated(greedy_select(ranked, k, min_sep_khz, max_peaks), min_sep_khz),
        drawn_from(greedy_select(ranked, k, min_sep_khz, max_peaks), ranked),
        greedy_select(ranked, k, min_sep_khz, max_peaks).len() <= if max_peaks == 0 {
            1
        } else {
            max_peaks as int
        },
    decreases k,
{
    if k > 0 {
        lemma_greedy_props(ranked, k - 1, min_sep_khz, max_peaks);
        let sel = greedy_select(ranked, k - 1, min_sep_khz, max_peaks);
        let x = ranked[k - 1];
        if !(sel.len() >= 1 && sel.len() >= max_peaks) && !too_close(sel, x, min_sep_khz) {
            let r = sel.push(x);
            assert forall|i: int, j: int| 0 <= i < j < r.len() implies khz_distance(
                (#[trigger] r[i]).frequency_khz,
                (#[trigger] r[j]).frequency_khz,
            ) >= min_sep_khz by {
                assert(r[i] == sel[i]);
                if j < sel.len() {
                    assert(r[j] == sel[j]);
                } else {
                    assert(r[j] == x);
                    assert(!(khz_distance(sel[i].frequency_khz, x.frequency_khz) < min_sep_khz));
                }
            }
            assert forall|i: int| 0 <= i < r.len() implies ranked.contains(#[trigger] r[i]) by {
                if i < sel.len() {
                    assert(r[i] == sel[i]);
                } else {
                    assert(ranked[k - 1] == x);
                }
            }
        }
    }
}

/// What the detector reports: at most `MAX_CHANNELS` channels, each an
/// eligible input channel, in ascending frequency with neighbours at least
/// `MIN_SEP_KHZ` apart.
pub proof fn lemma_selected_channels(stats: Seq<ChannelScore>)
    requires
        stats.len() <= usize::MAX,
    ensures
        select_channels_spec(stats).len() <= MAX_CHANNELS,
        forall|i: int|
            0 <= i < select_channels_spec(stats).len() ==> (#[trigger] select_channels_spec(
                stats,
            )[i]).eligible && stats.contains(select_channels_spec(stats)[i]),
        forall|i: int, j: int|
            0 <= i < j < select_channels_spec(stats).len() ==> (#[trigger] select_channels_spec(
                stats,
            )[i]).frequency_khz + MIN_SEP_KHZ <= (#[trigger] select_channels_spec(
                stats,
            )[j]).frequency_khz,
{
    let peaks = blob_peaks(stats, 0);
    lemma_blob_peaks_eligible(stats, 0);
    let ranked = sort_by_quality(peaks);
    lemma_sort_by_quality_drawn(peaks);
    let sel = greedy_select(ranked, ranked.len() as int, MIN_SEP_KHZ, MAX_CHANNELS);
    lemma_greedy_props(ranked, ranked.len() as int, MIN_SEP_KHZ, MAX_CHANNELS);
    let r = sort_by_frequency(sel);
    lemma_sort_by_frequency_props(sel, MIN_SEP_KHZ);
    assert(r == select_channels_spec(stats));
    assert forall|i: int| 0 <= i < r.len() implies (#[trigger] r[i]).eligible && stats.contains(
        r[i],
    ) by {
        let a = choose|a: int| 0 <= a < sel.len() && sel[a] == r[i];
        let b = choose|b: int| 0 <= b < ranked.len() && ranked[b] == sel[a];
        let c = choose|c: int| 0 <= c < peaks.len() && peaks[c] == ranked[b];
        assert(one_of(stats, 0, stats.len() as int, peaks[c]));
        let d = choose|d: int| 0 <= d < stats.len() && stats[d] == peaks[c];
        assert(stats.contains(r[i]));
    }
    assert forall|i: int, j: int| 0 <= i < j < r.len() implies (#[trigger] r[i]).frequency_khz
        + MIN_SEP_KHZ <= (#[trigger] r[j]).frequency_khz by {
        assert(r[i].frequency_khz <= r[j].frequency_khz);
        assert(khz_distance(r[i].frequency_khz, r[j].frequency_khz) >= MIN_SEP_KHZ);
    }
}
} // verus!
