use vstd::prelude::*;

verus! {

/// Magnitude of one sample on the full scale (2^31 stands for 1.0).
pub open spec fn magnitude(x: i32) -> nat {
    if x < 0 {
        (-x) as nat
    } else {
        x as nat
    }
}

/// Largest magnitude among `s[lo..hi]` (0 for an empty range).
pub open spec fn peak(s: Seq<i32>, lo: int, hi: int) -> nat
    decreases hi - lo,
{
    if hi <= lo {
        0
    } else {
        let p = peak(s, lo, hi - 1);
        let m = magnitude(s[hi - 1]);
        if m > p {
            m
        } else {
            p
        }
    }
}

/// Size of every chunk but the last when `n` samples go into `t` buckets.
pub open spec fn chunk_size(n: nat, t: nat) -> nat {
    n / t
}

/// First index of bucket `i`.
pub open spec fn chunk_start(n: nat, t: nat, i: int) -> int {
    i * chunk_size(n, t)
}

/// One past the last index of bucket `i`: the last bucket takes the remainder.
pub open spec fn chunk_end(n: nat, t: nat, i: int) -> int {
    if i == t - 1 {
        n as int
    } else {
        (i + 1) * chunk_size(n, t)
    }
}

/// The bucket that index `k` falls in.
pub open spec fn bucket_of(n: nat, t: nat, k: int) -> int {
    let q = k / (chunk_size(n, t) as int);
    if q < t - 1 {
        q
    } else {
        t - 1
    }
}

/// The waveform of `s` with `t` buckets.
pub open spec fn waveform_spec(s: Seq<i32>, t: nat) -> Seq<nat> {
    if s.len() <= t {
        Seq::new(s.len(), |i: int| magnitude(s[i]))
    } else {
        Seq::new(t, |i: int| peak(s, chunk_start(s.len(), t, i), chunk_end(s.len(), t, i)))
    }
}

/// Progress (per mille) reported after bucket `i` of `t`: the downsampling
/// phase covers 800..1000, and the last bucket reports 990 so that only
/// true completion reports 1000.
pub open spec fn bucket_progress(i: nat, t: nat) -> nat {
    let p = 800 + (i + 1) * 200 / t;
    if i == t - 1 || p > 990 {
        990
    } else {
        p
    }
}

/// Reports made while filling the first `k` of `t` buckets: one after every
/// thousandth bucket and one after the last.
pub open spec fn reports_upto(k: nat, t: nat) -> Seq<u32>
    decreases k,
{
    if k == 0 {
        Seq::empty()
    } else {
        let prev = reports_upto((k - 1) as nat, t);
        let i = (k - 1) as nat;
        if i % 1000 == 0 || i == t - 1 {
            prev.push(bucket_progress(i, t) as u32)
        } else {
            prev
        }
    }
}

/// Reports made while reducing `n` samples to `t` buckets: none for no
/// samples, a single 900 when no bucketing is needed, else the bucket
/// schedule.
pub open spec fn downsample_reports(n: nat, t: nat) -> Seq<u32> {
    if n == 0 {
        Seq::empty()
    } else if n <= t {
        seq![900]
    } else {
        reports_upto(t, t)
    }
}

/// Reports of the whole downsampling phase: 800 at its start, 1000 at the end.
pub open spec fn waveform_reports(n: nat, t: nat) -> Seq<u32> {
    seq![800u32] + downsample_reports(n, t) + seq![1000u32]
}

/// Receiver of progress reports, in per mille of the whole job.
pub trait ProgressSink {
    /// Every report received so far, in order.
    spec fn reported(&self) -> Seq<u32>;

    fn report(&mut self, permille: u32)
        ensures
            final(self).reported() == old(self).reported().push(permille),
    ;
}

/// A sink that keeps every report it receives.
pub struct ProgressLog {
    pub values: Vec<u32>,
}

impl ProgressSink for ProgressLog {
    open spec fn reported(&self) -> Seq<u32> {
        self.values@
    }

    fn report(&mut self, permille: u32) {
        self.values.push(permille);
    }
}

/// A sink that hands each report to a callback as it comes.
pub struct CallbackSink<F: Fn(u32)> {
    callback: F,
    log: Ghost<Seq<u32>>,
}

impl<F: Fn(u32)> CallbackSink<F> {
    #[verifier::type_invariant]
    spec fn callable(self) -> bool {
        forall|x: u32| self.callback.requires((x,))
    }

    pub fn new(callback: F) -> (r: CallbackSink<F>)
        requires
            forall|x: u32| callback.requires((x,)),
        ensures
            r.reported() == Seq::<u32>::empty(),
    {
        CallbackSink { callback, log: Ghost(Seq::empty()) }
    }
}

impl<F: Fn(u32)> ProgressSink for CallbackSink<F> {
    closed spec fn reported(&self) -> Seq<u32> {
        self.log@
    }

    fn report(&mut self, permille: u32) {
        proof {
            use_type_invariant(&*self);
        }
        (self.callback)(permille);
        self.log = Ghost(self.log@.push(permille));
    }
}

impl ProgressLog {
    pub fn new() -> (r: ProgressLog)
        ensures
            r.values@.len() == 0,
    {
        ProgressLog { values: Vec::new() }
    }
}

fn abs_sample(x: i32) -> (r: u32)
    ensures
        r == magnitude(x),
{
    if x < 0 {
        (-(x as i64)) as u32
    } else {
        x as u32
    }
}

proof fn lemma_peak_covers(s: Seq<i32>, lo: int, hi: int, k: int)
    requires
        lo <= k < hi,
    ensures
        magnitude(s[k]) <= peak(s, lo, hi),
    decreases hi - lo,
{
    if k < hi - 1 {
        lemma_peak_covers(s, lo, hi - 1, k);
    }
}

proof fn lemma_peak_mono(s: Seq<i32>, lo: int, hi: int, lo2: int, hi2: int)
    requires
        lo2 <= lo,
        hi <= hi2,
    ensures
        peak(s, lo, hi) <= peak(s, lo2, hi2),
    decreases hi - lo,
{
    if hi > lo {
        lemma_peak_mono(s, lo, hi - 1, lo2, hi2);
        lemma_peak_covers(s, lo2, hi2, hi - 1);
    }
}

proof fn lemma_chunk_bounds(n: nat, t: nat, i: int)
    requires
        0 < t < n,
        0 <= i < t,
    ensures
        0 <= chunk_start(n, t, i) < chunk_end(n, t, i) <= n,
        i < t - 1 ==> chunk_end(n, t, i) == chunk_start(n, t, i + 1),
{
    let c = chunk_size(n, t);
    assert(c >= 1) by (nonlinear_arith)
        requires
            c == n / t,
            0 < t < n,
    ;
    assert(c * t <= n) by (nonlinear_arith)
        requires
            c == n / t,
            0 < t,
    ;
    assert(0 <= i * c) by (nonlinear_arith)
        requires
            0 <= i,
            c >= 1,
    ;
    assert((i + 1) * c <= t * c) by (nonlinear_arith)
        requires
            i + 1 <= t,
            c >= 1,
    ;
    assert((i + 1) * c == i * c + c) by (nonlinear_arith);
    assert(i * c < n) by (nonlinear_arith)
        requires
            i < t,
            c >= 1,
            c * t <= n,
    ;
}

/// The buckets of the waveform tile the input: the first starts at 0, each
/// ends where the next starts, the last ends at `n` (absorbing the remainder
/// of the division), none is empty, and every index lies in exactly one of
/// them, the one that `bucket_of` names.
pub proof fn lemma_buckets_partition(n: nat, t: nat)
    requires
        0 < t < n,
    ensures
        chunk_start(n, t, 0) == 0,
        chunk_end(n, t, t - 1) == n,
        forall|i: int|
            0 <= i < t ==> 0 <= chunk_start(n, t, i) < #[trigger] chunk_end(n, t, i) <= n,
        forall|i: int|
            0 <= i < t - 1 ==> #[trigger] chunk_end(n, t, i) == chunk_start(n, t, i + 1),
        forall|k: int|
            0 <= k < n ==> 0 <= #[trigger] bucket_of(n, t, k) < t && chunk_start(
                n,
                t,
                bucket_of(n, t, k),
            ) <= k < chunk_end(n, t, bucket_of(n, t, k)),
        forall|k: int, i: int|
            0 <= k < n && 0 <= i < t && chunk_start(n, t, i) <= k < #[trigger] chunk_end(n, t, i)
                ==> i == #[trigger] bucket_of(n, t, k),
{
    let c = chunk_size(n, t);
    assert(chunk_start(n, t, 0) == 0);
    assert forall|i: int| 0 <= i < t implies 0 <= chunk_start(n, t, i) < #[trigger] chunk_end(
        n,
        t,
        i,
    ) <= n by {
        lemma_chunk_bounds(n, t, i);
    }
    assert forall|i: int| 0 <= i < t - 1 implies #[trigger] chunk_end(n, t, i) == chunk_start(
        n,
        t,
        i + 1,
    ) by {
        lemma_chunk_bounds(n, t, i);
    }
    assert(c >= 1) by (nonlinear_arith)
        requires
            c == n / t,
            0 < t < n,
    ;
    assert forall|k: int| 0 <= k < n implies 0 <= #[trigger] bucket_of(n, t, k) < t
        && chunk_start(n, t, bucket_of(n, t, k)) <= k < chunk_end(n, t, bucket_of(n, t, k)) by {
        let q = k / c as int;
        let i = bucket_of(n, t, k);
        assert(q * c <= k < q * c + c) by (nonlinear_arith)
            requires
                q == k / c as int,
                c >= 1,
                k >= 0,
        ;
        assert(q >= 0) by (nonlinear_arith)
            requires
                q == k / c as int,
                c >= 1,
                k >= 0,
        ;
        if q < t - 1 {
            assert((q + 1) * c == q * c + c) by (nonlinear_arith);
        } else {
            assert((t - 1) * c <= q * c) by (nonlinear_arith)
                requires
                    t - 1 <= q,
                    c >= 1,
            ;
        }
        assert(chunk_start(n, t, i) <= k < chunk_end(n, t, i));
    }
    assert forall|k: int, i: int|
        0 <= k < n && 0 <= i < t && chunk_start(n, t, i) <= k < #[trigger] chunk_end(n, t, i)
            implies i == #[trigger] bucket_of(n, t, k) by {
        let j = bucket_of(n, t, k);
        assert(0 <= j < t && chunk_start(n, t, j) <= k < chunk_end(n, t, j));
        if i < j {
            assert((i + 1) * c <= j * c) by (nonlinear_arith)
                requires
                    i + 1 <= j,
                    c >= 1,
            ;
        } else if j < i {
            assert((j + 1) * c <= i * c) by (nonlinear_arith)
                requires
                    j + 1 <= i,
                    c >= 1,
            ;
        }
    }
}

/// Every value of a waveform lies between 0 and the largest magnitude of the
/// input, and there are exactly `min(len, t)` of them.
pub proof fn lemma_waveform_bounds(s: Seq<i32>, t: nat)
    requires
        t > 0,
    ensures
        waveform_spec(s, t).len() == if s.len() <= t {
            s.len()
        } else {
            t
        },
        forall|i: int|
            0 <= i < waveform_spec(s, t).len() ==> #[trigger] waveform_spec(s, t)[i] <= peak(
                s,
                0,
                s.len() as int,
            ),
{
    let w = waveform_spec(s, t);
    assert forall|i: int| 0 <= i < w.len() implies #[trigger] w[i] <= peak(
        s,
        0,
        s.len() as int,
    ) by {
        if s.len() <= t {
            lemma_peak_covers(s, 0, s.len() as int, i);
        } else {
            lemma_chunk_bounds(s.len(), t, i);
            lemma_peak_mono(
                s,
                chunk_start(s.len(), t, i),
                chunk_end(s.len(), t, i),
                0,
                s.len() as int,
            );
        }
    }
}

/// Downsampling progress never goes back, and stays within 800..=990 so
/// that only true completion reports 1000.
pub proof fn lemma_progress_monotone(i: nat, j: nat, t: nat)
    requires
        i <= j < t,
    ensures
        800 <= bucket_progress(i, t) <= bucket_progress(j, t) <= 990,
{
    assert((i + 1) * 200 / t <= (j + 1) * 200 / t) by (nonlinear_arith)
        requires
            i <= j,
            t > 0,
    ;
    assert(0 <= (i + 1) * 200 / t) by (nonlinear_arith)
        requires
            t > 0,
    ;
}

proof fn lemma_reports_upto(k: nat, t: nat)
    requires
        1 <= k <= t,
    ensures
        reports_upto(k, t).len() >= 1,
        forall|x: int|
            0 <= x < reports_upto(k, t).len() ==> 800 <= #[trigger] reports_upto(k, t)[x]
                <= bucket_progress((k - 1) as nat, t),
        forall|x: int|
            0 <= x < reports_upto(k, t).len() - 1 ==> #[trigger] reports_upto(k, t)[x]
                <= reports_upto(k, t)[x + 1],
        k == t ==> reports_upto(k, t).last() == 990,
    decreases k,
{
    lemma_progress_monotone((k - 1) as nat, (k - 1) as nat, t);
    if k == 1 {
        assert(reports_upto(0, t) =~= Seq::<u32>::empty());
    } else {
        lemma_reports_upto((k - 1) as nat, t);
        lemma_progress_monotone((k - 2) as nat, (k - 1) as nat, t);
    }
}

/// The reports of the downsampling phase start at 800, never go back, stay
/// at or below 990 until the end, and end with a single 1000.
pub proof fn lemma_waveform_report_order(n: nat, t: nat)
    requires
        t > 0,
    ensures
        waveform_reports(n, t)[0] == 800,
        waveform_reports(n, t).last() == 1000,
        forall|x: int|
            0 <= x < waveform_reports(n, t).len() - 1 ==> 800 <= #[trigger] waveform_reports(
                n,
                t,
            )[x] <= 990,
        forall|x: int|
            0 <= x < waveform_reports(n, t).len() - 1 ==> #[trigger] waveform_reports(n, t)[x]
                <= waveform_reports(n, t)[x + 1],
{
    let s = waveform_reports(n, t);
    let d = downsample_reports(n, t);
    if n > t {
        lemma_reports_upto(t, t);
    }
    assert forall|x: int| 0 <= x < s.len() - 1 implies 800 <= #[trigger] s[x] <= 990 by {
        if x > 0 {
            assert(s[x] == d[x - 1]);
        }
    }
    assert forall|x: int| 0 <= x < s.len() - 1 implies #[trigger] s[x] <= s[x + 1] by {
        if x > 0 && x < s.len() - 2 {
            assert(s[x] == d[x - 1] && s[x + 1] == d[x]);
        }
        if x == 0 && d.len() > 0 {
            assert(s[1] == d[0]);
        }
    }
}

proof fn lemma_peak_agree(s: Seq<i32>, s2: Seq<i32>, lo: int, hi: int)
    requires
        forall|k: int| lo <= k < hi ==> s[k] == s2[k],
    ensures
        peak(s, lo, hi) == peak(s2, lo, hi),
    decreases hi - lo,
{
    if hi > lo {
        lemma_peak_agree(s, s2, lo, hi - 1);
    }
}

proof fn lemma_peak_attained(s: Seq<i32>, lo: int, hi: int) -> (m: int)
    requires
        lo < hi,
    ensures
        lo <= m < hi,
        magnitude(s[m]) == peak(s, lo, hi),
    decreases hi - lo,
{
    if hi - 1 == lo {
        assert(peak(s, lo, hi - 1) == 0);
        hi - 1
    } else {
        let m = lemma_peak_attained(s, lo, hi - 1);
        if magnitude(s[hi - 1]) > peak(s, lo, hi - 1) {
            hi - 1
        } else {
            m
        }
    }
}

/// Changing one input sample changes at most the bucket it falls in, so no
/// two buckets share an index.
pub proof fn lemma_bucket_locality(s: Seq<i32>, s2: Seq<i32>, t: nat, j: int)
    requires
        0 < t < s.len(),
        s2.len() == s.len(),
        0 <= j < s.len(),
        forall|k: int| 0 <= k < s.len() && k != j ==> s[k] == s2[k],
    ensures
        forall|b: int|
            0 <= b < t && b != bucket_of(s.len(), t, j) ==> #[trigger] waveform_spec(s2, t)[b]
                == waveform_spec(s, t)[b],
{
    let n = s.len();
    lemma_buckets_partition(n, t);
    assert forall|b: int|
        0 <= b < t && b != bucket_of(n, t, j) implies #[trigger] waveform_spec(s2, t)[b]
        == waveform_spec(s, t)[b] by {
        let lo = chunk_start(n, t, b);
        let hi = chunk_end(n, t, b);
        assert(0 <= lo < hi <= n);
        assert forall|k: int| lo <= k < hi implies s[k] == s2[k] by {
            if k == j {
                assert(b == bucket_of(n, t, j));
            }
        }
        lemma_peak_agree(s, s2, lo, hi);
    }
}

/// No index is left out: the largest waveform value is the largest
/// magnitude of the input.
pub proof fn lemma_waveform_peak(s: Seq<i32>, t: nat)
    requires
        t > 0,
        s.len() > 0,
    ensures
        exists|b: int|
            0 <= b < waveform_spec(s, t).len() && #[trigger] waveform_spec(s, t)[b] == peak(
                s,
                0,
                s.len() as int,
            ),
{
    let n = s.len();
    lemma_waveform_bounds(s, t);
    let m = lemma_peak_attained(s, 0, n as int);
    if n <= t {
        assert(waveform_spec(s, t)[m] == peak(s, 0, n as int));
    } else {
        lemma_buckets_partition(n, t);
        let b = bucket_of(n, t, m);
        assert(0 <= b < t && chunk_start(n, t, b) <= m < chunk_end(n, t, b));
        lemma_peak_covers(s, chunk_start(n, t, b), chunk_end(n, t, b), m);
        assert(waveform_spec(s, t)[b] == peak(s, 0, n as int));
    }
}

fn peak_of_range(samples: &Vec<i32>, lo: usize, hi: usize) -> (r: u32)
    requires
        lo <= hi <= samples@.len(),
    ensures
        r == peak(samples@, lo as int, hi as int),
{
    let mut best: u32 = 0;
    let mut k: usize = lo;
    while k < hi
        invariant
            lo <= k <= hi <= samples@.len(),
            best == peak(samples@, lo as int, k as int),
        decreases hi - k,
    {
        let m = abs_sample(samples[k]);
        if m > best {
            best = m;
        }
        k = k + 1;
    }
    best
}

/// Progress value reported after bucket `i` of `t`.
pub fn downsample_progress(i: usize, t: usize) -> (r: u32)
    requires
        i < t,
    ensures
        r == bucket_progress(i as nat, t as nat),
{
    let p: u128 = 800 + (i as u128 + 1) * 200 / (t as u128);
    if i == t - 1 || p > 990 {
        990
    } else {
        p as u32
    }
}

/// Reduces `samples` to `target_samples` peak magnitudes, reporting progress
/// to `sink` on every thousandth bucket and on the last one.
pub fn downsample_with_progress<S: ProgressSink>(
    samples: &Vec<i32>,
    target_samples: usize,
    sink: &mut S,
) -> (r: Vec<u32>)
    requires
        target_samples > 0,
    ensures
        r@.len() == waveform_spec(samples@, target_samples as nat).len(),
        forall|i: int|
            0 <= i < r@.len() ==> r@[i] == #[trigger] waveform_spec(
                samples@,
                target_samples as nat,
            )[i],
        final(sink).reported() == old(sink).reported() + downsample_reports(
            samples@.len(),
            target_samples as nat,
        ),
{
    let n = samples.len();
    let ghost w = waveform_spec(samples@, target_samples as nat);
    let mut out: Vec<u32> = Vec::new();
    if n == 0 {
        assert(sink.reported() =~= old(sink).reported() + Seq::<u32>::empty());
        return out;
    }
    if n <= target_samples {
        sink.report(900);
        assert(sink.reported() =~= old(sink).reported() + seq![900u32]);
        let mut i: usize = 0;
        while i < n
            invariant
                sink.reported() == old(sink).reported() + downsample_reports(
                    samples@.len(),
                    target_samples as nat,
                ),
                n == samples@.len(),
                n <= target_samples,
                i <= n,
                w == waveform_spec(samples@, target_samples as nat),
                out@.len() == i,
                forall|j: int| 0 <= j < i ==> out@[j] == w[j],
            decreases n - i,
        {
            out.push(abs_sample(samples[i]));
            i = i + 1;
        }
        return out;
    }
    let chunk = n / target_samples;
    let mut i: usize = 0;
    assert(sink.reported() =~= old(sink).reported() + reports_upto(0, target_samples as nat));
    while i < target_samples
        invariant
            sink.reported() == old(sink).reported() + reports_upto(i as nat, target_samples as nat),
            n == samples@.len(),
            n > target_samples > 0,
            chunk == chunk_size(n as nat, target_samples as nat),
            i <= target_samples,
            w == waveform_spec(samples@, target_samples as nat),
            out@.len() == i,
            forall|j: int| 0 <= j < i ==> out@[j] == w[j],
        decreases target_samples - i,
    {
        proof {
            lemma_chunk_bounds(n as nat, target_samples as nat, i as int);
        }
        let start = i * chunk;
        let end = if i == target_samples - 1 {
            n
        } else {
            (i + 1) * chunk
        };
        out.push(peak_of_range(samples, start, end));
        if i % 1000 == 0 || i == target_samples - 1 {
            let p = downsample_progress(i, target_samples);
            sink.report(p);
            assert(sink.reported() =~= old(sink).reported() + reports_upto(
                (i + 1) as nat,
                target_samples as nat,
            ));
        }
        i = i + 1;
    }
    out
}

/// Reduces `samples` to `target_samples` peak magnitudes.
pub fn downsample(samples: &Vec<i32>, target_samples: usize) -> (r: Vec<u32>)
    requires
        target_samples > 0,
    ensures
        r@.len() == waveform_spec(samples@, target_samples as nat).len(),
        forall|i: int|
            0 <= i < r@.len() ==> r@[i] == #[trigger] waveform_spec(
                samples@,
                target_samples as nat,
            )[i],
{
    let mut log = ProgressLog::new();
    downsample_with_progress(samples, target_samples, &mut log)
}

/// The downsampling phase of waveform generation: reports 800 when it
/// starts and 1000 once the waveform is complete.
pub fn waveform_from_samples<S: ProgressSink>(
    samples: &Vec<i32>,
    target_samples: usize,
    sink: &mut S,
) -> (r: Vec<u32>)
    requires
        target_samples > 0,
    ensures
        r@.len() == waveform_spec(samples@, target_samples as nat).len(),
        forall|i: int|
            0 <= i < r@.len() ==> r@[i] == #[trigger] waveform_spec(
                samples@,
                target_samples as nat,
            )[i],
        final(sink).reported() == old(sink).reported() + waveform_reports(
            samples@.len(),
            target_samples as nat,
        ),
{
    sink.report(800);
    let r = downsample_with_progress(samples, target_samples, sink);
    sink.report(1000);
    assert(sink.reported() =~= old(sink).reported() + waveform_reports(
        samples@.len(),
        target_samples as nat,
    ));
    r
}

} // verus!
