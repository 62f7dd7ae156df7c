use vstd::prelude::*;
use vstd::arithmetic::div_mod::lemma_hoist_over_denominator;

use crate::error::PipelineError;

verus! {

/// 1.0 on the full scale of a mono sample.
pub const FULL_SCALE: i64 = 2147483648;

/// Sample rate that the inference engine takes.
pub const INFERENCE_RATE: u32 = 16000;

/// Samples of one packet, interleaved by channel, in the codec's own
/// representation. Floating-point packets reach the library already turned
/// into `S32` at full scale.
#[derive(Debug, Clone)]
pub enum SampleData {
    S16(Vec<i16>),
    S32(Vec<i32>),
    U8(Vec<u8>),
    Unsupported,
}

/// One decoded packet.
#[derive(Debug, Clone)]
pub struct DecodedBuffer {
    pub channels: usize,
    pub data: SampleData,
}

/// What the decoder adapter knows of one track of a container.
#[derive(Debug, Clone, Copy)]
pub struct TrackInfo {
    pub id: u32,
    /// The track's codec is not the null codec.
    pub has_codec: bool,
    pub sample_rate: Option<u32>,
}

/// A sample on the full scale, where 2^31 stands for 1.0.
pub open spec fn full_i16(v: i16) -> int {
    v * 65536
}

pub open spec fn full_u8(v: u8) -> int {
    (v - 128) * 16777216
}

/// The interleaved samples of a packet on the full scale.
pub open spec fn full_scale(d: SampleData) -> Seq<int> {
    match d {
        SampleData::S16(v) => Seq::new(v@.len(), |i: int| full_i16(v@[i])),
        SampleData::S32(v) => Seq::new(v@.len(), |i: int| v@[i] as int),
        SampleData::U8(v) => Seq::new(v@.len(), |i: int| full_u8(v@[i])),
        SampleData::Unsupported => Seq::empty(),
    }
}

pub open spec fn sum(s: Seq<int>) -> int
    decreases s.len(),
{
    if s.len() == 0 {
        0
    } else {
        sum(s.drop_last()) + s.last()
    }
}

/// Average of frame `f` over `ch` channels, rounded down.
pub open spec fn frame_mean(s: Seq<int>, ch: nat, f: int) -> int {
    sum(s.subrange(f * ch, f * ch + ch)) / (ch as int)
}

/// Mono downmix of interleaved samples: one value per whole frame.
pub open spec fn downmix_spec(s: Seq<int>, ch: nat) -> Seq<int> {
    if ch == 0 {
        Seq::empty()
    } else {
        Seq::new(s.len() / ch, |f: int| frame_mean(s, ch, f))
    }
}

/// The mono fragment that a packet contributes; an unsupported
/// representation contributes nothing.
pub open spec fn normalize_spec(b: DecodedBuffer) -> Seq<int> {
    downmix_spec(full_scale(b.data), b.channels as nat)
}

pub open spec fn as_ints(s: Seq<i32>) -> Seq<int> {
    Seq::new(s.len(), |i: int| s[i] as int)
}

/// Zero-order-hold resampling from `from` to `to` samples per second.
pub open spec fn resample_spec(s: Seq<i32>, from: nat, to: nat) -> Seq<i32> {
    if from == to {
        s
    } else {
        Seq::new(s.len() * to / from, |i: int| s[i * (from as int) / (to as int)])
    }
}

fn full_scale_of(d: &SampleData) -> (r: Vec<i32>)
    ensures
        as_ints(r@) == full_scale(*d),
{
    let mut out: Vec<i32> = Vec::new();
    match d {
        SampleData::S16(v) => {
            let mut i: usize = 0;
            while i < v.len()
                invariant
                    i <= v@.len(),
                    out@.len() == i,
                    forall|j: int| 0 <= j < i ==> out@[j] as int == full_i16(v@[j]),
                decreases v@.len() - i,
            {
                out.push((v[i] as i32) * 65536);
                i = i + 1;
            }
        },
        SampleData::S32(v) => {
            let mut i: usize = 0;
            while i < v.len()
                invariant
                    i <= v@.len(),
                    out@.len() == i,
                    forall|j: int| 0 <= j < i ==> out@[j] == v@[j],
                decreases v@.len() - i,
            {
                out.push(v[i]);
                i = i + 1;
            }
        },
        SampleData::U8(v) => {
            let mut i: usize = 0;
            while i < v.len()
                invariant
                    i <= v@.len(),
                    out@.len() == i,
                    forall|j: int| 0 <= j < i ==> out@[j] as int == full_u8(v@[j]),
                decreases v@.len() - i,
            {
                out.push(((v[i] as i32) - 128) * 16777216);
                i = i + 1;
            }
        },
        SampleData::Unsupported => {},
    }
    assert(as_ints(out@) =~= full_scale(*d));
    out
}

proof fn lemma_frame_fits(s: Seq<int>, ch: nat, f: int)
    requires
        ch > 0,
        0 <= f < s.len() / ch,
    ensures
        0 <= f * ch,
        f * ch + ch <= s.len(),
{
    assert(0 <= f * ch) by (nonlinear_arith)
        requires
            0 <= f,
            ch > 0,
    ;
    assert(f * ch + ch <= s.len()) by (nonlinear_arith)
        requires
            0 <= f < s.len() / ch,
            ch > 0,
    ;
}

fn frame_average(full: &Vec<i32>, base: usize, ch: usize) -> (r: i32)
    requires
        ch > 0,
        base + ch <= full@.len(),
    ensures
        r as int == sum(as_ints(full@).subrange(base as int, base + ch)) / (ch as int),
{
    let ghost s = as_ints(full@);
    let len = full.len();
    let mut total: i128 = 0;
    let mut c: usize = 0;
    while c < ch
        invariant
            ch > 0,
            base + ch <= full@.len(),
            len == full@.len(),
            s == as_ints(full@),
            c <= ch,
            total == sum(s.subrange(base as int, base + c)),
            -2147483648 * c <= total <= 2147483647 * c,
        decreases ch - c,
    {
        assert(base + c < full@.len());
        let x: i32 = full[base + c];
        assert(-2147483648 * (c + 1) <= total + x <= 2147483647 * (c + 1)) by (nonlinear_arith)
            requires
                -2147483648 * c <= total <= 2147483647 * c,
                -2147483648 <= x <= 2147483647,
        ;
        assert(s.subrange(base as int, base + c + 1).drop_last() =~= s.subrange(
            base as int,
            base + c,
        ));
        total = total + x as i128;
        c = c + 1;
    }
    let shifted: u128 = (total + (ch as i128) * 2147483648) as u128;
    let q: u128 = shifted / (ch as u128);
    proof {
        lemma_hoist_over_denominator(total as int, FULL_SCALE as int, ch as nat);
        assert(q as int == (total as int) / (ch as int) + FULL_SCALE);
        assert((total as int) / (ch as int) >= -FULL_SCALE) by (nonlinear_arith)
            requires
                total >= -FULL_SCALE * ch,
                ch > 0,
        ;
        assert((total as int) / (ch as int) <= FULL_SCALE - 1) by (nonlinear_arith)
            requires
                total <= (FULL_SCALE - 1) * ch,
                ch > 0,
        ;
    }
    (q as i128 - 2147483648) as i32
}

/// Averages interleaved full-scale samples over `channels` into one value
/// per frame.
pub fn downmix(full: &Vec<i32>, channels: usize) -> (r: Vec<i32>)
    ensures
        as_ints(r@) == downmix_spec(as_ints(full@), channels as nat),
{
    let mut out: Vec<i32> = Vec::new();
    if channels == 0 {
        assert(as_ints(out@) =~= downmix_spec(as_ints(full@), channels as nat));
        return out;
    }
    let ghost s = as_ints(full@);
    let len = full.len();
    let frames = len / channels;
    let mut f: usize = 0;
    let mut base: usize = 0;
    while f < frames
        invariant
            channels > 0,
            s == as_ints(full@),
            len == full@.len(),
            frames == s.len() / (channels as nat),
            f <= frames,
            base == f * channels,
            out@.len() == f,
            forall|j: int| 0 <= j < f ==> out@[j] as int == frame_mean(s, channels as nat, j),
        decreases frames - f,
    {
        proof {
            lemma_frame_fits(s, channels as nat, f as int);
        }
        assert(base + channels <= full@.len());
        out.push(frame_average(full, base, channels));
        assert((f + 1) * channels == f * channels + channels) by (nonlinear_arith);
        base = base + channels;
        f = f + 1;
    }
    assert(as_ints(out@) =~= downmix_spec(s, channels as nat));
    out
}

/// Turns one decoded packet into its mono fragment on the full scale.
pub fn normalize(buffer: &DecodedBuffer) -> (r: Vec<i32>)
    ensures
        as_ints(r@) == normalize_spec(*buffer),
{
    let full = full_scale_of(&buffer.data);
    downmix(&full, buffer.channels)
}

/// A single channel is passed through unchanged: its mono fragment is its
/// samples on the full scale.
pub proof fn lemma_mono_identity(b: DecodedBuffer)
    requires
        b.channels == 1,
    ensures
        normalize_spec(b) == full_scale(b.data),
{
    let s = full_scale(b.data);
    assert forall|f: int| 0 <= f < s.len() implies #[trigger] frame_mean(s, 1, f) == s[f] by {
        assert(f * 1 == f);
        let one = s.subrange(f, f + 1);
        assert(one.drop_last() =~= Seq::<int>::empty());
        assert(sum(one.drop_last()) == 0);
        assert(sum(one) == s[f]);
    }
    assert(normalize_spec(b) =~= s);
}

/// Converts a mono stream from `from_rate` to `to_rate` samples per second
/// by taking, for each output step, the nearest earlier input sample.
pub fn resample(samples: &Vec<i32>, from_rate: u32, to_rate: u32) -> (r: Vec<i32>)
    requires
        from_rate == to_rate || (from_rate > 0 && to_rate > 0),
    ensures
        r@ == resample_spec(samples@, from_rate as nat, to_rate as nat),
        r@.len() == if from_rate == to_rate {
            samples@.len()
        } else {
            samples@.len() * (to_rate as nat) / (from_rate as nat)
        },
{
    if from_rate == to_rate {
        return samples.clone();
    }
    let n = samples.len();
    assert((n as int) * (to_rate as int) <= 0xffff_ffff_ffff_ffff * 0xffff_ffff) by (nonlinear_arith)
        requires
            n <= 0xffff_ffff_ffff_ffff,
            to_rate <= 0xffff_ffff,
    ;
    let out_len: u128 = (n as u128) * (to_rate as u128) / (from_rate as u128);
    let mut out: Vec<i32> = Vec::new();
    let mut i: u128 = 0;
    let ghost spec_r = resample_spec(samples@, from_rate as nat, to_rate as nat);
    while i < out_len
        invariant
            from_rate > 0,
            to_rate > 0,
            from_rate != to_rate,
            n == samples@.len(),
            out_len == (n as nat) * (to_rate as nat) / (from_rate as nat),
            spec_r == resample_spec(samples@, from_rate as nat, to_rate as nat),
            i <= out_len,
            out@.len() == i,
            forall|j: int| 0 <= j < i ==> out@[j] == spec_r[j],
        decreases out_len - i,
    {
        assert((i as int) * (from_rate as int) <= (n as int) * (to_rate as int)) by (nonlinear_arith)
            requires
                i < out_len,
                out_len == (n as int) * (to_rate as int) / (from_rate as int),
                from_rate > 0,
                i >= 0,
        ;
        assert((n as int) * (to_rate as int) <= 0xffff_ffff_ffff_ffff * 0xffff_ffff) by (nonlinear_arith)
            requires
                n <= 0xffff_ffff_ffff_ffff,
                to_rate <= 0xffff_ffff,
        ;
        let src: u128 = i * (from_rate as u128) / (to_rate as u128);
        assert(src < n) by (nonlinear_arith)
            requires
                src == (i as int) * (from_rate as int) / (to_rate as int),
                i < out_len,
                out_len == (n as int) * (to_rate as int) / (from_rate as int),
                from_rate > 0,
                to_rate > 0,
                i >= 0,
        ;
        out.push(samples[src as usize]);
        i = i + 1;
    }
    assert(out@ =~= spec_r);
    out
}

/// The first track whose codec is not the null codec.
pub fn select_track(tracks: &Vec<TrackInfo>) -> (r: Option<usize>)
    ensures
        r matches Some(i) ==> (i < tracks@.len() && tracks@[i as int].has_codec && forall|j: int|
            0 <= j < i ==> !(#[trigger] tracks@[j]).has_codec),
        r is None ==> forall|j: int| 0 <= j < tracks@.len() ==> !(#[trigger] tracks@[j]).has_codec,
{
    let mut i: usize = 0;
    while i < tracks.len()
        invariant
            i <= tracks@.len(),
            forall|j: int| 0 <= j < i ==> !(#[trigger] tracks@[j]).has_codec,
        decreases tracks@.len() - i,
    {
        if tracks[i].has_codec {
            return Some(i);
        }
        i = i + 1;
    }
    None
}

/// The track that a decode pass reads, with its sample rate: the first
/// audio track, which must state its rate.
pub fn audio_track(tracks: &Vec<TrackInfo>) -> (r: Result<(u32, u32), PipelineError>)
    ensures
        match r {
            Ok((id, rate)) => exists|i: int|
                0 <= i < tracks@.len() && (#[trigger] tracks@[i]).has_codec && tracks@[i].id == id
                    && tracks@[i].sample_rate == Some(rate) && forall|j: int|
                    0 <= j < i ==> !(#[trigger] tracks@[j]).has_codec,
            Err(e) => (e is NoAudioTrack && forall|j: int|
                0 <= j < tracks@.len() ==> !(#[trigger] tracks@[j]).has_codec) || (e is NoSampleRate
                && exists|i: int|
                0 <= i < tracks@.len() && (#[trigger] tracks@[i]).has_codec
                    && tracks@[i].sample_rate is None && forall|j: int|
                    0 <= j < i ==> !(#[trigger] tracks@[j]).has_codec),
        },
{
    match select_track(tracks) {
        None => Err(PipelineError::NoAudioTrack),
        Some(i) => {
            let t = tracks[i];
            match t.sample_rate {
                Some(rate) => Ok((t.id, rate)),
                None => Err(PipelineError::NoSampleRate),
            }
        },
    }
}

/// Decode progress (per mille) after `packets` decoded packets: the decode
/// phase owns 0..800.
pub open spec fn decode_progress(packets: nat) -> nat {
    if packets / 5 > 800 {
        800
    } else {
        packets / 5
    }
}

/// One pass over the packets of a container: keeps the packets of the
/// selected track, turns each decoded one into mono samples, skips the ones
/// that failed to decode, and says when to report progress.
pub struct DecodeSession {
    pub track_id: u32,
    pub samples: Vec<i32>,
    pub packets: u64,
    pub skipped: u64,
    pub last_report: u32,
}

impl DecodeSession {
    pub fn new(track_id: u32) -> (r: DecodeSession)
        ensures
            r.track_id == track_id,
            r.samples@.len() == 0,
            r.packets == 0,
            r.skipped == 0,
            r.last_report == 0,
    {
        DecodeSession { track_id, samples: Vec::new(), packets: 0, skipped: 0, last_report: 0 }
    }

    /// Whether a packet of track `packet_track` is to be decoded.
    pub fn wants(&self, packet_track: u32) -> (r: bool)
        ensures
            r == (packet_track == self.track_id),
    {
        packet_track == self.track_id
    }

    /// Takes in one decoded packet. Returns the progress to report, if this
    /// packet calls for a report: every hundredth packet, when progress has
    /// grown by more than 20 since the last report.
    pub fn accept(&mut self, buffer: &DecodedBuffer) -> (r: Option<u32>)
        requires
            old(self).samples@.len() + normalize_spec(*buffer).len() <= usize::MAX,
        ensures
            as_ints(final(self).samples@) == as_ints(old(self).samples@) + normalize_spec(*buffer),
            final(self).track_id == old(self).track_id,
            final(self).skipped == old(self).skipped,
            final(self).packets == if old(self).packets == u64::MAX {
                u64::MAX as int
            } else {
                old(self).packets + 1
            },
            ({
                let due = final(self).packets % 100 == 0 && decode_progress(final(self).packets as nat)
                    > old(self).last_report + 20;
                &&& due ==> r == Some(decode_progress(final(self).packets as nat) as u32)
                    && final(self).last_report == decode_progress(final(self).packets as nat)
                &&& !due ==> r is None && final(self).last_report == old(self).last_report
            }),
    {
        let mono = normalize(buffer);
        let ghost before = self.samples@;
        let mut i: usize = 0;
        while i < mono.len()
            invariant
                as_ints(mono@) == normalize_spec(*buffer),
                before.len() + mono@.len() <= usize::MAX,
                i <= mono@.len(),
                self.samples@ == before + mono@.subrange(0, i as int),
                self.track_id == old(self).track_id,
                self.skipped == old(self).skipped,
                self.packets == old(self).packets,
                self.last_report == old(self).last_report,
            decreases mono@.len() - i,
        {
            self.samples.push(mono[i]);
            assert(mono@.subrange(0, i + 1) =~= mono@.subrange(0, i as int).push(mono@[i as int]));
            i = i + 1;
        }
        assert(mono@.subrange(0, i as int) =~= mono@);
        assert(as_ints(self.samples@) =~= as_ints(before) + as_ints(mono@));
        self.packets = self.packets.saturating_add(1);
        if self.packets % 100 == 0 {
            let p: u64 = if self.packets / 5 > 800 {
                800
            } else {
                self.packets / 5
            };
            if p > self.last_report as u64 + 20 {
                self.last_report = p as u32;
                return Some(p as u32);
            }
        }
        None
    }

    /// Notes a packet that failed to decode; decoding goes on.
    pub fn skip_failed(&mut self)
        ensures
            final(self).samples@ == old(self).samples@,
            final(self).track_id == old(self).track_id,
            final(self).packets == old(self).packets,
            final(self).last_report == old(self).last_report,
            final(self).skipped == if old(self).skipped == u64::MAX {
                u64::MAX as int
            } else {
                old(self).skipped + 1
            },
    {
        self.skipped = self.skipped.saturating_add(1);
    }

    /// The decoded mono stream, which must not be empty.
    pub fn finish(self) -> (r: Result<Vec<i32>, PipelineError>)
        ensures
            self.samples@.len() == 0 ==> r matches Err(PipelineError::NoSamples),
            self.samples@.len() > 0 ==> (r matches Ok(v) && v@ == self.samples@),
    {
        if self.samples.len() == 0 {
            Err(PipelineError::NoSamples)
        } else {
            Ok(self.samples)
        }
    }
}

/// The decoded stream brought to the inference engine's sample rate.
pub fn to_inference_rate(samples: &Vec<i32>, sample_rate: u32) -> (r: Vec<i32>)
    requires
        sample_rate > 0,
    ensures
        r@ == resample_spec(samples@, sample_rate as nat, INFERENCE_RATE as nat),
{
    resample(samples, sample_rate, INFERENCE_RATE)
}

} // verus!
