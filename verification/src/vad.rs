//! Voice activity detection: frames of audio are classified by the
//! webrtc-vad detector (trusted, adaptive, so nothing is assumed of its
//! verdicts), and everything around the calls — resampling to a supported
//! rate, framing, per-chunk aggregation into segments, and the overlap
//! helper used by the spike detector — is verified.

use vstd::prelude::*;
use webrtc_vad::Vad;

verus! {

/// Voice verdict for one time span.  `voice_ratio` is the per-mille share
/// of frames the detector called voice.
#[derive(Debug, Clone, Copy, PartialEq, Eq, Structural)]
pub struct VadSegment {
    pub start_ms: u64,
    pub end_ms: u64,
    pub voice_ratio: u32,
    pub has_voice: bool,
}

#[verifier::external_type_specification]
#[verifier::external_body]
pub struct ExVad(Vad);

/// Relies on webrtc_vad's `Vad::new_with_rate_and_mode` in `Aggressive`
/// mode; the listed rates are the ones the detector supports.
#[verifier::external_body]
fn new_vad(rate_hz: u32) -> Vad
    requires
        rate_hz == 8000 || rate_hz == 16000 || rate_hz == 32000 || rate_hz == 48000,
{
    let rate = match rate_hz {
        8000 => webrtc_vad::SampleRate::Rate8kHz,
        16000 => webrtc_vad::SampleRate::Rate16kHz,
        32000 => webrtc_vad::SampleRate::Rate32kHz,
        _ => webrtc_vad::SampleRate::Rate48kHz,
    };
    Vad::new_with_rate_and_mode(rate, webrtc_vad::VadMode::Aggressive)
}

/// Relies on webrtc_vad's `Vad::is_voice_segment`: a voice/non-voice
/// verdict, or `Err` for a frame length the detector rejects.  The verdict
/// depends on the detector's adaptive state, so nothing is promised of it.
/// The detector reads the first element, so the frame must not be empty.
#[verifier::external_body]
fn vad_classify(v: &mut Vad, frame: &[i16]) -> (r: Result<bool, ()>)
    requires
        frame@.len() >= 1,
{
    v.is_voice_segment(frame)
}

/// Number of chunks a buffer of `n` samples splits into at `spc` samples
/// per chunk, the last chunk possibly short.
pub open spec fn chunk_count(n: int, spc: int) -> int {
    (n + spc - 1) / spc
}

/// Interpolated sample between `s0` and `s1` at fraction `f`/16000,
/// computed on offset (non-negative) values so the division is exact
/// floor division.
pub open spec fn lerp_val(s0: i16, s1: i16, f: int) -> int {
    ((s0 + 32768) * (16000 - f) + (s1 + 32768) * f) / 16000 - 32768
}

/// The resampled value at target index `i` for a buffer at `orig` Hz:
/// linear interpolation between the two neighbouring source samples.
pub open spec fn resample_val(s: Seq<i16>, orig: int, i: int) -> int {
    let num = i * orig;
    let idx0 = num / 16000;
    let f = num % 16000;
    let idx1 = if idx0 + 1 < s.len() { idx0 + 1 } else { s.len() - 1 };
    lerp_val(s[idx0], s[idx1], f)
}

/// Linearly resamples a buffer to 16 kHz.
fn resample_to_16k(samples: &Vec<i16>, orig_rate: u32) -> (r: Vec<i16>)
    requires
        samples@.len() >= 1,
        orig_rate >= 1,
        samples@.len() <= 0xFFFF_FFFF_FFFF,
        orig_rate <= 0xF_FFFF,
    ensures
        r@.len() as int == samples@.len() as int * 16000 / (orig_rate as int),
        forall|i: int| 0 <= i < r@.len() ==> r@[i] as int == resample_val(
            samples@,
            orig_rate as int,
            i,
        ),
{
    let n = samples.len();
    let new_len: u64 = (n as u64) * 16000 / (orig_rate as u64);
    let mut out: Vec<i16> = Vec::new();
    let mut i: u64 = 0;
    proof {
        vstd::arithmetic::div_mod::lemma_fundamental_div_mod(
            samples@.len() as int * 16000,
            orig_rate as int,
        );
        assert(new_len as int * (orig_rate as int) <= samples@.len() as int * 16000)
            by (nonlinear_arith)
            requires
                samples@.len() as int * 16000 == (orig_rate as int) * (new_len as int) + (
                samples@.len() as int * 16000) % (orig_rate as int),
                (samples@.len() as int * 16000) % (orig_rate as int) >= 0,
        ;
    }
    while i < new_len
        invariant
            i <= new_len,
            out@.len() == i,
            n == samples@.len(),
            1 <= n <= 0xFFFF_FFFF_FFFF,
            1 <= orig_rate <= 0xF_FFFF,
            new_len as int == samples@.len() as int * 16000 / (orig_rate as int),
            new_len as int * (orig_rate as int) <= samples@.len() as int * 16000,
            forall|j: int| 0 <= j < i ==> out@[j] as int == resample_val(
                samples@,
                orig_rate as int,
                j,
            ),
        decreases new_len - i,
    {
        proof {
            assert((i as int) * (orig_rate as int) < (new_len as int) * (orig_rate as int))
                by (nonlinear_arith)
                requires i < new_len, orig_rate >= 1
            ;
            assert((i as int) * (orig_rate as int) / 16000 < samples@.len() as int)
                by (nonlinear_arith)
                requires
                    0 <= (i as int) * (orig_rate as int),
                    (i as int) * (orig_rate as int) < samples@.len() as int * 16000,
                    samples@.len() as int >= 1,
            ;
        }
        let num: u64 = i * (orig_rate as u64);
        let idx0 = (num / 16000) as usize;
        let f: u64 = num % 16000;
        let idx1 = if idx0 + 1 < n {
            idx0 + 1
        } else {
            n - 1
        };
        let a: i64 = samples[idx0] as i64 + 32768;
        let b: i64 = samples[idx1] as i64 + 32768;
        proof {
            assert(0 <= a * (16000 - f) + b * f <= 65535i64 * 16000) by (nonlinear_arith)
                requires 0 <= a <= 65535, 0 <= b <= 65535, 0 <= f < 16000
            ;
            assert((a * (16000 - f) + b * f) / 16000 <= 65535i64) by (nonlinear_arith)
                requires 0 <= a * (16000 - f) + b * f <= 65535i64 * 16000
            ;
        }
        let v: i64 = (a * (16000 - f as i64) + b * (f as i64)) / 16000 - 32768;
        out.push(v as i16);
        i += 1;
    }
    out
}

/// Segment boundaries produced over a buffer of `n` samples at `rate` Hz
/// with `spc` samples per chunk: chunk `i` spans sample `i * spc` to the
/// end of its samples, both mapped to milliseconds.
pub open spec fn segment_bounds_ok(r: Seq<VadSegment>, n: int, rate: int, spc: int) -> bool {
    &&& r.len() == chunk_count(n, spc)
    &&& forall|i: int| 0 <= i < r.len() ==> (#[trigger] r[i]).start_ms == i * spc * 1000 / rate
    &&& forall|i: int| 0 <= i < r.len() ==> (#[trigger] r[i]).end_ms == (if (i + 1) * spc < n {
        (i + 1) * spc
    } else {
        n
    }) * 1000 / rate
    &&& forall|i: int| 0 <= i < r.len() ==> (#[trigger] r[i]).voice_ratio <= 1000
    &&& forall|i: int| 0 <= i < r.len() ==> (#[trigger] r[i]).has_voice == ((#[trigger] r[i]).voice_ratio > 300)
}

/// Runs the detector over 30 ms frames, chunk by chunk, and aggregates a
/// per-mille voice ratio for each chunk.  The ratios themselves come from
/// the opaque detector; everything stated here holds whatever it answers.
fn vad_segments_at_rate(samples: &Vec<i16>, rate: u32, chunk_duration_ms: u64) -> (r: Vec<
    VadSegment,
>)
    requires
        rate == 8000 || rate == 16000 || rate == 32000 || rate == 48000,
        1 <= chunk_duration_ms <= 3_600_000,
        samples@.len() <= 0xFFFF_FFFF_FFFF,
    ensures
        segment_bounds_ok(
            r@,
            samples@.len() as int,
            rate as int,
            (rate as int) * (chunk_duration_ms as int) / 1000,
        ),
{
    let mut vad = new_vad(rate);
    let frame_samples: usize = ((rate as u64) * 30 / 1000) as usize;
    let spc: usize = ((rate as u64) * chunk_duration_ms / 1000) as usize;
    proof {
        assert((rate as int) * (chunk_duration_ms as int) / 1000 >= 8) by (nonlinear_arith)
            requires rate >= 8000, 1 <= chunk_duration_ms
        ;
        assert((rate as int) * (chunk_duration_ms as int) <= 0xF_FFFF_FFFF_FFFFi64)
            by (nonlinear_arith)
            requires rate <= 48000, chunk_duration_ms <= 3_600_000
        ;
    }
    let n = samples.len();
    let mut out: Vec<VadSegment> = Vec::new();
    let mut chunk_start: usize = 0;
    let ghost spc_i = spc as int;
    proof {
        assert(out@.len() * spc_i == 0) by (nonlinear_arith)
            requires out@.len() == 0
        ;
    }
    while chunk_start < n
        invariant
            chunk_start <= n == samples@.len() <= 0xFFFF_FFFF_FFFF,
            spc >= 8,
            spc_i == spc as int,
            frame_samples >= 1,
            rate >= 8000,
            chunk_start as int == (if out@.len() * spc_i <= samples@.len() as int {
                out@.len() * spc_i
            } else {
                samples@.len() as int
            }),
            out@.len() == 0 || (out@.len() - 1) * spc_i < samples@.len() as int,
            forall|i: int| 0 <= i < out@.len() ==> (#[trigger] out@[i]).start_ms == i * spc_i
                * 1000 / (rate as int),
            forall|i: int| 0 <= i < out@.len() ==> (#[trigger] out@[i]).end_ms == (if (i + 1)
                * spc_i < samples@.len() {
                (i + 1) * spc_i
            } else {
                samples@.len() as int
            }) * 1000 / (rate as int),
            forall|i: int| 0 <= i < out@.len() ==> (#[trigger] out@[i]).voice_ratio <= 1000,
            forall|i: int| 0 <= i < out@.len() ==> (#[trigger] out@[i]).has_voice == ((
            #[trigger] out@[i]).voice_ratio > 300),
        decreases n - chunk_start,
    {
        let chunk_end = if spc < n - chunk_start {
            chunk_start + spc
        } else {
            n
        };
        let mut voice_frames: u64 = 0;
        let mut total_frames: u64 = 0;
        let mut frame_start = chunk_start;
        while frame_samples <= chunk_end - frame_start
            invariant
                chunk_start <= frame_start <= chunk_end <= n == samples@.len(),
                frame_samples >= 1,
                voice_frames <= total_frames,
                total_frames <= frame_start,
            decreases chunk_end - frame_start,
        {
            let frame = &samples.as_slice()[frame_start..frame_start + frame_samples];
            match vad_classify(&mut vad, frame) {
                Ok(is_voice) => {
                    total_frames += 1;
                    if is_voice {
                        voice_frames += 1;
                    }
                },
                Err(_) => {},
            }
            frame_start += frame_samples;
        }
        let voice_ratio: u32 = if total_frames > 0 {
            proof {
                assert((voice_frames as int) * 1000 <= (total_frames as int) * 1000)
                    by (nonlinear_arith)
                    requires voice_frames as int <= total_frames as int
                ;
                assert((voice_frames as int) * 1000 / (total_frames as int) <= 1000)
                    by (nonlinear_arith)
                    requires
                        (voice_frames as int) * 1000 <= (total_frames as int) * 1000,
                        total_frames as int >= 1,
                ;
            }
            (voice_frames * 1000 / total_frames) as u32
        } else {
            0
        };
        let ghost k = out@.len() as int;
        proof {
            assert(k * spc_i == chunk_start as int);
            assert(k * spc_i * 1000 <= 0xFFFF_FFFF_FFFFi64 * 1000) by (nonlinear_arith)
                requires 0 <= k * spc_i <= 0xFFFF_FFFF_FFFFi64
            ;
            assert((k + 1) * spc_i == k * spc_i + spc_i) by (nonlinear_arith);
        }
        let start_ms: u64 = (chunk_start as u64) * 1000 / (rate as u64);
        let end_ms: u64 = (chunk_end as u64) * 1000 / (rate as u64);
        out.push(VadSegment { start_ms, end_ms, voice_ratio, has_voice: voice_ratio > 300 });
        chunk_start = chunk_end;
    }
    proof {
        if samples@.len() == 0 {
            assert(out@.len() == 0);
            assert(chunk_count(0, spc_i) == (spc_i - 1) / spc_i);
            assert((spc_i - 1) / spc_i == 0) by (nonlinear_arith)
                requires spc_i >= 1
            ;
        } else {
            assert(out@.len() >= 1);
            let k = out@.len() as int;
            assert(k * spc_i >= samples@.len() as int);
            assert((k - 1) * spc_i < samples@.len() as int);
            assert(k == chunk_count(samples@.len() as int, spc_i)) by (nonlinear_arith)
                requires
                    k * spc_i >= samples@.len() as int,
                    (k - 1) * spc_i < samples@.len() as int,
                    spc_i >= 1,
                    samples@.len() as int >= 1,
            ;
        }
    }
    out
}

/// The segment table the classifier stage owes for a buffer: at a rate
/// the detector supports natively, one segment per chunk with exact
/// millisecond bounds over the buffer itself; at any other rate, the same
/// over the buffer resampled to 16 kHz (resampling preserves duration, so
/// the reported times stay in the original clip's timeline), empty only
/// when the resampled buffer is empty.
pub open spec fn classifier_segments_ok(
    segs: Seq<VadSegment>,
    n_samples: int,
    sample_rate: u32,
    chunk_duration_ms: u64,
) -> bool {
    if sample_rate == 8000 || sample_rate == 16000 || sample_rate == 32000 || sample_rate
        == 48000 {
        segment_bounds_ok(
            segs,
            n_samples,
            sample_rate as int,
            (sample_rate as int) * (chunk_duration_ms as int) / 1000,
        )
    } else {
        let rlen = n_samples * 16000 / (sample_rate as int);
        if rlen == 0 {
            segs.len() == 0
        } else {
            segment_bounds_ok(segs, rlen, 16000, 16000 * (chunk_duration_ms as int) / 1000)
        }
    }
}

/// Classifies a buffer into voice segments of the configured chunk length.
/// Rates the detector does not support natively are first resampled to
/// 16 kHz; durations are preserved, so reported times stay in the
/// original clip's timeline.  Whatever the detector answers frame by
/// frame, the result is the full per-chunk segment table.
pub fn detect_voice_activity(samples: &Vec<i16>, sample_rate: u32, chunk_duration_ms: u64) -> (r:
    Result<Vec<VadSegment>, String>)
    requires
        samples@.len() >= 1,
        1 <= chunk_duration_ms <= 3_600_000,
        1000 <= sample_rate <= 0xF_FFFF,
        samples@.len() <= 0xFF_FFFF_FFFF,
    ensures
        r is Ok,
        r matches Ok(segs) ==> {
            &&& classifier_segments_ok(segs@, samples@.len() as int, sample_rate, chunk_duration_ms)
            &&& segs@.len() <= samples@.len() * 16
            &&& forall|i: int|
                0 <= i < segs@.len() ==> (#[trigger] segs@[i]).voice_ratio <= 1000
            &&& forall|i: int|
                0 <= i < segs@.len() ==> (#[trigger] segs@[i]).has_voice == ((
                #[trigger] segs@[i]).voice_ratio > 300)
        },
{
    if sample_rate == 8000 || sample_rate == 16000 || sample_rate == 32000 || sample_rate == 48000
    {
        let segs = vad_segments_at_rate(samples, sample_rate, chunk_duration_ms);
        proof {
            let spc = (sample_rate as int) * (chunk_duration_ms as int) / 1000;
            vstd::arithmetic::mul::lemma_mul_inequality(1, chunk_duration_ms as int,
                sample_rate as int);
            assert((sample_rate as int) * (chunk_duration_ms as int) >= sample_rate as int);
            vstd::arithmetic::div_mod::lemma_div_is_ordered(
                8000,
                (sample_rate as int) * (chunk_duration_ms as int),
                1000,
            );
            assert(spc >= 8);
            assert(chunk_count(samples@.len() as int, spc) <= samples@.len() as int)
                by (nonlinear_arith)
                requires spc >= 1, samples@.len() as int >= 0
            ;
            assert(samples@.len() as int <= samples@.len() as int * 16) by (nonlinear_arith)
                requires samples@.len() as int >= 0
            ;
        }
        Ok(segs)
    } else {
        let resampled = resample_to_16k(samples, sample_rate);
        proof {
            assert(samples@.len() as int * 16000 / (sample_rate as int) <= samples@.len() as int
                * 16) by (nonlinear_arith)
                requires sample_rate as int >= 1000, samples@.len() as int >= 0
            ;
        }
        if resampled.len() == 0 {
            return Ok(Vec::new());
        }
        let segs = vad_segments_at_rate(&resampled, 16000, chunk_duration_ms);
        proof {
            let spc = 16000 * (chunk_duration_ms as int) / 1000;
            vstd::arithmetic::mul::lemma_mul_inequality(1, chunk_duration_ms as int, 16000);
            vstd::arithmetic::div_mod::lemma_div_is_ordered(
                16000,
                16000 * (chunk_duration_ms as int),
                1000,
            );
            assert(spc >= 16);
            assert(chunk_count(resampled@.len() as int, spc) <= resampled@.len() as int)
                by (nonlinear_arith)
                requires spc >= 1, resampled@.len() as int >= 0
            ;
        }
        Ok(segs)
    }
}

/// A segment overlaps a half-open time range.
pub open spec fn seg_overlaps(seg: VadSegment, start_ms: int, end_ms: int) -> bool {
    seg.start_ms < end_ms && seg.end_ms > start_ms
}

/// Number of segments overlapping the range.
pub open spec fn overlap_count(segs: Seq<VadSegment>, start_ms: int, end_ms: int) -> int
    decreases segs.len(),
{
    if segs.len() == 0 {
        0
    } else {
        overlap_count(segs.drop_last(), start_ms, end_ms) + if seg_overlaps(
            segs.last(),
            start_ms,
            end_ms,
        ) {
            1int
        } else {
            0int
        }
    }
}

/// Sum of the voice ratios of the segments overlapping the range.
pub open spec fn overlap_ratio_sum(segs: Seq<VadSegment>, start_ms: int, end_ms: int) -> int
    decreases segs.len(),
{
    if segs.len() == 0 {
        0
    } else {
        overlap_ratio_sum(segs.drop_last(), start_ms, end_ms) + if seg_overlaps(
            segs.last(),
            start_ms,
            end_ms,
        ) {
            segs.last().voice_ratio as int
        } else {
            0
        }
    }
}

/// The average per-mille voice ratio over the overlapping segments; 0 with
/// no overlap.
pub open spec fn avg_overlap_ratio(segs: Seq<VadSegment>, start_ms: int, end_ms: int) -> int {
    if overlap_count(segs, start_ms, end_ms) == 0 {
        0
    } else {
        overlap_ratio_sum(segs, start_ms, end_ms) / overlap_count(segs, start_ms, end_ms)
    }
}

pub proof fn lemma_overlap_sums(segs: Seq<VadSegment>, start_ms: int, end_ms: int)
    requires
        forall|i: int| 0 <= i < segs.len() ==> (#[trigger] segs[i]).voice_ratio <= 1000,
    ensures
        0 <= overlap_count(segs, start_ms, end_ms) <= segs.len(),
        0 <= overlap_ratio_sum(segs, start_ms, end_ms) <= overlap_count(segs, start_ms, end_ms)
            * 1000,
    decreases segs.len(),
{
    if segs.len() > 0 {
        lemma_overlap_sums(segs.drop_last(), start_ms, end_ms);
        assert(segs.last() == segs[segs.len() - 1]);
        let c = overlap_count(segs.drop_last(), start_ms, end_ms);
        assert(c * 1000 + 1000 == (c + 1) * 1000) by (nonlinear_arith);
    }
}

/// Averages the voice ratio of every segment overlapping `[start, end)`:
/// `(false, 0)` when none overlaps, else the average with a 25% cutoff.
pub fn filter_spikes_by_voice(
    vad_segments: &Vec<VadSegment>,
    spike_start_ms: u64,
    spike_end_ms: u64,
) -> (r: (bool, u32))
    requires
        vad_segments@.len() <= 0xFFFF_FFFF_FFFF,
        forall|i: int| 0 <= i < vad_segments@.len() ==> (#[trigger] vad_segments@[i]).voice_ratio
            <= 1000,
    ensures
        r.1 == avg_overlap_ratio(vad_segments@, spike_start_ms as int, spike_end_ms as int),
        r.0 == (overlap_count(vad_segments@, spike_start_ms as int, spike_end_ms as int) > 0
            && avg_overlap_ratio(vad_segments@, spike_start_ms as int, spike_end_ms as int) > 250),
        r.1 <= 1000,
{
    let n = vad_segments.len();
    let mut total: u64 = 0;
    let mut count: u64 = 0;
    let mut i: usize = 0;
    proof {
        assert(vad_segments@.subrange(0, 0) =~= Seq::<VadSegment>::empty());
    }
    while i < n
        invariant
            i <= n == vad_segments@.len() <= 0xFFFF_FFFF_FFFF,
            forall|k: int| 0 <= k < vad_segments@.len() ==> (#[trigger] vad_segments@[k]).voice_ratio
                <= 1000,
            count == overlap_count(
                vad_segments@.subrange(0, i as int),
                spike_start_ms as int,
                spike_end_ms as int,
            ),
            total == overlap_ratio_sum(
                vad_segments@.subrange(0, i as int),
                spike_start_ms as int,
                spike_end_ms as int,
            ),
            count <= i,
            total <= count * 1000,
        decreases n - i,
    {
        proof {
            let pre = vad_segments@.subrange(0, i as int);
            let cur = vad_segments@.subrange(0, i as int + 1);
            assert(cur.drop_last() =~= pre);
            assert(cur.last() == vad_segments@[i as int]);
            assert((count + 1) * 1000 == count * 1000 + 1000) by (nonlinear_arith);
            assert(count * 1000 <= 0xFFFF_FFFF_FFFFi64 * 1000) by (nonlinear_arith)
                requires count <= 0xFFFF_FFFF_FFFFi64
            ;
        }
        let seg = vad_segments[i];
        if seg.start_ms < spike_end_ms && seg.end_ms > spike_start_ms {
            total += seg.voice_ratio as u64;
            count += 1;
        }
        i += 1;
    }
    proof {
        assert(vad_segments@.subrange(0, n as int) =~= vad_segments@);
        lemma_overlap_sums(vad_segments@, spike_start_ms as int, spike_end_ms as int);
    }
    if count == 0 {
        return (false, 0);
    }
    let avg = (total / count) as u32;
    proof {
        assert(total / count <= 1000) by (nonlinear_arith)
            requires total <= count * 1000, count >= 1
        ;
    }
    (avg > 250, avg)
}

} // verus!
