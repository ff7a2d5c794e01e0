//! Audio metric extraction and spike detection.  Amplitudes are in
//! 1/32768 steps of full scale, times in milliseconds, quality in whole
//! points (0..=100) and spike scores in centi-points (0..=10000).

use crate::stats::{
    lemma_sorted_version_ensures, lemma_sqrt_floor_bounds, median, median_spec, percentile_spec,
    percentile_value, sorted_version, sqrt_floor, standard_deviation, std_dev_spec,
};
use crate::vad::{
    avg_overlap_ratio, detect_voice_activity, filter_spikes_by_voice, overlap_count, VadSegment,
};
use vstd::prelude::*;
use vstd::seq_lib::group_to_multiset_ensures;

verus! {

/// One fixed-length span of audio with its loudness metrics.
#[derive(Debug, Clone, Copy, PartialEq, Eq, Structural)]
pub struct AudioChunk {
    pub start_ms: u64,
    pub end_ms: u64,
    pub rms: u32,
    pub peak: u32,
}

/// A detected loud moment, scored in centi-points.
#[derive(Debug, Clone, Copy, PartialEq, Eq, Structural)]
pub struct AudioSpike {
    pub start_ms: u64,
    pub end_ms: u64,
    pub peak_rms: u32,
    pub score: u32,
}

/// Full outcome of the audio stage.
#[derive(Debug, Clone)]
pub struct AudioAnalysisResult {
    pub chunks: Vec<AudioChunk>,
    pub baseline_rms: u32,
    pub std_dev: u32,
    pub threshold: u32,
    pub spikes: Vec<AudioSpike>,
}

/// Audio stage settings.  Sensitivity is in tenths (10..=40 standing for
/// 1.0..=4.0).
#[derive(Debug, Clone, Copy, PartialEq, Eq, Structural)]
pub struct AudioAnalyzeSettings {
    pub sensitivity_tenths: u32,
    pub min_duration_ms: u64,
    pub merge_gap_ms: u64,
    pub chunk_duration_ms: u64,
    pub sample_rate: u32,
}

impl AudioAnalyzeSettings {
    /// The ranges the audio stage assumes of its settings.
    pub open spec fn wf(self) -> bool {
        &&& 10 <= self.sensitivity_tenths <= 40
        &&& 2 <= self.chunk_duration_ms <= 60000
        &&& self.min_duration_ms <= 0xFFFF_FFFF
        &&& self.merge_gap_ms <= 0xFFFF_FFFF
    }
}

impl Default for AudioAnalyzeSettings {
    /// Sensitivity 2.0, two-second minimum, three-second merge gap,
    /// half-second chunks at 22050 Hz.
    fn default() -> (r: Self)
        ensures
            r.sensitivity_tenths == 20,
            r.min_duration_ms == 2000,
            r.merge_gap_ms == 3000,
            r.chunk_duration_ms == 500,
            r.sample_rate == 22050,
            r.wf(),
    {
        AudioAnalyzeSettings {
            sensitivity_tenths: 20,
            min_duration_ms: 2000,
            merge_gap_ms: 3000,
            chunk_duration_ms: 500,
            sample_rate: 22050,
        }
    }
}

/// Sum of squared sample values.
pub open spec fn sum_squares(s: Seq<i16>) -> int
    decreases s.len(),
{
    if s.len() == 0 {
        0
    } else {
        sum_squares(s.drop_last()) + (s.last() as int) * (s.last() as int)
    }
}

/// Magnitude of a sample.
pub open spec fn abs_sample(v: i16) -> int {
    if v < 0 {
        -(v as int)
    } else {
        v as int
    }
}

/// Largest sample magnitude.
pub open spec fn peak_of(s: Seq<i16>) -> int
    decreases s.len(),
{
    if s.len() == 0 {
        0
    } else if abs_sample(s.last()) > peak_of(s.drop_last()) {
        abs_sample(s.last())
    } else {
        peak_of(s.drop_last())
    }
}

/// Root-mean-square amplitude: the integer square root of the mean
/// squared sample value.
pub open spec fn rms_of(s: Seq<i16>) -> int {
    if s.len() == 0 {
        0
    } else {
        sqrt_floor((sum_squares(s) / s.len() as int) as nat) as int
    }
}

proof fn lemma_sum_squares_bound(s: Seq<i16>)
    ensures
        0 <= sum_squares(s) <= s.len() * 0x4000_0000,
    decreases s.len(),
{
    if s.len() > 0 {
        lemma_sum_squares_bound(s.drop_last());
        let v = s.last() as int;
        assert(0 <= v * v <= 0x4000_0000) by (nonlinear_arith)
            requires -32768 <= v <= 32767
        ;
        assert((s.len() - 1) * 0x4000_0000 + 0x4000_0000 == s.len() * 0x4000_0000)
            by (nonlinear_arith);
    }
}

/// Computes RMS and peak amplitude of one chunk of samples.
pub fn rms_peak_of(chunk: &[i16]) -> (r: (u32, u32))
    ensures
        r.0 == rms_of(chunk@),
        r.1 == peak_of(chunk@),
        r.0 <= 32768,
        r.1 <= 32768,
{
    let n = chunk.len();
    let mut sum_sq: u128 = 0;
    let mut peak: u32 = 0;
    let mut i: usize = 0;
    proof {
        assert(chunk@.subrange(0, 0) =~= Seq::<i16>::empty());
    }
    while i < n
        invariant
            i <= n == chunk@.len(),
            sum_sq == sum_squares(chunk@.subrange(0, i as int)),
            peak == peak_of(chunk@.subrange(0, i as int)),
            peak <= 32768,
        decreases n - i,
    {
        proof {
            let pre = chunk@.subrange(0, i as int);
            let cur = chunk@.subrange(0, i as int + 1);
            assert(cur.drop_last() =~= pre);
            assert(cur.last() == chunk@[i as int]);
            lemma_sum_squares_bound(pre);
            let v = chunk@[i as int] as int;
            assert(0 <= v * v <= 0x4000_0000) by (nonlinear_arith)
                requires -32768 <= v <= 32767
            ;
        }
        let s = chunk[i];
        let a: u32 = if s < 0 {
            (-(s as i32)) as u32
        } else {
            s as u32
        };
        let sq: u128 = (s as i64 * s as i64) as u128;
        proof {
            assert((chunk@[i as int] as i64) * (chunk@[i as int] as i64) == (chunk@[i as int] as int)
                * (chunk@[i as int] as int)) by (nonlinear_arith);
        }
        sum_sq = sum_sq + sq;
        if a > peak {
            peak = a;
        }
        i += 1;
    }
    proof {
        assert(chunk@.subrange(0, n as int) =~= chunk@);
    }
    if n == 0 {
        return (0, 0);
    }
    let mean: u128 = sum_sq / (n as u128);
    proof {
        lemma_sum_squares_bound(chunk@);
        assert(sum_sq / (n as u128) <= 0x4000_0000) by (nonlinear_arith)
            requires
                n >= 1,
                0 <= sum_sq <= (n as int) * 0x4000_0000,
        ;
    }
    let rms64 = crate::stats::isqrt(mean as u64);
    proof {
        lemma_sqrt_floor_bounds(mean as nat);
        assert(sqrt_floor(mean as nat) <= 32768) by {
            let s = sqrt_floor(mean as nat);
            if s > 32768 {
                assert(s * s > 0x4000_0000) by (nonlinear_arith)
                    requires s >= 32769
                ;
            }
        }
    }
    (rms64 as u32, peak)
}

/// Number of chunks a buffer splits into.
pub open spec fn audio_chunk_count(n: int, spc: int) -> int {
    (n + spc - 1) / spc
}

/// The sample range of chunk `i`.
pub open spec fn chunk_slice(s: Seq<i16>, spc: int, i: int) -> Seq<i16> {
    s.subrange(i * spc, if (i + 1) * spc < s.len() { (i + 1) * spc } else { s.len() as int })
}

/// The chunk record at index `i`: millisecond bounds from the sample
/// positions, metrics from the chunk's own samples.
pub open spec fn audio_chunk_spec(s: Seq<i16>, spc: int, rate: int, i: int) -> AudioChunk {
    AudioChunk {
        start_ms: (i * spc * 1000 / rate) as u64,
        end_ms: ((i + 1) * spc * 1000 / rate) as u64,
        rms: rms_of(chunk_slice(s, spc, i)) as u32,
        peak: peak_of(chunk_slice(s, spc, i)) as u32,
    }
}

/// Chunk starts advance by at least one millisecond when a chunk holds at
/// least a millisecond of samples.
proof fn lemma_chunk_ms_monotone(spc: int, rate: int, i: int)
    requires
        spc >= 1,
        rate >= 1,
        spc * 1000 >= rate,
        i >= 0,
    ensures
        0 <= i * spc * 1000 / rate,
        i * spc * 1000 / rate < (i + 1) * spc * 1000 / rate,
{
    let q = spc * 1000 / rate;
    vstd::arithmetic::div_mod::lemma_fundamental_div_mod(spc * 1000, rate);
    vstd::arithmetic::div_mod::lemma_mod_bound(spc * 1000, rate);
    assert(q * rate <= spc * 1000) by (nonlinear_arith)
        requires
            spc * 1000 == rate * q + (spc * 1000) % rate,
            (spc * 1000) % rate >= 0,
    ;
    assert(q * rate + rate > spc * 1000) by (nonlinear_arith)
        requires
            spc * 1000 == rate * q + (spc * 1000) % rate,
            (spc * 1000) % rate < rate,
    ;
    assert(q >= 1) by (nonlinear_arith)
        requires q * rate + rate > spc * 1000, spc * 1000 >= rate, rate >= 1, q >= 0
    ;
    assert(i * spc * 1000 >= 0) by (nonlinear_arith)
        requires i >= 0, spc >= 1
    ;
    vstd::arithmetic::div_mod::lemma_div_is_ordered(0, i * spc * 1000, rate);
    vstd::arithmetic::div_mod::lemma_hoist_over_denominator(i * spc * 1000, q, rate as nat);
    assert((i + 1) * spc * 1000 == i * spc * 1000 + spc * 1000) by (nonlinear_arith);
    assert(i * spc * 1000 + q * rate <= (i + 1) * spc * 1000) by (nonlinear_arith)
        requires q * rate <= spc * 1000, (i + 1) * spc * 1000 == i * spc * 1000 + spc * 1000
    ;
    vstd::arithmetic::div_mod::lemma_div_is_ordered(
        i * spc * 1000 + q * rate,
        (i + 1) * spc * 1000,
        rate,
    );
}

/// Relies on rayon's `par_chunks`, `map` and `collect`: an indexed
/// parallel iterator collects in input order, so the result equals the
/// sequential map of `rms_peak_of` (verified above) over the chunks.
#[verifier::external_body]
fn par_chunk_metrics(samples: &Vec<i16>, spc: usize) -> (r: Vec<(u32, u32)>)
    requires
        spc >= 1,
    ensures
        r@.len() == audio_chunk_count(samples@.len() as int, spc as int),
        forall|i: int| 0 <= i < r@.len() ==> (#[trigger] r@[i]).0 == rms_of(
            chunk_slice(samples@, spc as int, i),
        ) && r@[i].1 == peak_of(chunk_slice(samples@, spc as int, i)) && r@[i].0 <= 32768
            && r@[i].1 <= 32768,
{
    let it = rayon::slice::ParallelSlice::par_chunks(samples.as_slice(), spc);
    let mapped = rayon::iter::ParallelIterator::map(it, |c: &[i16]| rms_peak_of(c));
    rayon::iter::ParallelIterator::collect::<Vec<(u32, u32)>>(mapped)
}

/// Splits the buffer into fixed-length chunks and computes each chunk's
/// metrics, in parallel with the output in input order.
#[verifier::rlimit(60)]
pub fn calculate_chunks_enhanced(samples: &Vec<i16>, samples_per_chunk: usize, sample_rate: u32) -> (r:
    Vec<AudioChunk>)
    requires
        1 <= samples_per_chunk <= 0xFFFF_FFFF,
        1 <= sample_rate,
        (samples_per_chunk as int) * 1000 >= sample_rate,
        samples@.len() <= 0xFF_FFFF_FFFF,
    ensures
        r@.len() == audio_chunk_count(samples@.len() as int, samples_per_chunk as int),
        forall|i: int| 0 <= i < r@.len() ==> (#[trigger] r@[i]) == audio_chunk_spec(
            samples@,
            samples_per_chunk as int,
            sample_rate as int,
            i,
        ),
        forall|i: int| 0 <= i < r@.len() ==> (#[trigger] r@[i]).rms <= 32768 && r@[i].peak
            <= 32768,
        forall|i: int| 0 <= i < r@.len() ==> (#[trigger] r@[i]).start_ms < r@[i].end_ms,
        forall|i: int| 0 <= i && i + 1 < r@.len() ==> (#[trigger] r@[i]).end_ms == r@[i
            + 1].start_ms,
{
    let metrics = par_chunk_metrics(samples, samples_per_chunk);
    let m = metrics.len();
    let mut out: Vec<AudioChunk> = Vec::new();
    let ghost spc_i = samples_per_chunk as int;
    let ghost rate_i = sample_rate as int;
    proof {
        assert(audio_chunk_count(samples@.len() as int, spc_i) * spc_i < samples@.len() + spc_i)
            by (nonlinear_arith)
            requires spc_i >= 1, samples@.len() >= 0
        ;
    }
    let mut i: usize = 0;
    while i < m
        invariant
            i <= m == metrics@.len(),
            m == audio_chunk_count(samples@.len() as int, spc_i),
            m * spc_i < samples@.len() + spc_i,
            samples@.len() <= 0xFF_FFFF_FFFF,
            1 <= samples_per_chunk <= 0xFFFF_FFFF,
            spc_i == samples_per_chunk as int,
            rate_i == sample_rate as int,
            1 <= rate_i,
            spc_i * 1000 >= rate_i,
            forall|k: int| 0 <= k < metrics@.len() ==> (#[trigger] metrics@[k]).0 == rms_of(
                chunk_slice(samples@, spc_i, k),
            ) && metrics@[k].1 == peak_of(chunk_slice(samples@, spc_i, k)) && metrics@[k].0
                <= 32768 && metrics@[k].1 <= 32768,
            out@.len() == i,
            forall|k: int| 0 <= k < i ==> (#[trigger] out@[k]) == audio_chunk_spec(
                samples@,
                spc_i,
                rate_i,
                k,
            ),
            forall|k: int| 0 <= k < i ==> (#[trigger] out@[k]).rms <= 32768 && out@[k].peak
                <= 32768,
            forall|k: int| 0 <= k < i ==> (#[trigger] out@[k]).start_ms < out@[k].end_ms,
            forall|k: int| 0 <= k && k + 1 < i ==> (#[trigger] out@[k]).end_ms == out@[k + 1].start_ms,
        decreases m - i,
    {
        proof {
            assert((i as int + 1) * spc_i <= m * spc_i) by (nonlinear_arith)
                requires i + 1 <= m, spc_i >= 0
            ;
            assert((i as int) * spc_i >= 0) by (nonlinear_arith)
                requires i >= 0, spc_i >= 0
            ;
            assert((i as int + 1) * spc_i == (i as int) * spc_i + spc_i) by (nonlinear_arith);
            assert((i as int + 1) * spc_i * 1000 < 0x7FFF_FFFF_FFFF_FFFF) by (nonlinear_arith)
                requires
                    0 <= (i as int + 1) * spc_i,
                    (i as int + 1) * spc_i < samples@.len() + 2 * spc_i,
                    samples@.len() <= 0xFF_FFFF_FFFF,
                    spc_i <= 0xFFFF_FFFF,
            ;
            // Chunk bounds advance: the start of the next chunk is the end
            // of this one, and each chunk spans at least one millisecond.
            lemma_chunk_ms_monotone(spc_i, rate_i, i as int);
        }
        let start_ms: u64 = ((i as u64) * (samples_per_chunk as u64) * 1000) / (sample_rate as u64);
        let end_ms: u64 = (((i as u64) + 1) * (samples_per_chunk as u64) * 1000) / (sample_rate
            as u64);
        let (rms, peak) = (metrics[i].0, metrics[i].1);
        let ghost old_out = out@;
        out.push(AudioChunk { start_ms, end_ms, rms, peak });
        proof {
            assert(out@[i as int] == audio_chunk_spec(samples@, spc_i, rate_i, i as int));
            if i >= 1 {
                assert(out@[i as int - 1] == audio_chunk_spec(samples@, spc_i, rate_i, i as int
                    - 1));
                assert(out@[i as int - 1].end_ms == out@[i as int].start_ms);
            }
        }
        i += 1;
    }
    out
}

/// Chunk lists the detector accepts: strictly positive spans, laid end to
/// start in time order, with metrics in range.
pub open spec fn chunks_wf(chunks: Seq<AudioChunk>) -> bool {
    &&& forall|i: int| 0 <= i < chunks.len() ==> (#[trigger] chunks[i]).start_ms < chunks[i].end_ms
    &&& forall|i: int| 0 <= i && i + 1 < chunks.len() ==> (#[trigger] chunks[i]).end_ms
        <= chunks[i + 1].start_ms
    &&& forall|i: int| 0 <= i < chunks.len() ==> (#[trigger] chunks[i]).rms <= 32768
    &&& forall|i: int| 0 <= i < chunks.len() ==> (#[trigger] chunks[i]).peak <= 32768
}

/// Absolute RMS difference between a chunk and its predecessor.
pub open spec fn delta_at(chunks: Seq<AudioChunk>, i: int) -> int {
    if chunks[i].rms >= chunks[i - 1].rms {
        chunks[i].rms - chunks[i - 1].rms
    } else {
        chunks[i - 1].rms - chunks[i].rms
    }
}

/// Sum of the absolute RMS steps over the whole chunk list.
pub open spec fn total_delta(chunks: Seq<AudioChunk>) -> int
    decreases chunks.len(),
{
    if chunks.len() <= 1 {
        0
    } else {
        total_delta(chunks.drop_last()) + delta_at(chunks, chunks.len() - 1)
    }
}

/// Criterion: RMS above the detection threshold.
pub open spec fn above_threshold(chunks: Seq<AudioChunk>, i: int, threshold: u32) -> bool {
    chunks[i].rms > threshold
}

/// Criterion: the RMS step to this chunk exceeds 1.5 times the average
/// step, compared without rounding.
pub open spec fn sudden_change(chunks: Seq<AudioChunk>, i: int) -> bool {
    2 * delta_at(chunks, i) * (chunks.len() - 1) > 3 * total_delta(chunks)
}

/// Criterion: crest factor above 2 (peak more than twice the RMS), with
/// near-silent chunks (RMS at most 1/1000 of full scale) exempt.
pub open spec fn has_transient(chunks: Seq<AudioChunk>, i: int) -> bool {
    chunks[i].rms >= 33 && chunks[i].peak > 2 * chunks[i].rms
}

/// Criterion: the next chunk stays above 1.2 times the baseline.
pub open spec fn sustained(chunks: Seq<AudioChunk>, i: int, baseline: u32) -> bool {
    i + 1 < chunks.len() && 10 * chunks[i + 1].rms > 12 * baseline
}

/// Criterion: RMS more than 1.5 standard deviations above the baseline.
pub open spec fn well_above_baseline(
    chunks: Seq<AudioChunk>,
    i: int,
    baseline: u32,
    std_dev: u32,
) -> bool {
    2 * chunks[i].rms > 2 * baseline + 3 * std_dev
}

/// The average voice ratio of the segments overlapping chunk `i`.
pub open spec fn voice_ratio_at(chunks: Seq<AudioChunk>, vad: Seq<VadSegment>, i: int) -> int {
    avg_overlap_ratio(vad, chunks[i].start_ms as int, chunks[i].end_ms as int)
}

/// Whether the overlap helper reports significant voice for chunk `i`.
pub open spec fn has_voice_at(chunks: Seq<AudioChunk>, vad: Seq<VadSegment>, i: int) -> bool {
    overlap_count(vad, chunks[i].start_ms as int, chunks[i].end_ms as int) > 0 && voice_ratio_at(
        chunks,
        vad,
        i,
    ) > 250
}

/// Criterion: voice detected, either by the overlap cutoff or a ratio
/// above 20%.
pub open spec fn voice_detected(chunks: Seq<AudioChunk>, vad: Seq<VadSegment>, i: int) -> bool {
    has_voice_at(chunks, vad, i) || voice_ratio_at(chunks, vad, i) > 200
}

/// Quality points of chunk `i`: fixed weights for each satisfied
/// criterion, voice weighted highest.
pub open spec fn quality_at(
    chunks: Seq<AudioChunk>,
    vad: Seq<VadSegment>,
    i: int,
    baseline: u32,
    threshold: u32,
    std_dev: u32,
) -> int {
    (if above_threshold(chunks, i, threshold) { 20int } else { 0int })
    + (if sudden_change(chunks, i) { 15int } else { 0int })
    + (if has_transient(chunks, i) { 10int } else { 0int })
    + (if sustained(chunks, i, baseline) { 15int } else { 0int })
    + (if well_above_baseline(chunks, i, baseline, std_dev) { 10int } else { 0int })
    + (if voice_detected(chunks, vad, i) { 30int } else { 0int })
}

/// How many of the six criteria hold for chunk `i`.
pub open spec fn criteria_met(
    chunks: Seq<AudioChunk>,
    vad: Seq<VadSegment>,
    i: int,
    baseline: u32,
    threshold: u32,
    std_dev: u32,
) -> int {
    (if above_threshold(chunks, i, threshold) { 1int } else { 0int })
    + (if sudden_change(chunks, i) { 1int } else { 0int })
    + (if has_transient(chunks, i) { 1int } else { 0int })
    + (if sustained(chunks, i, baseline) { 1int } else { 0int })
    + (if well_above_baseline(chunks, i, baseline, std_dev) { 1int } else { 0int })
    + (if voice_detected(chunks, vad, i) { 1int } else { 0int })
}

/// A chunk is a spike candidate when it is above the threshold and either
/// carries voice or meets at least three criteria in all.
pub open spec fn is_candidate(
    chunks: Seq<AudioChunk>,
    vad: Seq<VadSegment>,
    i: int,
    baseline: u32,
    threshold: u32,
    std_dev: u32,
) -> bool {
    above_threshold(chunks, i, threshold) && (voice_detected(chunks, vad, i) || criteria_met(
        chunks,
        vad,
        i,
        baseline,
        threshold,
        std_dev,
    ) >= 3)
}

/// An open group of adjacent candidate chunks.
#[derive(Debug, Clone, Copy, PartialEq, Eq, Structural)]
pub struct SpikeGroup {
    pub start_idx: usize,
    pub end_idx: usize,
    pub peak_rms: u32,
    pub quality: u32,
    pub voice_ratio: u32,
}

/// A group over a well-formed chunk list, with its metrics in range.
pub open spec fn group_wf(g: SpikeGroup, chunks: Seq<AudioChunk>) -> bool {
    &&& g.start_idx <= g.end_idx < chunks.len()
    &&& g.peak_rms <= 32768
    &&& g.quality <= 100
    &&& g.voice_ratio <= 1000
}

/// The spike score: intensity above baseline (clamped to 40 points, 20
/// when the baseline is silent), quality above the 40-point floor at 0.6
/// each, and 2 centi-points per voice per-mille.
pub open spec fn spike_score(peak_rms: u32, baseline: u32, quality: u32, voice_ratio: u32) -> int {
    let intensity = if baseline > 0 {
        let x = (peak_rms * 3000) / (baseline as int) - 3000;
        if x < 0 {
            0
        } else if x > 4000 {
            4000
        } else {
            x
        }
    } else {
        2000
    };
    let quality_bonus = if quality > 40 {
        (quality - 40) * 60
    } else {
        0
    };
    let voice_bonus = voice_ratio * 2;
    let total = intensity + quality_bonus + voice_bonus;
    if total > 10000 {
        10000
    } else {
        total
    }
}

/// The spike a closed group becomes.
pub open spec fn spike_of_group(chunks: Seq<AudioChunk>, g: SpikeGroup, baseline: u32) -> AudioSpike {
    AudioSpike {
        start_ms: chunks[g.start_idx as int].start_ms,
        end_ms: chunks[g.end_idx as int].end_ms,
        peak_rms: g.peak_rms,
        score: spike_score(g.peak_rms, baseline, g.quality, g.voice_ratio) as u32,
    }
}

/// What a closed group emits: its spike if it lasts the minimum duration
/// and reached quality 40, else nothing.
pub open spec fn emit_group(
    chunks: Seq<AudioChunk>,
    g: SpikeGroup,
    baseline: u32,
    min_duration_ms: u64,
) -> Seq<AudioSpike> {
    if chunks[g.end_idx as int].end_ms - chunks[g.start_idx as int].start_ms
        >= min_duration_ms && g.quality >= 40 {
        seq![spike_of_group(chunks, g, baseline)]
    } else {
        Seq::empty()
    }
}

/// A fresh group holding only candidate chunk `i`.
pub open spec fn fresh_group(
    chunks: Seq<AudioChunk>,
    vad: Seq<VadSegment>,
    i: int,
    baseline: u32,
    threshold: u32,
    std_dev: u32,
) -> SpikeGroup {
    SpikeGroup {
        start_idx: i as usize,
        end_idx: i as usize,
        peak_rms: chunks[i].rms,
        quality: quality_at(chunks, vad, i, baseline, threshold, std_dev) as u32,
        voice_ratio: voice_ratio_at(chunks, vad, i) as u32,
    }
}

/// A group extended by candidate chunk `i`: the end moves, the peak RMS,
/// quality and voice ratio keep their maxima.
pub open spec fn merge_group(
    chunks: Seq<AudioChunk>,
    vad: Seq<VadSegment>,
    g: SpikeGroup,
    i: int,
    baseline: u32,
    threshold: u32,
    std_dev: u32,
) -> SpikeGroup {
    let q = quality_at(chunks, vad, i, baseline, threshold, std_dev);
    let vr = voice_ratio_at(chunks, vad, i);
    SpikeGroup {
        start_idx: g.start_idx,
        end_idx: i as usize,
        peak_rms: if chunks[i].rms > g.peak_rms {
            chunks[i].rms
        } else {
            g.peak_rms
        },
        quality: if q > g.quality {
            q as u32
        } else {
            g.quality
        },
        voice_ratio: if vr > g.voice_ratio {
            vr as u32
        } else {
            g.voice_ratio
        },
    }
}

/// Whether candidate chunk `i` falls within the merge gap of the group.
pub open spec fn gap_ok(chunks: Seq<AudioChunk>, g: SpikeGroup, i: int, merge_gap_ms: u64) -> bool {
    chunks[i].start_ms <= chunks[g.end_idx as int].end_ms + merge_gap_ms
}

/// The grouping walk: candidates from chunk 1 to the second-to-last are
/// merged into the open group while they fall within the merge gap, a
/// closed group emits its spike if it qualifies, and the walk ends by
/// closing the open group.
pub open spec fn spikes_fold(
    chunks: Seq<AudioChunk>,
    vad: Seq<VadSegment>,
    baseline: u32,
    threshold: u32,
    std_dev: u32,
    min_duration_ms: u64,
    merge_gap_ms: u64,
    i: int,
    st: Option<SpikeGroup>,
    acc: Seq<AudioSpike>,
) -> Seq<AudioSpike>
    decreases chunks.len() - i,
{
    if i < 1 || i >= chunks.len() - 1 {
        match st {
            None => acc,
            Some(g) => acc + emit_group(chunks, g, baseline, min_duration_ms),
        }
    } else if !is_candidate(chunks, vad, i, baseline, threshold, std_dev) {
        spikes_fold(
            chunks,
            vad,
            baseline,
            threshold,
            std_dev,
            min_duration_ms,
            merge_gap_ms,
            i + 1,
            st,
            acc,
        )
    } else {
        match st {
            None => spikes_fold(
                chunks,
                vad,
                baseline,
                threshold,
                std_dev,
                min_duration_ms,
                merge_gap_ms,
                i + 1,
                Some(fresh_group(chunks, vad, i, baseline, threshold, std_dev)),
                acc,
            ),
            Some(g) => if gap_ok(chunks, g, i, merge_gap_ms) {
                spikes_fold(
                    chunks,
                    vad,
                    baseline,
                    threshold,
                    std_dev,
                    min_duration_ms,
                    merge_gap_ms,
                    i + 1,
                    Some(merge_group(chunks, vad, g, i, baseline, threshold, std_dev)),
                    acc,
                )
            } else {
                spikes_fold(
                    chunks,
                    vad,
                    baseline,
                    threshold,
                    std_dev,
                    min_duration_ms,
                    merge_gap_ms,
                    i + 1,
                    Some(fresh_group(chunks, vad, i, baseline, threshold, std_dev)),
                    acc + emit_group(chunks, g, baseline, min_duration_ms),
                )
            },
        }
    }
}

/// A spike as the detectors and the fusion stage promise it: a score
/// within 0..=10000 and a strictly positive time span.
pub open spec fn audio_spike_wf(s: AudioSpike) -> bool {
    s.score <= 10000 && s.start_ms < s.end_ms && s.peak_rms <= 32768
}

proof fn lemma_quality_range(
    chunks: Seq<AudioChunk>,
    vad: Seq<VadSegment>,
    i: int,
    baseline: u32,
    threshold: u32,
    std_dev: u32,
)
    ensures
        0 <= quality_at(chunks, vad, i, baseline, threshold, std_dev) <= 100,
        0 <= criteria_met(chunks, vad, i, baseline, threshold, std_dev) <= 6,
{
}

proof fn lemma_spike_score_range(peak_rms: u32, baseline: u32, quality: u32, voice_ratio: u32)
    requires
        quality <= 100,
        voice_ratio <= 1000,
    ensures
        0 <= spike_score(peak_rms, baseline, quality, voice_ratio) <= 10000,
{
}

/// Carries element-wise well-formedness across one equal step of the fold.
proof fn lemma_fold_step_transfer(
    chunks: Seq<AudioChunk>,
    vad: Seq<VadSegment>,
    baseline: u32,
    threshold: u32,
    std_dev: u32,
    min_duration_ms: u64,
    merge_gap_ms: u64,
    i0: int,
    st0: Option<SpikeGroup>,
    acc0: Seq<AudioSpike>,
    i1: int,
    st1: Option<SpikeGroup>,
    acc1: Seq<AudioSpike>,
)
    requires
        spikes_fold(
            chunks,
            vad,
            baseline,
            threshold,
            std_dev,
            min_duration_ms,
            merge_gap_ms,
            i0,
            st0,
            acc0,
        ) == spikes_fold(
            chunks,
            vad,
            baseline,
            threshold,
            std_dev,
            min_duration_ms,
            merge_gap_ms,
            i1,
            st1,
            acc1,
        ),
        forall|k: int|
            0 <= k < spikes_fold(
                chunks,
                vad,
                baseline,
                threshold,
                std_dev,
                min_duration_ms,
                merge_gap_ms,
                i1,
                st1,
                acc1,
            ).len() ==> audio_spike_wf(
                #[trigger] spikes_fold(
                    chunks,
                    vad,
                    baseline,
                    threshold,
                    std_dev,
                    min_duration_ms,
                    merge_gap_ms,
                    i1,
                    st1,
                    acc1,
                )[k],
            ),
    ensures
        forall|k: int|
            0 <= k < spikes_fold(
                chunks,
                vad,
                baseline,
                threshold,
                std_dev,
                min_duration_ms,
                merge_gap_ms,
                i0,
                st0,
                acc0,
            ).len() ==> audio_spike_wf(
                #[trigger] spikes_fold(
                    chunks,
                    vad,
                    baseline,
                    threshold,
                    std_dev,
                    min_duration_ms,
                    merge_gap_ms,
                    i0,
                    st0,
                    acc0,
                )[k],
            ),
{
    let r0 = spikes_fold(
        chunks,
        vad,
        baseline,
        threshold,
        std_dev,
        min_duration_ms,
        merge_gap_ms,
        i0,
        st0,
        acc0,
    );
    let r1 = spikes_fold(
        chunks,
        vad,
        baseline,
        threshold,
        std_dev,
        min_duration_ms,
        merge_gap_ms,
        i1,
        st1,
        acc1,
    );
    assert forall|k: int| 0 <= k < r0.len() implies audio_spike_wf(#[trigger] r0[k]) by {
        assert(r0[k] == r1[k]);
    }
}

proof fn lemma_fold_wf(
    chunks: Seq<AudioChunk>,
    vad: Seq<VadSegment>,
    baseline: u32,
    threshold: u32,
    std_dev: u32,
    min_duration_ms: u64,
    merge_gap_ms: u64,
    i: int,
    st: Option<SpikeGroup>,
    acc: Seq<AudioSpike>,
)
    requires
        chunks_wf(chunks),
        chunks.len() <= usize::MAX,
        forall|k: int| 0 <= k < vad.len() ==> (#[trigger] vad[k]).voice_ratio <= 1000,
        st matches Some(g) ==> group_wf(g, chunks) && (g.end_idx as int) < i,
        forall|k: int| 0 <= k < acc.len() ==> audio_spike_wf(#[trigger] acc[k]),
    ensures
        forall|k: int|
            0 <= k < spikes_fold(
                chunks,
                vad,
                baseline,
                threshold,
                std_dev,
                min_duration_ms,
                merge_gap_ms,
                i,
                st,
                acc,
            ).len() ==> audio_spike_wf(
                #[trigger] spikes_fold(
                    chunks,
                    vad,
                    baseline,
                    threshold,
                    std_dev,
                    min_duration_ms,
                    merge_gap_ms,
                    i,
                    st,
                    acc,
                )[k],
            ),
    decreases chunks.len() - i,
{
    if i < 1 || i >= chunks.len() - 1 {
        if st is Some {
            let g = st->0;
            lemma_spike_score_range(g.peak_rms, baseline, g.quality, g.voice_ratio);
            assert(chunks[g.start_idx as int].start_ms < chunks[g.end_idx as int].end_ms) by {
                lemma_chunk_order(chunks, g.start_idx as int, g.end_idx as int);
            }
            let e = emit_group(chunks, g, baseline, min_duration_ms);
            let res = acc + e;
            assert forall|k: int| 0 <= k < res.len() implies audio_spike_wf(
                #[trigger] res[k],
            ) by {
                if k < acc.len() {
                    assert(res[k] == acc[k]);
                } else {
                    assert(res[k] == e[k - acc.len()]);
                    assert(e[0] == spike_of_group(chunks, g, baseline));
                }
            }
        }
    } else if !is_candidate(chunks, vad, i, baseline, threshold, std_dev) {
        lemma_fold_wf(
            chunks,
            vad,
            baseline,
            threshold,
            std_dev,
            min_duration_ms,
            merge_gap_ms,
            i + 1,
            st,
            acc,
        );
        lemma_fold_step_transfer(chunks, vad, baseline, threshold, std_dev, min_duration_ms,
            merge_gap_ms, i, st, acc, i + 1, st, acc);
    } else {
        lemma_quality_range(chunks, vad, i, baseline, threshold, std_dev);
        lemma_overlap_ratio_range(chunks, vad, i);
        match st {
            None => {
                assert(group_wf(fresh_group(chunks, vad, i, baseline, threshold, std_dev), chunks));
                lemma_fold_wf(
                    chunks,
                    vad,
                    baseline,
                    threshold,
                    std_dev,
                    min_duration_ms,
                    merge_gap_ms,
                    i + 1,
                    Some(fresh_group(chunks, vad, i, baseline, threshold, std_dev)),
                    acc,
                );
                lemma_fold_step_transfer(chunks, vad, baseline, threshold, std_dev,
                    min_duration_ms, merge_gap_ms, i, st, acc, i + 1,
                    Some(fresh_group(chunks, vad, i, baseline, threshold, std_dev)), acc);
            },
            Some(g) => {
                if gap_ok(chunks, g, i, merge_gap_ms) {
                    assert(group_wf(
                        merge_group(chunks, vad, g, i, baseline, threshold, std_dev),
                        chunks,
                    ));
                    lemma_fold_wf(
                        chunks,
                        vad,
                        baseline,
                        threshold,
                        std_dev,
                        min_duration_ms,
                        merge_gap_ms,
                        i + 1,
                        Some(merge_group(chunks, vad, g, i, baseline, threshold, std_dev)),
                        acc,
                    );
                    lemma_fold_step_transfer(chunks, vad, baseline, threshold, std_dev,
                        min_duration_ms, merge_gap_ms, i, st, acc, i + 1,
                        Some(merge_group(chunks, vad, g, i, baseline, threshold, std_dev)), acc);
                } else {
                    lemma_spike_score_range(g.peak_rms, baseline, g.quality, g.voice_ratio);
                    lemma_chunk_order(chunks, g.start_idx as int, g.end_idx as int);
                    assert(group_wf(
                        fresh_group(chunks, vad, i, baseline, threshold, std_dev),
                        chunks,
                    ));
                    assert(forall|k: int|
                        0 <= k < (acc + emit_group(chunks, g, baseline, min_duration_ms)).len()
                            ==> audio_spike_wf(
                            #[trigger] (acc + emit_group(chunks, g, baseline, min_duration_ms))[k],
                        ));
                    lemma_fold_wf(
                        chunks,
                        vad,
                        baseline,
                        threshold,
                        std_dev,
                        min_duration_ms,
                        merge_gap_ms,
                        i + 1,
                        Some(fresh_group(chunks, vad, i, baseline, threshold, std_dev)),
                        acc + emit_group(chunks, g, baseline, min_duration_ms),
                    );
                    lemma_fold_step_transfer(chunks, vad, baseline, threshold, std_dev,
                        min_duration_ms, merge_gap_ms, i, st, acc, i + 1,
                        Some(fresh_group(chunks, vad, i, baseline, threshold, std_dev)),
                        acc + emit_group(chunks, g, baseline, min_duration_ms));
                }
            },
        }
    }
}

/// The average overlap ratio of a chunk is a valid per-mille value
/// whenever the segment ratios are.
proof fn lemma_overlap_ratio_range(chunks: Seq<AudioChunk>, vad: Seq<VadSegment>, i: int)
    requires
        forall|k: int| 0 <= k < vad.len() ==> (#[trigger] vad[k]).voice_ratio <= 1000,
    ensures
        0 <= voice_ratio_at(chunks, vad, i) <= 1000,
{
    lemma_avg_overlap_ratio_range(vad, chunks[i].start_ms as int, chunks[i].end_ms as int);
}

proof fn lemma_avg_overlap_ratio_range(segs: Seq<VadSegment>, s: int, e: int)
    requires
        forall|k: int| 0 <= k < segs.len() ==> (#[trigger] segs[k]).voice_ratio <= 1000,
    ensures
        0 <= avg_overlap_ratio(segs, s, e) <= 1000,
{
    crate::vad::lemma_overlap_sums(segs, s, e);
    let c = overlap_count(segs, s, e);
    if c > 0 {
        assert(crate::vad::overlap_ratio_sum(segs, s, e) / c <= 1000) by (nonlinear_arith)
            requires
                crate::vad::overlap_ratio_sum(segs, s, e) <= c * 1000,
                c >= 1,
                crate::vad::overlap_ratio_sum(segs, s, e) >= 0,
        ;
    }
}

/// In a well-formed chunk list every earlier chunk starts before every
/// later chunk ends.
proof fn lemma_chunk_order(chunks: Seq<AudioChunk>, i: int, j: int)
    requires
        chunks_wf(chunks),
        0 <= i <= j < chunks.len(),
    ensures
        chunks[i].start_ms < chunks[j].end_ms,
        chunks[i].start_ms <= chunks[j].start_ms,
    decreases j - i,
{
    if i < j {
        lemma_chunk_order(chunks, i + 1, j);
    }
}

/// Spike lists in descending score order.
pub open spec fn spikes_sorted_desc(s: Seq<AudioSpike>) -> bool {
    forall|i: int, j: int| 0 <= i < j < s.len() ==> (#[trigger] s[i]).score >= (#[trigger] s[j]).score
}

proof fn lemma_spike_insert_to_multiset(s: Seq<AudioSpike>, j: int, x: AudioSpike)
    requires
        0 <= j <= s.len(),
    ensures
        s.insert(j, x).to_multiset() == s.to_multiset().insert(x),
{
    broadcast use group_to_multiset_ensures;

    let t = s.insert(j, x);
    assert(t.remove(j) =~= s);
    assert(t.remove(j).to_multiset() =~= t.to_multiset().remove(t[j]));
    assert(t[j] == x);
    assert(t.to_multiset().count(x) > 0) by {
        assert(t.contains(x));
    }
    assert(t.to_multiset().remove(x).insert(x) =~= t.to_multiset());
}

/// `x` placed into a score-descending spike list, after any entries with
/// the same score (the stable position).
pub open spec fn spike_sds_insert(acc: Seq<AudioSpike>, x: AudioSpike) -> Seq<AudioSpike>
    decreases acc.len(),
{
    if acc.len() == 0 {
        seq![x]
    } else if acc[0].score < x.score {
        seq![x] + acc
    } else {
        seq![acc[0]] + spike_sds_insert(acc.drop_first(), x)
    }
}

/// Stable insertion sort by descending score, element by element.
pub open spec fn spike_sds_fold(s: Seq<AudioSpike>, i: int, acc: Seq<AudioSpike>) -> Seq<
    AudioSpike,
>
    decreases s.len() - i,
{
    if i < 0 || i >= s.len() {
        acc
    } else {
        spike_sds_fold(s, i + 1, spike_sds_insert(acc, s[i]))
    }
}

/// The unique stable reordering of a spike list by descending score.
pub open spec fn spike_score_sorted(s: Seq<AudioSpike>) -> Seq<AudioSpike> {
    spike_sds_fold(s, 0, Seq::empty())
}

/// Inserting into a score-descending list at the first position whose
/// score falls below the new entry's is exactly the stable insertion.
proof fn lemma_spike_sds_insert_position(acc: Seq<AudioSpike>, x: AudioSpike, j: int)
    requires
        spikes_sorted_desc(acc),
        0 <= j <= acc.len(),
        forall|k: int| 0 <= k < j ==> (#[trigger] acc[k]).score >= x.score,
        j < acc.len() ==> acc[j].score < x.score,
    ensures
        spike_sds_insert(acc, x) == acc.insert(j, x),
    decreases acc.len(),
{
    if acc.len() == 0 {
        assert(spike_sds_insert(acc, x) =~= acc.insert(0, x));
    } else if acc[0].score < x.score {
        assert(j == 0);
        assert(spike_sds_insert(acc, x) =~= acc.insert(0, x));
    } else {
        assert(j >= 1) by {
            if j == 0 {
                assert(acc[0].score < x.score);
            }
        }
        let tail = acc.drop_first();
        assert(spikes_sorted_desc(tail)) by {
            assert(forall|a: int, b: int| 0 <= a < b < tail.len() ==> tail[a] == acc[a + 1]
                && tail[b] == acc[b + 1]);
        }
        assert(forall|k: int| 0 <= k < j - 1 ==> (#[trigger] tail[k]).score >= x.score) by {
            assert(forall|k: int| 0 <= k < j - 1 ==> tail[k] == acc[k + 1]);
        }
        assert(j - 1 < tail.len() ==> tail[j - 1].score < x.score) by {
            if j - 1 < tail.len() {
                assert(tail[j - 1] == acc[j]);
            }
        }
        lemma_spike_sds_insert_position(tail, x, j - 1);
        assert(spike_sds_insert(acc, x) =~= acc.insert(j, x)) by {
            assert(spike_sds_insert(acc, x) == seq![acc[0]] + tail.insert(j - 1, x));
        }
    }
}

/// Sorts spikes by score, highest first, keeping the input order of equal
/// scores; the result is exactly the stable reordering.
fn sort_spikes_desc(v: &mut Vec<AudioSpike>)
    ensures
        final(v)@ == spike_score_sorted(old(v)@),
        spikes_sorted_desc(final(v)@),
        final(v)@.to_multiset() == old(v)@.to_multiset(),
{
    let ghost orig = v@;
    let mut i: usize = 0;
    while i < v.len()
        invariant
            i <= v.len(),
            v@.len() == old(v)@.len(),
            orig == old(v)@,
            v@.subrange(i as int, v@.len() as int) =~= old(v)@.subrange(
                i as int,
                old(v)@.len() as int,
            ),
            spikes_sorted_desc(v@.subrange(0, i as int)),
            v@.to_multiset() == old(v)@.to_multiset(),
            spike_sds_fold(orig, 0, Seq::empty()) == spike_sds_fold(
                orig,
                i as int,
                v@.subrange(0, i as int),
            ),
        decreases v.len() - i,
    {
        let ghost v_top = v@;
        let x = v.remove(i);
        proof {
            assert(v_top.subrange(i as int, v_top.len() as int)[0] == v_top[i as int]);
            assert(old(v)@.subrange(i as int, old(v)@.len() as int)[0] == old(v)@[i as int]);
            assert(x == orig[i as int]);
        }
        let ghost s_rem = v@;
        let mut j: usize = 0;
        while j < i && v[j].score >= x.score
            invariant
                j <= i <= v@.len(),
                v@ == s_rem,
                forall|k: int| 0 <= k < j ==> (#[trigger] v@[k]).score >= x.score,
            decreases i - j,
        {
            j += 1;
        }
        v.insert(j, x);
        proof {
            broadcast use group_to_multiset_ensures;

            let pre = s_rem.subrange(0, i as int);
            assert(pre =~= v_top.subrange(0, i as int));
            assert(spikes_sorted_desc(pre));
            assert(j < i ==> pre[j as int].score < x.score) by {
                if j < i {
                    assert(pre[j as int] == s_rem[j as int]);
                }
            }
            lemma_spike_sds_insert_position(pre, x, j as int);
            assert(v@.subrange(0, i as int + 1) =~= pre.insert(j as int, x));
            assert(v@.subrange(0, i as int + 1) == spike_sds_insert(pre, x));
            assert(spikes_sorted_desc(v@.subrange(0, i as int + 1))) by {
                let cur = v@.subrange(0, i as int + 1);
                assert(forall|k: int| 0 <= k < j ==> cur[k] == pre[k]);
                assert(cur[j as int] == x);
                assert(forall|k: int| j < k <= i ==> cur[k] == pre[k - 1]);
                assert(forall|k: int| j as int <= k < i ==> x.score > (#[trigger] pre[k]).score)
                    by {
                    if j < i {
                        assert(forall|k: int| j as int <= k < i ==> (#[trigger] pre[k]).score
                            <= pre[j as int].score);
                    }
                }
            }
            assert(v@.subrange(i as int + 1, v@.len() as int) =~= old(v)@.subrange(
                i as int + 1,
                old(v)@.len() as int,
            )) by {
                assert(forall|k: int| i < k < v@.len() ==> v@[k] == s_rem[k - 1]);
                assert(forall|k: int| i < k < v@.len() ==> s_rem[k - 1] == v_top[k]);
                assert(forall|k: int| i < k < v@.len() ==> v_top[k] == old(v)@[k]) by {
                    assert(forall|k: int| i <= k < v_top.len() ==> v_top.subrange(
                        i as int,
                        v_top.len() as int,
                    )[k - i] == v_top[k] && old(v)@.subrange(i as int, old(v)@.len() as int)[k
                        - i] == old(v)@[k]);
                }
            }
            assert(spike_sds_fold(orig, i as int, pre) == spike_sds_fold(
                orig,
                i as int + 1,
                v@.subrange(0, i as int + 1),
            ));
            // Multiset preservation of the remove/insert pair.
            let ghost s_before = s_rem.insert(i as int, x);
            assert(s_before =~= v_top);
            assert(s_before.remove(i as int) =~= s_rem);
            lemma_spike_insert_to_multiset(s_rem, j as int, x);
            assert(s_rem.to_multiset() =~= s_before.to_multiset().remove(x)) by {
                assert(s_before[i as int] == x);
                assert(s_before.remove(i as int).to_multiset() =~= s_before.to_multiset().remove(
                    s_before[i as int],
                ));
            }
            assert(v@.to_multiset() =~= s_before.to_multiset()) by {
                assert(s_before.contains(x)) by {
                    assert(s_before[i as int] == x);
                }
                assert(s_before.to_multiset().count(x) > 0);
                assert(s_before.to_multiset().remove(x).insert(x) =~= s_before.to_multiset());
            }
        }
        i += 1;
    }
    proof {
        assert(v@.subrange(0, v@.len() as int) =~= v@);
        assert(v@ == spike_sds_fold(orig, v@.len() as int, v@));
    }
}

/// Walks the chunks, scores candidates against the six criteria, groups
/// adjacent candidates, emits qualifying groups as spikes, and returns
/// them sorted by descending score.
#[verifier::rlimit(100)]
pub fn detect_spikes_with_vad(
    chunks: &Vec<AudioChunk>,
    settings: &AudioAnalyzeSettings,
    baseline: u32,
    threshold: u32,
    std_dev: u32,
    vad_segments: &Vec<VadSegment>,
) -> (r: Vec<AudioSpike>)
    requires
        chunks_wf(chunks@),
        chunks@.len() <= 0xFF_FFFF_FFFF,
        baseline <= 32768,
        std_dev <= 32768,
        settings.wf(),
        vad_segments@.len() <= 0xFFFF_FFFF_FFFF,
        forall|i: int| 0 <= i < vad_segments@.len() ==> (#[trigger] vad_segments@[i]).voice_ratio
            <= 1000,
    ensures
        chunks@.len() < 3 ==> r@ == Seq::<AudioSpike>::empty(),
        chunks@.len() >= 3 ==> r@ == spike_score_sorted(
            spikes_fold(
                chunks@,
                vad_segments@,
                baseline,
                threshold,
                std_dev,
                settings.min_duration_ms,
                settings.merge_gap_ms,
                1,
                None,
                Seq::empty(),
            ),
        ),
        spikes_sorted_desc(r@),
        forall|k: int| 0 <= k < r@.len() ==> audio_spike_wf(#[trigger] r@[k]),
{
    let n = chunks.len();
    let mut spikes: Vec<AudioSpike> = Vec::new();
    if n < 3 {
        return spikes;
    }
    // Total of the RMS steps, for the average-step criterion.
    let mut total: u64 = 0;
    let mut t: usize = 1;
    proof {
        assert(total_delta(chunks@.subrange(0, 1)) == 0);
    }
    while t < n
        invariant
            1 <= t <= n == chunks@.len() <= 0xFF_FFFF_FFFF,
            chunks_wf(chunks@),
            total == total_delta(chunks@.subrange(0, t as int)),
            total <= (t - 1) * 32768,
        decreases n - t,
    {
        proof {
            let pre = chunks@.subrange(0, t as int);
            let cur = chunks@.subrange(0, t as int + 1);
            assert(cur.drop_last() =~= pre);
            assert(cur[t as int] == chunks@[t as int]);
            assert(cur[t as int - 1] == chunks@[t as int - 1]);
            assert(delta_at(cur, t as int) == delta_at(chunks@, t as int));
            assert((t as int - 1) * 32768 + 32768 == (t as int) * 32768) by (nonlinear_arith);
            assert((t as int) * 32768 <= 0xFF_FFFF_FFFFi64 * 32768) by (nonlinear_arith)
                requires t as int <= 0xFF_FFFF_FFFFi64
            ;
        }
        let d: u32 = if chunks[t].rms >= chunks[t - 1].rms {
            chunks[t].rms - chunks[t - 1].rms
        } else {
            chunks[t - 1].rms - chunks[t].rms
        };
        total += d as u64;
        t += 1;
    }
    proof {
        assert(chunks@.subrange(0, n as int) =~= chunks@);
    }
    let ghost cx_chunks = chunks@;
    let ghost cx_vad = vad_segments@;
    let mut cur: Option<SpikeGroup> = None;
    let mut i: usize = 1;
    while i < n - 1
        invariant
            1 <= i <= n - 1,
            n == chunks@.len(),
            3 <= n <= 0xFF_FFFF_FFFF,
            chunks_wf(chunks@),
            settings.wf(),
            baseline <= 32768,
            std_dev <= 32768,
            cx_chunks == chunks@,
            cx_vad == vad_segments@,
            vad_segments@.len() <= 0xFFFF_FFFF_FFFF,
            forall|k: int| 0 <= k < vad_segments@.len() ==> (#[trigger] vad_segments@[k]).voice_ratio
                <= 1000,
            total == total_delta(chunks@),
            total <= (n - 1) * 32768,
            cur matches Some(g) ==> group_wf(g, chunks@) && g.end_idx < i,
            forall|k: int| 0 <= k < spikes@.len() ==> audio_spike_wf(#[trigger] spikes@[k]),
            spikes_fold(
                chunks@,
                vad_segments@,
                baseline,
                threshold,
                std_dev,
                settings.min_duration_ms,
                settings.merge_gap_ms,
                1,
                None,
                Seq::empty(),
            ) == spikes_fold(
                chunks@,
                vad_segments@,
                baseline,
                threshold,
                std_dev,
                settings.min_duration_ms,
                settings.merge_gap_ms,
                i as int,
                cur,
                spikes@,
            ),
        decreases n - 1 - i,
    {
        let c = chunks[i];
        let prev = chunks[i - 1];
        let d: u32 = if c.rms >= prev.rms {
            c.rms - prev.rms
        } else {
            prev.rms - c.rms
        };
        let above = c.rms > threshold;
        proof {
            assert(2 * (d as int) * ((n - 1) as int) <= 2 * 0x8000 * 0xFF_FFFF_FFFFi128)
                by (nonlinear_arith)
                requires 0 <= d <= 0x8000, 0 <= (n - 1) as int <= 0xFF_FFFF_FFFFi128
            ;
        }
        let sudden = 2 * (d as u128) * ((n - 1) as u128) > 3 * (total as u128);
        let transient = c.rms >= 33 && c.peak > 2 * c.rms;
        let next_rms = chunks[i + 1].rms;
        let sust = 10 * (next_rms as u64) > 12 * (baseline as u64);
        let well_above = 2 * (c.rms as u64) > 2 * (baseline as u64) + 3 * (std_dev as u64);
        let (has_voice, voice_ratio) = filter_spikes_by_voice(vad_segments, c.start_ms, c.end_ms);
        let voiced = has_voice || voice_ratio > 200;
        proof {
            assert(c == cx_chunks[i as int]);
            assert(prev == cx_chunks[i as int - 1]);
            assert(next_rms == cx_chunks[i as int + 1].rms);
            assert(d as int == delta_at(cx_chunks, i as int));
            assert(above == above_threshold(cx_chunks, i as int, threshold));
            assert(sudden == sudden_change(cx_chunks, i as int));
            assert(transient == has_transient(cx_chunks, i as int));
            assert(sust == sustained(cx_chunks, i as int, baseline));
            assert(well_above == well_above_baseline(cx_chunks, i as int, baseline, std_dev));
            assert(voice_ratio == voice_ratio_at(cx_chunks, cx_vad, i as int));
            assert(has_voice == has_voice_at(cx_chunks, cx_vad, i as int));
            assert(voiced == voice_detected(cx_chunks, cx_vad, i as int));
        }
        let mut quality: u32 = 0;
        let mut met: u32 = 0;
        if above {
            quality += 20;
            met += 1;
        }
        if sudden {
            quality += 15;
            met += 1;
        }
        if transient {
            quality += 10;
            met += 1;
        }
        if sust {
            quality += 15;
            met += 1;
        }
        if well_above {
            quality += 10;
            met += 1;
        }
        if voiced {
            quality += 30;
            met += 1;
        }
        proof {
            assert(quality == quality_at(cx_chunks, cx_vad, i as int, baseline, threshold, std_dev));
            assert(met == criteria_met(cx_chunks, cx_vad, i as int, baseline, threshold, std_dev));
        }
        let valid = above && (voiced || met >= 3);
        let ghost old_cur = cur;
        let ghost old_spikes = spikes@;
        if valid {
            match cur {
                None => {
                    cur = Some(
                        SpikeGroup {
                            start_idx: i,
                            end_idx: i,
                            peak_rms: c.rms,
                            quality,
                            voice_ratio,
                        },
                    );
                },
                Some(g) => {
                    let group_end = chunks[g.end_idx].end_ms;
                    let within_gap = if c.start_ms <= group_end {
                        true
                    } else {
                        c.start_ms - group_end <= settings.merge_gap_ms
                    };
                    if within_gap {
                        cur = Some(
                            SpikeGroup {
                                start_idx: g.start_idx,
                                end_idx: i,
                                peak_rms: if c.rms > g.peak_rms {
                                    c.rms
                                } else {
                                    g.peak_rms
                                },
                                quality: if quality > g.quality {
                                    quality
                                } else {
                                    g.quality
                                },
                                voice_ratio: if voice_ratio > g.voice_ratio {
                                    voice_ratio
                                } else {
                                    g.voice_ratio
                                },
                            },
                        );
                    } else {
                        proof {
                            lemma_chunk_order(chunks@, g.start_idx as int, g.end_idx as int);
                        }
                        let dur = chunks[g.end_idx].end_ms - chunks[g.start_idx].start_ms;
                        if dur >= settings.min_duration_ms && g.quality >= 40 {
                            let spike = create_spike_with_vad(
                                chunks[g.start_idx].start_ms,
                                chunks[g.end_idx].end_ms,
                                g.peak_rms,
                                baseline,
                                g.quality,
                                g.voice_ratio,
                            );
                            spikes.push(spike);
                            proof {
                                assert(spikes@ =~= old_spikes + emit_group(
                                    cx_chunks,
                                    old_cur->0,
                                    baseline,
                                    settings.min_duration_ms,
                                ));
                            }
                        } else {
                            proof {
                                assert(spikes@ =~= old_spikes + emit_group(
                                    cx_chunks,
                                    old_cur->0,
                                    baseline,
                                    settings.min_duration_ms,
                                ));
                            }
                        }
                        cur = Some(
                            SpikeGroup {
                                start_idx: i,
                                end_idx: i,
                                peak_rms: c.rms,
                                quality,
                                voice_ratio,
                            },
                        );
                    }
                },
            }
        }
        proof {
            assert(cur matches Some(g) ==> group_wf(g, chunks@) && g.end_idx <= i);
            assert(spikes_fold(
                cx_chunks,
                cx_vad,
                baseline,
                threshold,
                std_dev,
                settings.min_duration_ms,
                settings.merge_gap_ms,
                i as int,
                old_cur,
                old_spikes,
            ) == spikes_fold(
                cx_chunks,
                cx_vad,
                baseline,
                threshold,
                std_dev,
                settings.min_duration_ms,
                settings.merge_gap_ms,
                i as int + 1,
                cur,
                spikes@,
            ));
        }
        i += 1;
    }
    // Close the final group.
    let ghost old_cur = cur;
    let ghost old_spikes = spikes@;
    if let Some(g) = cur {
        proof {
            lemma_chunk_order(chunks@, g.start_idx as int, g.end_idx as int);
        }
        let dur = chunks[g.end_idx].end_ms - chunks[g.start_idx].start_ms;
        if dur >= settings.min_duration_ms && g.quality >= 40 {
            let spike = create_spike_with_vad(
                chunks[g.start_idx].start_ms,
                chunks[g.end_idx].end_ms,
                g.peak_rms,
                baseline,
                g.quality,
                g.voice_ratio,
            );
            spikes.push(spike);
        }
        proof {
            assert(spikes@ =~= old_spikes + emit_group(
                cx_chunks,
                g,
                baseline,
                settings.min_duration_ms,
            ));
        }
    }
    proof {
        assert(spikes@ == spikes_fold(
            cx_chunks,
            cx_vad,
            baseline,
            threshold,
            std_dev,
            settings.min_duration_ms,
            settings.merge_gap_ms,
            1,
            None,
            Seq::empty(),
        ));
    }
    sort_spikes_desc(&mut spikes);
    proof {
        broadcast use group_to_multiset_ensures;

        assert forall|k: int| 0 <= k < spikes@.len() implies audio_spike_wf(
            #[trigger] spikes@[k],
        ) by {
            assert(spikes@.contains(spikes@[k]));
            assert(spikes@.to_multiset().count(spikes@[k]) > 0);
            let pre = spikes_fold(
                cx_chunks,
                cx_vad,
                baseline,
                threshold,
                std_dev,
                settings.min_duration_ms,
                settings.merge_gap_ms,
                1,
                None,
                Seq::empty(),
            );
            assert(pre.to_multiset().count(spikes@[k]) > 0);
            assert(pre.contains(spikes@[k]));
            lemma_fold_wf(
                cx_chunks,
                cx_vad,
                baseline,
                threshold,
                std_dev,
                settings.min_duration_ms,
                settings.merge_gap_ms,
                1,
                None,
                Seq::empty(),
            );
            let w = choose|w: int| 0 <= w < pre.len() && pre[w] == spikes@[k];
            assert(audio_spike_wf(pre[w]));
        }
    }
    spikes
}

/// Builds the spike record for a closed group, with the scoring formula's
/// clamps applied.
pub fn create_spike_with_vad(
    start_ms: u64,
    end_ms: u64,
    peak_rms: u32,
    baseline: u32,
    quality: u32,
    voice_ratio: u32,
) -> (r: AudioSpike)
    requires
        peak_rms <= 32768,
        baseline <= 32768,
        quality <= 100,
        voice_ratio <= 1000,
    ensures
        r.start_ms == start_ms,
        r.end_ms == end_ms,
        r.peak_rms == peak_rms,
        r.score == spike_score(peak_rms, baseline, quality, voice_ratio),
        r.score <= 10000,
{
    let intensity: u32 = if baseline > 0 {
        let x: u32 = (peak_rms * 3000) / baseline;
        if x < 3000 {
            0
        } else if x - 3000 > 4000 {
            4000
        } else {
            x - 3000
        }
    } else {
        2000
    };
    let quality_bonus: u32 = if quality > 40 {
        (quality - 40) * 60
    } else {
        0
    };
    let voice_bonus: u32 = voice_ratio * 2;
    let total = intensity + quality_bonus + voice_bonus;
    let score = if total > 10000 {
        10000
    } else {
        total
    };
    AudioSpike { start_ms, end_ms, peak_rms, score }
}

/// The RMS series of a chunk list, as plain values for the statistics
/// helpers.
pub open spec fn rms_series(chunks: Seq<AudioChunk>) -> Seq<u64> {
    Seq::new(chunks.len(), |i: int| chunks[i].rms as u64)
}

/// The percentile the sensitivity selects.
pub open spec fn percentile_for(sensitivity_tenths: u32) -> int {
    if sensitivity_tenths <= 10 {
        75
    } else if sensitivity_tenths <= 20 {
        82
    } else if sensitivity_tenths <= 30 {
        90
    } else {
        95
    }
}

/// The detection threshold: the sensitivity-selected percentile of the
/// RMS series, overridden by a baseline multiple when the distribution is
/// too flat (within 15% of the baseline).
pub open spec fn threshold_spec(rms: Seq<u64>, baseline: int, sensitivity_tenths: u32) -> int {
    let p = percentile_spec(rms, percentile_for(sensitivity_tenths));
    if p * 100 <= baseline * 115 {
        baseline * (1000 + 35 * sensitivity_tenths) / 1000
    } else {
        p
    }
}

/// The spike list of a result is explained by a voice-segment table the
/// classifier stage could have produced for this buffer: a full per-chunk
/// table with valid ratios under which the spikes are exactly the
/// detection fold over the result's own chunks and statistics.
pub open spec fn spikes_explained_by(
    samples: Seq<i16>,
    sample_rate: u32,
    settings: AudioAnalyzeSettings,
    res: AudioAnalysisResult,
    segs: Seq<VadSegment>,
) -> bool {
    &&& crate::vad::classifier_segments_ok(
        segs,
        samples.len() as int,
        sample_rate,
        settings.chunk_duration_ms,
    )
    &&& forall|i: int| 0 <= i < segs.len() ==> (#[trigger] segs[i]).voice_ratio <= 1000
    &&& forall|i: int| 0 <= i < segs.len() ==> (#[trigger] segs[i]).has_voice == (segs[i].voice_ratio
        > 300)
    &&& (res.chunks@.len() < 3 ==> res.spikes@.len() == 0)
    &&& (res.chunks@.len() >= 3 ==> res.spikes@ == spike_score_sorted(
        spikes_fold(
            res.chunks@,
            segs,
            res.baseline_rms,
            res.threshold,
            res.std_dev,
            settings.min_duration_ms,
            settings.merge_gap_ms,
            1,
            None,
            Seq::empty(),
        ),
    ))
}

/// Analyzes a mono 16-bit sample buffer: chunk metrics, baseline and
/// threshold statistics, voice segments, and the scored spike list sorted
/// by descending score.  The spikes are pinned relative to the opaque
/// frame classifier: some valid segment table explains them exactly.
#[verifier::rlimit(100)]
pub fn analyze_audio(samples: &Vec<i16>, sample_rate: u32, settings: &AudioAnalyzeSettings) -> (r:
    Result<AudioAnalysisResult, String>)
    requires
        settings.wf(),
        1000 <= sample_rate <= 0xF_FFFF,
        samples@.len() <= 0xFF_FFFF_FFFF,
    ensures
        r is Err <==> samples@.len() == 0,
        r matches Err(e) ==> e@ == "No audio samples found"@,
        r matches Ok(res) ==> {
            let spc = (sample_rate as int) * (settings.chunk_duration_ms as int) / 1000;
            &&& res.chunks@.len() == audio_chunk_count(samples@.len() as int, spc)
            &&& forall|i: int| 0 <= i < res.chunks@.len() ==> #[trigger] res.chunks@[i]
                == audio_chunk_spec(samples@, spc, sample_rate as int, i)
            &&& forall|i: int| 0 <= i < res.chunks@.len() ==> (#[trigger] res.chunks@[i]).rms
                <= 32768 && res.chunks@[i].peak <= 32768
            &&& res.baseline_rms == median_spec(rms_series(res.chunks@))
            &&& res.std_dev == std_dev_spec(rms_series(res.chunks@), res.baseline_rms as int)
            &&& res.threshold == threshold_spec(
                rms_series(res.chunks@),
                res.baseline_rms as int,
                settings.sensitivity_tenths,
            )
            &&& spikes_sorted_desc(res.spikes@)
            &&& forall|k: int| 0 <= k < res.spikes@.len() ==> audio_spike_wf(
                #[trigger] res.spikes@[k],
            )
            &&& exists|segs: Seq<VadSegment>| #[trigger] spikes_explained_by(
                samples@,
                sample_rate,
                *settings,
                res,
                segs,
            )
        },
{
    if samples.len() == 0 {
        return Err(String::from_str("No audio samples found"));
    }
    let vad_segments = match detect_voice_activity(samples, sample_rate, settings.chunk_duration_ms)
    {
        Ok(v) => v,
        Err(_) => Vec::new(),
    };
    proof {
        let rc = (sample_rate as int) * (settings.chunk_duration_ms as int);
        vstd::arithmetic::mul::lemma_mul_nonnegative(
            sample_rate as int,
            settings.chunk_duration_ms as int,
        );
        vstd::arithmetic::mul::lemma_mul_upper_bound(
            sample_rate as int,
            0xF_FFFF,
            settings.chunk_duration_ms as int,
            60000,
        );
        assert(rc <= 0xF_FFFFint * 60000);
        vstd::arithmetic::div_mod::lemma_div_is_ordered(rc, 0xF_FFFFint * 60000, 1000);
        assert(rc / 1000 <= 0xFFFF_FFFF);
        vstd::arithmetic::div_mod::lemma_fundamental_div_mod(rc, 1000);
        vstd::arithmetic::div_mod::lemma_mod_bound(rc, 1000);
        assert((rc / 1000) * 1000 > rc - 1000) by (nonlinear_arith)
            requires rc == 1000 * (rc / 1000) + rc % 1000, rc % 1000 < 1000
        ;
        vstd::arithmetic::mul::lemma_mul_inequality(2, settings.chunk_duration_ms as int,
            sample_rate as int);
        assert(rc >= (sample_rate as int) * 2);
        assert((rc / 1000) * 1000 >= sample_rate);
        assert(rc / 1000 >= 1) by (nonlinear_arith)
            requires (rc / 1000) * 1000 >= 1000 * 1, rc / 1000 >= 0
        ;
        vstd::arithmetic::div_mod::lemma_div_is_ordered(0, rc, 1000);
    }
    let spc64: u64 = (sample_rate as u64) * settings.chunk_duration_ms / 1000;
    let spc: usize = spc64 as usize;
    let chunks = calculate_chunks_enhanced(samples, spc, sample_rate);
    proof {
        assert(audio_chunk_count(samples@.len() as int, spc as int) <= samples@.len() as int)
            by (nonlinear_arith)
            requires spc as int >= 1, samples@.len() as int >= 0
        ;
        assert(chunks_wf(chunks@));
    }
    let m = chunks.len();
    let mut rms_values: Vec<u64> = Vec::new();
    let mut i: usize = 0;
    while i < m
        invariant
            i <= m == chunks@.len(),
            rms_values@.len() == i,
            forall|k: int| 0 <= k < i ==> #[trigger] rms_values@[k] == chunks@[k].rms as u64,
            forall|k: int| 0 <= k < chunks@.len() ==> (#[trigger] chunks@[k]).rms <= 32768,
        decreases m - i,
    {
        rms_values.push(chunks[i].rms as u64);
        i += 1;
    }
    proof {
        assert(rms_values@ =~= rms_series(chunks@));
        assert(forall|k: int| 0 <= k < rms_values@.len() ==> #[trigger] rms_values@[k] <= 32768);
    }
    let baseline64 = median(&rms_values);
    proof {
        lemma_median_le_max(rms_values@, 32768);
    }
    let baseline = baseline64 as u32;
    let std64 = standard_deviation(&rms_values, baseline64);
    proof {
        lemma_std_dev_le(rms_values@, baseline64 as int, 32768);
    }
    let std_dev = std64 as u32;
    let p: u64 = if settings.sensitivity_tenths <= 10 {
        75
    } else if settings.sensitivity_tenths <= 20 {
        82
    } else if settings.sensitivity_tenths <= 30 {
        90
    } else {
        95
    };
    let pv = percentile_value(&rms_values, p);
    proof {
        lemma_percentile_le_max(rms_values@, p as int, 32768);
    }
    proof {
        assert(baseline64 <= 32768);
        assert(pv <= 32768);
        assert(35 * (settings.sensitivity_tenths as u64) <= 1400);
        assert(baseline64 * (1000 + 35 * (settings.sensitivity_tenths as u64)) <= 32768u64
            * 2400) by (nonlinear_arith)
            requires
                baseline64 <= 32768,
                1000 + 35 * (settings.sensitivity_tenths as u64) <= 2400,
        ;
        assert(baseline64 * 115 <= 32768u64 * 115) by (nonlinear_arith)
            requires baseline64 <= 32768
        ;
    }
    let threshold: u32 = if pv * 100 <= baseline64 * 115 {
        ((baseline64 * (1000 + 35 * (settings.sensitivity_tenths as u64))) / 1000) as u32
    } else {
        pv as u32
    };
    let spikes = detect_spikes_with_vad(&chunks, settings, baseline, threshold, std_dev,
        &vad_segments);
    let result = AudioAnalysisResult { chunks, baseline_rms: baseline, std_dev, threshold, spikes };
    proof {
        assert(spikes_explained_by(samples@, sample_rate, *settings, result, vad_segments@));
    }
    Ok(result)
}

/// The median of values below a bound stays below it.
proof fn lemma_median_le_max(s: Seq<u64>, bound: u64)
    requires
        forall|i: int| 0 <= i < s.len() ==> #[trigger] s[i] <= bound,
    ensures
        0 <= median_spec(s) <= bound,
{
    lemma_sorted_version_ensures(s);
    crate::stats::lemma_sorted_version_members(s);
    let t = sorted_version(s);
    if t.len() > 0 {
        if t.len() % 2 == 0 {
            assert(t[t.len() as int / 2 - 1] <= bound);
            assert(t[t.len() as int / 2] <= bound);
        } else {
            assert(t[t.len() as int / 2] <= bound);
        }
    }
}

/// The chosen percentile of values below a bound stays below it.
proof fn lemma_percentile_le_max(s: Seq<u64>, p: int, bound: u64)
    requires
        forall|i: int| 0 <= i < s.len() ==> #[trigger] s[i] <= bound,
        0 <= p <= 100,
    ensures
        0 <= percentile_spec(s, p) <= bound,
{
    lemma_sorted_version_ensures(s);
    crate::stats::lemma_sorted_version_members(s);
    let t = sorted_version(s);
    if t.len() > 0 {
        assert(0 <= p * (t.len() - 1) / 100 < t.len()) by (nonlinear_arith)
            requires 0 <= p <= 100, t.len() >= 1
        ;
        assert(t[p * (t.len() as int - 1) / 100] <= bound);
    }
}

/// The standard deviation of per-mille-bounded values around a bounded
/// mean stays within the bound.
proof fn lemma_std_dev_le(s: Seq<u64>, mean: int, bound: u64)
    requires
        forall|i: int| 0 <= i < s.len() ==> #[trigger] s[i] <= bound,
        0 <= mean <= bound,
    ensures
        0 <= std_dev_spec(s, mean) <= bound,
{
    if s.len() > 0 {
        crate::stats::lemma_sum_sq_dev_bound(s, mean, bound as int);
        let v = crate::stats::sum_sq_dev(s, mean) / s.len() as int;
        assert(v <= bound * bound) by (nonlinear_arith)
            requires
                crate::stats::sum_sq_dev(s, mean) <= s.len() * ((bound as int) * (bound as int)),
                v == crate::stats::sum_sq_dev(s, mean) / s.len() as int,
                s.len() >= 1,
                crate::stats::sum_sq_dev(s, mean) >= 0,
        ;
        lemma_sqrt_floor_bounds(v as nat);
        let r = sqrt_floor(v as nat);
        if r > bound {
            assert(r * r > bound * bound) by (nonlinear_arith)
                requires r >= bound + 1, bound >= 0
            ;
        }
    }
}

} // verus!
