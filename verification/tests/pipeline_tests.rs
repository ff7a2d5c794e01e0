use stream_clipper::audio::{
    analyze_audio, rms_peak_of, AudioAnalyzeSettings, AudioSpike,
};
use stream_clipper::chat::{analyze_chat, ChatAnalyzeSettings, ChatMessage, ChatSpike};
use stream_clipper::highlight::{
    apply_padding, enforce_free_tier_limit, merge_overlapping_highlights, overlaps,
    score_highlights, Highlight, HighlightSettings, HighlightType,
};
use stream_clipper::vad::{detect_voice_activity, filter_spikes_by_voice, VadSegment};

fn make_highlight(id: u32, start_ms: u64, end_ms: u64, score: u32) -> Highlight {
    Highlight {
        id,
        start_ms,
        end_ms,
        duration_ms: end_ms - start_ms,
        highlight_type: HighlightType::Audio,
        score,
        audio_score: Some(score),
        chat_score: None,
        reasons: Vec::new(),
    }
}

#[test]
fn test_vad_segment_creation() {
    let seg = VadSegment { start_ms: 0, end_ms: 500, voice_ratio: 500, has_voice: true };
    assert!(seg.has_voice);
}

#[test]
fn test_overlaps() {
    assert!(overlaps(0, 10000, 5000, 15000));
    assert!(overlaps(5000, 15000, 0, 10000));
    assert!(!overlaps(0, 5000, 10000, 15000));
    // Boundary-exclusive: touching ranges do not overlap.
    assert!(!overlaps(0, 5000, 5000, 10000));
}

#[test]
fn test_rms_peak_ranges() {
    // Full-scale extremes.
    let r = rms_peak_of(&[32767, -32768]);
    assert_eq!(r.1, 32768);
    assert_eq!(r.0, 32767);
    assert!(r.0 <= 32768 && r.1 <= 32768);
    // Silence and a single sample.
    assert_eq!(rms_peak_of(&[]), (0, 0));
    assert_eq!(rms_peak_of(&[0, 0, 0]), (0, 0));
    assert_eq!(rms_peak_of(&[100]), (100, 100));
}

#[test]
fn test_analyze_audio_empty() {
    let settings = AudioAnalyzeSettings::default();
    let r = analyze_audio(&Vec::new(), 22050, &settings);
    assert_eq!(r.unwrap_err(), "No audio samples found");
}

#[test]
fn test_analyze_audio_chunks_and_ranges() {
    // One second of audio at 8 kHz with half-second chunks: two chunks,
    // the first quiet, the second loud.
    let mut samples: Vec<i16> = vec![0; 4000];
    samples.extend(std::iter::repeat(16000).take(4000));
    let settings = AudioAnalyzeSettings::default();
    let r = analyze_audio(&samples, 8000, &settings).unwrap();
    assert_eq!(r.chunks.len(), 2);
    assert_eq!(r.chunks[0].start_ms, 0);
    assert_eq!(r.chunks[0].end_ms, 500);
    assert_eq!(r.chunks[1].start_ms, 500);
    assert_eq!(r.chunks[1].end_ms, 1000);
    assert_eq!(r.chunks[0].rms, 0);
    assert_eq!(r.chunks[1].rms, 16000);
    assert_eq!(r.chunks[1].peak, 16000);
    for c in &r.chunks {
        assert!(c.rms <= 32768 && c.peak <= 32768);
    }
    // Baseline is the median of the chunk RMS values.
    assert_eq!(r.baseline_rms, 8000);
    for s in &r.spikes {
        assert!(s.score <= 10000);
        assert!(s.end_ms > s.start_ms);
    }
}

#[test]
fn test_detect_voice_activity_shape() {
    let samples: Vec<i16> = vec![0; 16000];
    let segs = detect_voice_activity(&samples, 8000, 500).unwrap();
    assert_eq!(segs.len(), 4);
    for s in &segs {
        assert!(s.voice_ratio <= 1000);
        assert_eq!(s.has_voice, s.voice_ratio > 300);
    }
    // A rate the detector does not support natively goes through the
    // resampler and still covers the clip.
    let samples2: Vec<i16> = vec![0; 22050];
    let segs2 = detect_voice_activity(&samples2, 22050, 500).unwrap();
    assert!(!segs2.is_empty());
    for s in &segs2 {
        assert!(s.voice_ratio <= 1000);
    }
}

#[test]
fn test_filter_spikes_by_voice() {
    let segs = vec![
        VadSegment { start_ms: 0, end_ms: 500, voice_ratio: 600, has_voice: true },
        VadSegment { start_ms: 500, end_ms: 1000, voice_ratio: 200, has_voice: false },
        VadSegment { start_ms: 5000, end_ms: 5500, voice_ratio: 1000, has_voice: true },
    ];
    // Overlaps the first two: average (600 + 200) / 2 = 400 > 250.
    assert_eq!(filter_spikes_by_voice(&segs, 0, 1000), (true, 400));
    // No overlap.
    assert_eq!(filter_spikes_by_voice(&segs, 2000, 3000), (false, 0));
}

#[test]
fn test_analyze_chat_windows() {
    let mut messages = Vec::new();
    for t in 0..10u64 {
        messages.push(ChatMessage {
            timestamp_ms: t * 1000,
            username: if t % 2 == 0 { String::from("alice") } else { String::from("bob") },
            message: if t == 2 { String::from("POG go") } else { String::from("hello") },
            has_emote: t == 3,
        });
    }
    let settings = ChatAnalyzeSettings::default();
    let r = analyze_chat(&messages, &settings);
    // Messages span [0, 9000): two five-second windows.
    assert_eq!(r.windows.len(), 2);
    let w0 = &r.windows[0];
    assert_eq!((w0.start_ms, w0.end_ms), (0, 5000));
    assert_eq!(w0.message_count, 5);
    assert_eq!(w0.unique_users, 2);
    assert_eq!(w0.keyword_matches, 1);
    // One emote among five messages: 200 per-mille.
    assert_eq!(w0.emote_density, 200);
    // The last message sits at the range end and falls in the final window.
    assert_eq!(r.windows[1].message_count, 5);
    // Baseline is the median window rate in milli-messages.
    assert_eq!(r.baseline_rate, 5000);
    assert_eq!(r.threshold, 15000);
    for s in &r.spikes {
        assert!(s.score <= 10000);
        assert!(s.end_ms > s.start_ms);
    }
}

#[test]
fn test_analyze_chat_empty() {
    let settings = ChatAnalyzeSettings::default();
    let r = analyze_chat(&Vec::new(), &settings);
    assert!(r.windows.is_empty());
    assert_eq!(r.baseline_rate, 0);
    assert_eq!(r.threshold, 0);
    assert!(r.spikes.is_empty());
}

#[test]
fn test_chat_caps_ratio() {
    let messages = vec![ChatMessage {
        timestamp_ms: 0,
        username: String::from("a"),
        message: String::from("POG go"),
        has_emote: false,
    }, ChatMessage {
        timestamp_ms: 1000,
        username: String::from("a"),
        message: String::from("x"),
        has_emote: false,
    }];
    let settings = ChatAnalyzeSettings::default();
    let r = analyze_chat(&messages, &settings);
    // "POG go" and "x": six alphabetic characters, three uppercase.
    assert_eq!(r.windows[0].caps_ratio, 500);
}

#[test]
fn test_score_highlights_audio_only() {
    let audio_spikes = vec![AudioSpike {
        start_ms: 10000,
        end_ms: 15000,
        peak_rms: 26214,
        score: 8000,
    }];
    let chat_spikes = vec![];
    let settings = HighlightSettings::default();

    let highlights = score_highlights(&audio_spikes, &chat_spikes, &settings);

    assert_eq!(highlights.len(), 1);
    assert_eq!(highlights[0].highlight_type, HighlightType::Audio);
    // Audio weight 0.6 of an 80-point spike.
    assert_eq!(highlights[0].score, 4800);
    assert_eq!(highlights[0].id, 1);
}

#[test]
fn test_score_highlights_combo() {
    let audio_spikes = vec![AudioSpike {
        start_ms: 10000,
        end_ms: 20000,
        peak_rms: 26214,
        score: 8000,
    }];
    let chat_spikes = vec![ChatSpike {
        start_ms: 15000,
        end_ms: 25000,
        peak_rate: 50,
        keyword_score: 1000,
        score: 7000,
    }];
    let settings = HighlightSettings::default();

    let highlights = score_highlights(&audio_spikes, &chat_spikes, &settings);

    // Exactly one combo spanning the union of both ranges.
    assert_eq!(highlights.len(), 1);
    assert_eq!(highlights[0].highlight_type, HighlightType::Combo);
    assert_eq!(highlights[0].start_ms, 10000);
    assert_eq!(highlights[0].end_ms, 25000);
    assert_eq!(highlights[0].duration_ms, 15000);
    // (80 * 0.6 + 70 * 0.4) * 1.5 = 156 points, capped at 100.
    assert_eq!(highlights[0].score, 10000);
    assert_eq!(highlights[0].audio_score, Some(8000));
    assert_eq!(highlights[0].chat_score, Some(7000));
}

#[test]
fn test_score_highlights_capped() {
    let audio_spikes = vec![
        AudioSpike { start_ms: 0, end_ms: 2000, peak_rms: 20000, score: 5000 },
        AudioSpike { start_ms: 10000, end_ms: 12000, peak_rms: 20000, score: 6000 },
        AudioSpike { start_ms: 20000, end_ms: 22000, peak_rms: 20000, score: 7000 },
        AudioSpike { start_ms: 30000, end_ms: 32000, peak_rms: 20000, score: 8000 },
    ];
    let settings = HighlightSettings { max_clips: Some(2), ..Default::default() };
    let highlights = score_highlights(&audio_spikes, &vec![], &settings);
    // Exactly the cap, in start order, drawn from the candidate set.
    assert_eq!(highlights.len(), 2);
    assert!(highlights[0].start_ms <= highlights[1].start_ms);
    let starts: Vec<u64> = audio_spikes.iter().map(|s| s.start_ms).collect();
    for h in &highlights {
        assert!(starts.contains(&h.start_ms));
    }
    assert_eq!(highlights[0].id, 1);
    assert_eq!(highlights[1].id, 2);
}

#[test]
fn test_merge_overlapping() {
    let mut highlights = vec![
        make_highlight(1, 0, 10000, 8000),
        // Five seconds of overlap against a seven-second highlight: 71%.
        make_highlight(2, 5000, 12000, 9000),
    ];

    merge_overlapping_highlights(&mut highlights, 50);

    assert_eq!(highlights.len(), 1);
    assert_eq!(highlights[0].start_ms, 0);
    assert_eq!(highlights[0].end_ms, 12000);
    assert_eq!(highlights[0].score, 9000);
    assert_eq!(highlights[0].id, 1);
}

#[test]
fn test_merge_keeps_disjoint() {
    let mut highlights = vec![
        make_highlight(1, 0, 5000, 8000),
        make_highlight(2, 10000, 15000, 9000),
    ];
    merge_overlapping_highlights(&mut highlights, 50);
    assert_eq!(highlights.len(), 2);
    // Re-ranked by score.
    assert_eq!(highlights[0].score, 9000);
    assert_eq!(highlights[1].score, 8000);
}

#[test]
fn test_apply_padding() {
    let highlights = vec![make_highlight(1, 10000, 20000, 8000)];

    let padded = apply_padding(&highlights, 3000, 2000, 100000);

    assert_eq!(padded[0].0, 7000);
    assert_eq!(padded[0].1, 22000);
}

#[test]
fn test_apply_padding_clamps() {
    let highlights = vec![make_highlight(1, 1000, 99000, 8000)];
    let padded = apply_padding(&highlights, 3000, 2000, 100000);
    assert_eq!(padded[0], (0, 100000));
}

#[test]
fn test_free_tier_limit() {
    let mut many: Vec<Highlight> = (0..7u64).map(|i| make_highlight(
        (i + 1) as u32,
        i * 10000,
        i * 10000 + 5000,
        5000,
    )).collect();
    enforce_free_tier_limit(&mut many, false);
    assert_eq!(many.len(), 5);

    let mut pro: Vec<Highlight> = (0..7u64).map(|i| make_highlight(
        (i + 1) as u32,
        i * 10000,
        i * 10000 + 5000,
        5000,
    )).collect();
    enforce_free_tier_limit(&mut pro, true);
    assert_eq!(pro.len(), 7);
}

#[test]
fn test_parse_generic_txt() {
    let content = "[00:01:30] user1: Hello world\n[00:02:00] user2: POG";
    let messages = stream_clipper::chat::parse_generic_txt(content).unwrap();
    assert_eq!(messages.len(), 2);
    assert_eq!(messages[0].timestamp_ms, 90000);
    assert_eq!(messages[0].username, "user1");
    assert_eq!(messages[0].message, "Hello world");
    assert_eq!(messages[1].timestamp_ms, 120000);
    assert!(!messages[1].has_emote);
}

#[test]
fn test_parse_generic_txt_skips_malformed() {
    let content = "not a chat line\n1:02:03 solo: hi\r\n[9:59:59]   under_score:   spaced  ";
    let messages = stream_clipper::chat::parse_generic_txt(content).unwrap();
    assert_eq!(messages.len(), 2);
    assert_eq!(messages[0].timestamp_ms, (1 * 3600 + 2 * 60 + 3) * 1000);
    assert_eq!(messages[0].username, "solo");
    assert_eq!(messages[1].username, "under_score");
    assert_eq!(messages[1].message, "spaced  ");
    assert_eq!(messages[1].timestamp_ms, (9 * 3600 + 59 * 60 + 59) * 1000);
}

#[test]
fn test_score_highlights_stable_ties() {
    // Equal scores keep their construction order: ranking is stable, so
    // repeated runs give the identical list.
    let audio_spikes = vec![
        AudioSpike { start_ms: 30000, end_ms: 32000, peak_rms: 20000, score: 5000 },
        AudioSpike { start_ms: 10000, end_ms: 12000, peak_rms: 20000, score: 5000 },
    ];
    let settings = HighlightSettings::default();
    let a = score_highlights(&audio_spikes, &vec![], &settings);
    let b = score_highlights(&audio_spikes, &vec![], &settings);
    assert_eq!(a.len(), 2);
    assert_eq!(a[0].start_ms, 30000);
    assert_eq!(a[1].start_ms, 10000);
    assert_eq!(a.len(), b.len());
    for (x, y) in a.iter().zip(b.iter()) {
        assert_eq!((x.id, x.start_ms, x.end_ms, x.score), (y.id, y.start_ms, y.end_ms, y.score));
    }
}
