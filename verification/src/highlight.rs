//! Highlight fusion and merging: overlapping audio and chat spikes pair
//! into combo highlights, leftovers become single-signal highlights, the
//! list is ranked, optionally capped for the free tier by a time-seeded
//! random sample, and overlapping results are merged.  Scores are in
//! centi-points (0..=10000), weights and bonuses in percent.

use crate::audio::{audio_spike_wf, AudioSpike};
use crate::chat::{chat_spike_wf, ChatSpike};
use vstd::prelude::*;
use vstd::seq_lib::group_to_multiset_ensures;
use vstd::seq_lib::lemma_multiset_commutative;

verus! {

/// Which signals back a highlight.
#[derive(Debug, Clone, Copy, PartialEq, Eq, Structural)]
pub enum HighlightType {
    Audio,
    Chat,
    Combo,
}

/// A structured explanation entry; rendering to display text is the
/// caller's concern.
#[derive(Debug, Clone, Copy, PartialEq, Eq, Structural)]
pub enum Reason {
    AudioIntensity { score: u32 },
    ChatSurge { peak_rate: u32 },
    ComboBonus,
    VoiceActivity,
    KeywordMatches { keyword_score: u32 },
}

/// A detected highlight moment.
#[derive(Debug, Clone)]
pub struct Highlight {
    pub id: u32,
    pub start_ms: u64,
    pub end_ms: u64,
    pub duration_ms: u64,
    pub highlight_type: HighlightType,
    pub score: u32,
    pub audio_score: Option<u32>,
    pub chat_score: Option<u32>,
    pub reasons: Vec<Reason>,
}

/// The mathematical image of a highlight.
pub struct HighlightView {
    pub id: u32,
    pub start_ms: u64,
    pub end_ms: u64,
    pub duration_ms: u64,
    pub highlight_type: HighlightType,
    pub score: u32,
    pub audio_score: Option<u32>,
    pub chat_score: Option<u32>,
    pub reasons: Seq<Reason>,
}

impl View for Highlight {
    type V = HighlightView;

    open spec fn view(&self) -> HighlightView {
        HighlightView {
            id: self.id,
            start_ms: self.start_ms,
            end_ms: self.end_ms,
            duration_ms: self.duration_ms,
            highlight_type: self.highlight_type,
            score: self.score,
            audio_score: self.audio_score,
            chat_score: self.chat_score,
            reasons: self.reasons@,
        }
    }
}

/// The views of a highlight list.
pub open spec fn views_of(s: Seq<Highlight>) -> Seq<HighlightView> {
    Seq::new(s.len(), |i: int| s[i]@)
}

/// The same views with the display ids cleared.
pub open spec fn strip_ids(s: Seq<HighlightView>) -> Seq<HighlightView> {
    Seq::new(s.len(), |i: int| HighlightView { id: 0, ..s[i] })
}

/// A well-formed highlight: score within range, a positive span, and the
/// duration matching the span.
pub open spec fn hv_wf(h: HighlightView) -> bool {
    &&& h.score <= 10000
    &&& h.start_ms < h.end_ms
    &&& h.duration_ms == h.end_ms - h.start_ms
    &&& h.end_ms <= 0xFFFF_FFFF_FFFF
}

/// Fusion settings.  Weights and the combo bonus are in percent.
#[derive(Debug, Clone, Copy, PartialEq, Eq, Structural)]
pub struct HighlightSettings {
    pub audio_weight_pct: u32,
    pub chat_weight_pct: u32,
    pub combo_bonus_pct: u32,
    pub max_clips: Option<u32>,
}

impl HighlightSettings {
    /// The ranges the fusion stage assumes of its settings.
    pub open spec fn wf(self) -> bool {
        &&& self.audio_weight_pct <= 100
        &&& self.chat_weight_pct <= 100
        &&& 100 <= self.combo_bonus_pct <= 1000
    }
}

impl Default for HighlightSettings {
    /// Audio weighted 0.6, chat 0.4, a 1.5x combo bonus, no cap.
    fn default() -> (r: Self)
        ensures
            r.audio_weight_pct == 60,
            r.chat_weight_pct == 40,
            r.combo_bonus_pct == 150,
            r.max_clips is None,
            r.wf(),
    {
        HighlightSettings {
            audio_weight_pct: 60,
            chat_weight_pct: 40,
            combo_bonus_pct: 150,
            max_clips: None,
        }
    }
}

/// Two half-open time ranges overlap (boundary-exclusive).
pub open spec fn ranges_overlap(s1: int, e1: int, s2: int, e2: int) -> bool {
    s1 < e2 && s2 < e1
}

/// Boundary-exclusive overlap test of two half-open ranges.
pub fn overlaps(start1: u64, end1: u64, start2: u64, end2: u64) -> (r: bool)
    ensures
        r == ranges_overlap(start1 as int, end1 as int, start2 as int, end2 as int),
{
    start1 < end2 && start2 < end1
}

/// An audio spike and a chat spike pair up when their ranges overlap.
pub open spec fn spikes_overlap(a: AudioSpike, c: ChatSpike) -> bool {
    ranges_overlap(a.start_ms as int, a.end_ms as int, c.start_ms as int, c.end_ms as int)
}

/// The combo score: the weighted sum of both scores, amplified by the
/// combo bonus, capped at 100 points.
pub open spec fn combo_score(a: u32, c: u32, s: HighlightSettings) -> int {
    let weighted = (a * s.audio_weight_pct + c * s.chat_weight_pct) / 100;
    let boosted = weighted * s.combo_bonus_pct / 100;
    if boosted > 10000 {
        10000
    } else {
        boosted
    }
}

/// The combo highlight of an overlapping pair: the union of both spans.
pub open spec fn combo_view(a: AudioSpike, c: ChatSpike, s: HighlightSettings) -> HighlightView {
    let start = if a.start_ms < c.start_ms {
        a.start_ms
    } else {
        c.start_ms
    };
    let end = if a.end_ms > c.end_ms {
        a.end_ms
    } else {
        c.end_ms
    };
    HighlightView {
        id: 0,
        start_ms: start,
        end_ms: end,
        duration_ms: (end - start) as u64,
        highlight_type: HighlightType::Combo,
        score: combo_score(a.score, c.score, s) as u32,
        audio_score: Some(a.score),
        chat_score: Some(c.score),
        reasons: seq![
            Reason::AudioIntensity { score: a.score },
            Reason::ChatSurge { peak_rate: c.peak_rate },
            Reason::ComboBonus,
        ],
    }
}

/// The audio-only highlight of an unpaired audio spike.
pub open spec fn audio_only_view(a: AudioSpike, s: HighlightSettings) -> HighlightView {
    HighlightView {
        id: 0,
        start_ms: a.start_ms,
        end_ms: a.end_ms,
        duration_ms: (a.end_ms - a.start_ms) as u64,
        highlight_type: HighlightType::Audio,
        score: (a.score * s.audio_weight_pct / 100) as u32,
        audio_score: Some(a.score),
        chat_score: None,
        reasons: if a.score > 6000 {
            seq![Reason::AudioIntensity { score: a.score }, Reason::VoiceActivity]
        } else {
            seq![Reason::AudioIntensity { score: a.score }]
        },
    }
}

/// The chat-only highlight of an unpaired chat spike.
pub open spec fn chat_only_view(c: ChatSpike, s: HighlightSettings) -> HighlightView {
    HighlightView {
        id: 0,
        start_ms: c.start_ms,
        end_ms: c.end_ms,
        duration_ms: (c.end_ms - c.start_ms) as u64,
        highlight_type: HighlightType::Chat,
        score: (c.score * s.chat_weight_pct / 100) as u32,
        audio_score: None,
        chat_score: Some(c.score),
        reasons: seq![
            Reason::ChatSurge { peak_rate: c.peak_rate },
            Reason::KeywordMatches { keyword_score: c.keyword_score },
        ],
    }
}

/// The all-pairs walk: every overlapping (audio, chat) pair emits one
/// combo highlight, in row-major order.
pub open spec fn combo_pairs_fold(
    audio: Seq<AudioSpike>,
    chats: Seq<ChatSpike>,
    s: HighlightSettings,
    ai: int,
    cj: int,
    acc: Seq<HighlightView>,
) -> Seq<HighlightView>
    decreases audio.len() - ai, chats.len() - cj,
{
    if ai < 0 || cj < 0 || ai >= audio.len() {
        acc
    } else if cj >= chats.len() {
        combo_pairs_fold(audio, chats, s, ai + 1, 0, acc)
    } else {
        combo_pairs_fold(
            audio,
            chats,
            s,
            ai,
            cj + 1,
            if spikes_overlap(audio[ai], chats[cj]) {
                acc.push(combo_view(audio[ai], chats[cj], s))
            } else {
                acc
            },
        )
    }
}

/// An audio spike is consumed when any chat spike overlaps it.
pub open spec fn audio_consumed(a: AudioSpike, chats: Seq<ChatSpike>) -> bool {
    exists|j: int| 0 <= j < chats.len() && spikes_overlap(a, #[trigger] chats[j])
}

/// A chat spike is consumed when any audio spike overlaps it.
pub open spec fn chat_consumed(c: ChatSpike, audio: Seq<AudioSpike>) -> bool {
    exists|i: int| 0 <= i < audio.len() && spikes_overlap(#[trigger] audio[i], c)
}

/// Unconsumed audio spikes become audio-only highlights, in order.
pub open spec fn audio_leftover_fold(
    audio: Seq<AudioSpike>,
    chats: Seq<ChatSpike>,
    s: HighlightSettings,
    i: int,
    acc: Seq<HighlightView>,
) -> Seq<HighlightView>
    decreases audio.len() - i,
{
    if i < 0 || i >= audio.len() {
        acc
    } else {
        audio_leftover_fold(
            audio,
            chats,
            s,
            i + 1,
            if audio_consumed(audio[i], chats) {
                acc
            } else {
                acc.push(audio_only_view(audio[i], s))
            },
        )
    }
}

/// Unconsumed chat spikes become chat-only highlights, in order.
pub open spec fn chat_leftover_fold(
    audio: Seq<AudioSpike>,
    chats: Seq<ChatSpike>,
    s: HighlightSettings,
    j: int,
    acc: Seq<HighlightView>,
) -> Seq<HighlightView>
    decreases chats.len() - j,
{
    if j < 0 || j >= chats.len() {
        acc
    } else {
        chat_leftover_fold(
            audio,
            chats,
            s,
            j + 1,
            if chat_consumed(chats[j], audio) {
                acc
            } else {
                acc.push(chat_only_view(chats[j], s))
            },
        )
    }
}

/// Every highlight the fusion emits before ranking: all combos, then
/// audio leftovers, then chat leftovers.
pub open spec fn fused_views(
    audio: Seq<AudioSpike>,
    chats: Seq<ChatSpike>,
    s: HighlightSettings,
) -> Seq<HighlightView> {
    chat_leftover_fold(
        audio,
        chats,
        s,
        0,
        audio_leftover_fold(audio, chats, s, 0, combo_pairs_fold(audio, chats, s, 0, 0, Seq::empty())),
    )
}

/// Every highlight the fusion builds is well formed when the spikes and
/// settings are.
pub proof fn lemma_fused_views_wf(
    audio: Seq<AudioSpike>,
    chats: Seq<ChatSpike>,
    s: HighlightSettings,
)
    requires
        s.wf(),
        forall|i: int| 0 <= i < audio.len() ==> audio_spike_wf(#[trigger] audio[i]),
        forall|j: int| 0 <= j < chats.len() ==> chat_spike_wf(#[trigger] chats[j]),
        forall|i: int| 0 <= i < audio.len() ==> (#[trigger] audio[i]).end_ms <= 0xFFFF_FFFF_FFFF,
        forall|j: int| 0 <= j < chats.len() ==> (#[trigger] chats[j]).end_ms <= 0xFFFF_FFFF_FFFF,
    ensures
        forall|k: int| 0 <= k < fused_views(audio, chats, s).len() ==> hv_wf(
            #[trigger] fused_views(audio, chats, s)[k],
        ),
{
    let combos = combo_pairs_fold(audio, chats, s, 0, 0, Seq::empty());
    lemma_combo_fold_wf(audio, chats, s, 0, 0, Seq::empty());
    let with_audio = audio_leftover_fold(audio, chats, s, 0, combos);
    lemma_audio_fold_wf(audio, chats, s, 0, combos);
    lemma_chat_fold_wf(audio, chats, s, 0, with_audio);
}

proof fn lemma_combo_view_wf(a: AudioSpike, c: ChatSpike, s: HighlightSettings)
    requires
        s.wf(),
        audio_spike_wf(a),
        chat_spike_wf(c),
        a.end_ms <= 0xFFFF_FFFF_FFFF,
        c.end_ms <= 0xFFFF_FFFF_FFFF,
    ensures
        hv_wf(combo_view(a, c, s)),
{
    assert(a.score * s.audio_weight_pct <= 10000 * 100) by (nonlinear_arith)
        requires a.score <= 10000, s.audio_weight_pct <= 100
    ;
    assert(c.score * s.chat_weight_pct <= 10000 * 100) by (nonlinear_arith)
        requires c.score <= 10000, s.chat_weight_pct <= 100
    ;
    assert(a.score * s.audio_weight_pct >= 0) by (nonlinear_arith);
    assert(c.score * s.chat_weight_pct >= 0) by (nonlinear_arith);
    let weighted = (a.score * s.audio_weight_pct + c.score * s.chat_weight_pct) / 100;
    assert(weighted * s.combo_bonus_pct >= 0) by (nonlinear_arith)
        requires weighted >= 0, s.combo_bonus_pct >= 0
    ;
}

proof fn lemma_audio_view_wf(a: AudioSpike, s: HighlightSettings)
    requires
        s.wf(),
        audio_spike_wf(a),
        a.end_ms <= 0xFFFF_FFFF_FFFF,
    ensures
        hv_wf(audio_only_view(a, s)),
{
    assert(0 <= a.score * s.audio_weight_pct <= 10000 * 100) by (nonlinear_arith)
        requires a.score <= 10000, s.audio_weight_pct <= 100
    ;
}

proof fn lemma_chat_view_wf(c: ChatSpike, s: HighlightSettings)
    requires
        s.wf(),
        chat_spike_wf(c),
        c.end_ms <= 0xFFFF_FFFF_FFFF,
    ensures
        hv_wf(chat_only_view(c, s)),
{
    assert(0 <= c.score * s.chat_weight_pct <= 10000 * 100) by (nonlinear_arith)
        requires c.score <= 10000, s.chat_weight_pct <= 100
    ;
}

proof fn lemma_combo_fold_wf(
    audio: Seq<AudioSpike>,
    chats: Seq<ChatSpike>,
    s: HighlightSettings,
    ai: int,
    cj: int,
    acc: Seq<HighlightView>,
)
    requires
        s.wf(),
        forall|i: int| 0 <= i < audio.len() ==> audio_spike_wf(#[trigger] audio[i]),
        forall|j: int| 0 <= j < chats.len() ==> chat_spike_wf(#[trigger] chats[j]),
        forall|i: int| 0 <= i < audio.len() ==> (#[trigger] audio[i]).end_ms <= 0xFFFF_FFFF_FFFF,
        forall|j: int| 0 <= j < chats.len() ==> (#[trigger] chats[j]).end_ms <= 0xFFFF_FFFF_FFFF,
        forall|k: int| 0 <= k < acc.len() ==> hv_wf(#[trigger] acc[k]),
    ensures
        forall|k: int| 0 <= k < combo_pairs_fold(audio, chats, s, ai, cj, acc).len() ==> hv_wf(
            #[trigger] combo_pairs_fold(audio, chats, s, ai, cj, acc)[k],
        ),
    decreases audio.len() - ai, chats.len() - cj,
{
    if ai < 0 || cj < 0 || ai >= audio.len() {
    } else if cj >= chats.len() {
        lemma_combo_fold_wf(audio, chats, s, ai + 1, 0, acc);
        let r0 = combo_pairs_fold(audio, chats, s, ai, cj, acc);
        let r1 = combo_pairs_fold(audio, chats, s, ai + 1, 0, acc);
        assert(r0 == r1);
        assert forall|k: int| 0 <= k < r0.len() implies hv_wf(#[trigger] r0[k]) by {
            assert(r0[k] == r1[k]);
        }
    } else {
        if spikes_overlap(audio[ai], chats[cj]) {
            lemma_combo_view_wf(audio[ai], chats[cj], s);
        }
        let acc2 = if spikes_overlap(audio[ai], chats[cj]) {
            acc.push(combo_view(audio[ai], chats[cj], s))
        } else {
            acc
        };
        lemma_combo_fold_wf(audio, chats, s, ai, cj + 1, acc2);
        let r0 = combo_pairs_fold(audio, chats, s, ai, cj, acc);
        let r1 = combo_pairs_fold(audio, chats, s, ai, cj + 1, acc2);
        assert(r0 == r1);
        assert forall|k: int| 0 <= k < r0.len() implies hv_wf(#[trigger] r0[k]) by {
            assert(r0[k] == r1[k]);
        }
    }
}

proof fn lemma_audio_fold_wf(
    audio: Seq<AudioSpike>,
    chats: Seq<ChatSpike>,
    s: HighlightSettings,
    i: int,
    acc: Seq<HighlightView>,
)
    requires
        s.wf(),
        forall|t: int| 0 <= t < audio.len() ==> audio_spike_wf(#[trigger] audio[t]),
        forall|t: int| 0 <= t < audio.len() ==> (#[trigger] audio[t]).end_ms <= 0xFFFF_FFFF_FFFF,
        forall|k: int| 0 <= k < acc.len() ==> hv_wf(#[trigger] acc[k]),
    ensures
        forall|k: int| 0 <= k < audio_leftover_fold(audio, chats, s, i, acc).len() ==> hv_wf(
            #[trigger] audio_leftover_fold(audio, chats, s, i, acc)[k],
        ),
    decreases audio.len() - i,
{
    if 0 <= i < audio.len() {
        if !audio_consumed(audio[i], chats) {
            lemma_audio_view_wf(audio[i], s);
        }
        let acc2 = if audio_consumed(audio[i], chats) {
            acc
        } else {
            acc.push(audio_only_view(audio[i], s))
        };
        lemma_audio_fold_wf(audio, chats, s, i + 1, acc2);
        let r0 = audio_leftover_fold(audio, chats, s, i, acc);
        let r1 = audio_leftover_fold(audio, chats, s, i + 1, acc2);
        assert(r0 == r1);
        assert forall|k: int| 0 <= k < r0.len() implies hv_wf(#[trigger] r0[k]) by {
            assert(r0[k] == r1[k]);
        }
    }
}

proof fn lemma_chat_fold_wf(
    audio: Seq<AudioSpike>,
    chats: Seq<ChatSpike>,
    s: HighlightSettings,
    j: int,
    acc: Seq<HighlightView>,
)
    requires
        s.wf(),
        forall|t: int| 0 <= t < chats.len() ==> chat_spike_wf(#[trigger] chats[t]),
        forall|t: int| 0 <= t < chats.len() ==> (#[trigger] chats[t]).end_ms <= 0xFFFF_FFFF_FFFF,
        forall|k: int| 0 <= k < acc.len() ==> hv_wf(#[trigger] acc[k]),
    ensures
        forall|k: int| 0 <= k < chat_leftover_fold(audio, chats, s, j, acc).len() ==> hv_wf(
            #[trigger] chat_leftover_fold(audio, chats, s, j, acc)[k],
        ),
    decreases chats.len() - j,
{
    if 0 <= j < chats.len() {
        if !chat_consumed(chats[j], audio) {
            lemma_chat_view_wf(chats[j], s);
        }
        let acc2 = if chat_consumed(chats[j], audio) {
            acc
        } else {
            acc.push(chat_only_view(chats[j], s))
        };
        lemma_chat_fold_wf(audio, chats, s, j + 1, acc2);
        let r0 = chat_leftover_fold(audio, chats, s, j, acc);
        let r1 = chat_leftover_fold(audio, chats, s, j + 1, acc2);
        assert(r0 == r1);
        assert forall|k: int| 0 <= k < r0.len() implies hv_wf(#[trigger] r0[k]) by {
            assert(r0[k] == r1[k]);
        }
    }
}

/// Highlight lists in descending score order.
pub open spec fn views_sorted_desc(s: Seq<HighlightView>) -> bool {
    forall|i: int, j: int| 0 <= i < j < s.len() ==> (#[trigger] s[i]).score >= (#[trigger] s[j]).score
}

/// Highlight lists in ascending start-time order.
pub open spec fn views_sorted_by_start(s: Seq<HighlightView>) -> bool {
    forall|i: int, j: int| 0 <= i < j < s.len() ==> (#[trigger] s[i]).start_ms <= (#[trigger] s[j]).start_ms
}

proof fn lemma_view_insert_to_multiset(s: Seq<HighlightView>, j: int, x: HighlightView)
    requires
        0 <= j <= s.len(),
    ensures
        s.insert(j, x).to_multiset() == s.to_multiset().insert(x),
{
    broadcast use group_to_multiset_ensures;

    let t = s.insert(j, x);
    assert(t.remove(j) =~= s);
    assert(t.remove(j).to_multiset() =~= t.to_multiset().remove(t[j]));
    assert(t[j] == x);
    assert(t.to_multiset().count(x) > 0) by {
        assert(t.contains(x));
    }
    assert(t.to_multiset().remove(x).insert(x) =~= t.to_multiset());
}

/// `x` placed into a score-descending list, after any entries with the
/// same score (the stable position).
pub open spec fn sds_insert(acc: Seq<HighlightView>, x: HighlightView) -> Seq<HighlightView>
    decreases acc.len(),
{
    if acc.len() == 0 {
        seq![x]
    } else if acc[0].score < x.score {
        seq![x] + acc
    } else {
        seq![acc[0]] + sds_insert(acc.drop_first(), x)
    }
}

/// Stable insertion sort by descending score, element by element.
pub open spec fn sds_fold(s: Seq<HighlightView>, i: int, acc: Seq<HighlightView>) -> Seq<
    HighlightView,
>
    decreases s.len() - i,
{
    if i < 0 || i >= s.len() {
        acc
    } else {
        sds_fold(s, i + 1, sds_insert(acc, s[i]))
    }
}

/// The unique stable reordering of a highlight list by descending score.
pub open spec fn score_sorted_stable(s: Seq<HighlightView>) -> Seq<HighlightView> {
    sds_fold(s, 0, Seq::empty())
}

/// Inserting into a score-descending list at the first position whose
/// score falls below the new entry's is exactly the stable insertion.
proof fn lemma_sds_insert_position(acc: Seq<HighlightView>, x: HighlightView, j: int)
    requires
        views_sorted_desc(acc),
        0 <= j <= acc.len(),
        forall|k: int| 0 <= k < j ==> (#[trigger] acc[k]).score >= x.score,
        j < acc.len() ==> acc[j].score < x.score,
    ensures
        sds_insert(acc, x) == acc.insert(j, x),
    decreases acc.len(),
{
    if acc.len() == 0 {
        assert(sds_insert(acc, x) =~= acc.insert(0, x));
    } else if acc[0].score < x.score {
        assert(j == 0);
        assert(sds_insert(acc, x) =~= acc.insert(0, x));
    } else {
        assert(j >= 1) by {
            if j == 0 {
                assert(acc[0].score < x.score);
            }
        }
        let tail = acc.drop_first();
        assert(views_sorted_desc(tail)) by {
            assert(forall|a: int, b: int| 0 <= a < b < tail.len() ==> tail[a] == acc[a + 1]
                && tail[b] == acc[b + 1]);
        }
        assert(forall|k: int| 0 <= k < j - 1 ==> (#[trigger] tail[k]).score >= x.score) by {
            assert(forall|k: int| 0 <= k < j - 1 ==> tail[k] == acc[k + 1]);
        }
        assert(j - 1 < tail.len() ==> tail[j - 1].score < x.score) by {
            if j - 1 < tail.len() {
                assert(tail[j - 1] == acc[j]);
            }
        }
        lemma_sds_insert_position(tail, x, j - 1);
        assert(sds_insert(acc, x) =~= acc.insert(j, x)) by {
            assert(sds_insert(acc, x) == seq![acc[0]] + tail.insert(j - 1, x));
        }
    }
}

/// Sorts highlights by score, highest first, keeping the input order of
/// equal scores; the result is exactly the stable reordering.
fn sort_highlights_desc(v: &mut Vec<Highlight>)
    ensures
        views_of(final(v)@) == score_sorted_stable(views_of(old(v)@)),
        views_sorted_desc(views_of(final(v)@)),
        views_of(final(v)@).to_multiset() == views_of(old(v)@).to_multiset(),
        final(v)@.len() == old(v)@.len(),
{
    let ghost orig = views_of(v@);
    proof {
        assert(views_of(v@.subrange(0, 0)) =~= Seq::<HighlightView>::empty());
    }
    let mut i: usize = 0;
    while i < v.len()
        invariant
            i <= v.len(),
            v@.len() == old(v)@.len(),
            orig == views_of(old(v)@),
            v@.subrange(i as int, v@.len() as int) =~= old(v)@.subrange(
                i as int,
                old(v)@.len() as int,
            ),
            views_sorted_desc(views_of(v@.subrange(0, i as int))),
            views_of(v@).to_multiset() == views_of(old(v)@).to_multiset(),
            sds_fold(orig, 0, Seq::empty()) == sds_fold(
                orig,
                i as int,
                views_of(v@.subrange(0, i as int)),
            ),
        decreases v.len() - i,
    {
        let ghost v_top = v@;
        let x = v.remove(i);
        proof {
            assert(v_top.subrange(i as int, v_top.len() as int)[0] == v_top[i as int]);
            assert(old(v)@.subrange(i as int, old(v)@.len() as int)[0] == old(v)@[i as int]);
            assert(x == old(v)@[i as int]);
            assert(x@ == orig[i as int]);
        }
        let ghost s_rem = v@;
        let mut j: usize = 0;
        while j < i && v[j].score >= x.score
            invariant
                j <= i <= v@.len(),
                v@ == s_rem,
                forall|k: int| 0 <= k < j ==> (#[trigger] v@[k]).score >= x.score,
            decreases i - j,
        {
            j += 1;
        }
        v.insert(j, x);
        proof {
            broadcast use group_to_multiset_ensures;

            let pre = views_of(s_rem.subrange(0, i as int));
            assert(s_rem.subrange(0, i as int) =~= v_top.subrange(0, i as int));
            assert(views_sorted_desc(views_of(v_top.subrange(0, i as int))));
            assert(views_sorted_desc(pre)) by {
                assert(forall|k: int| 0 <= k < i ==> pre[k] == views_of(
                    v_top.subrange(0, i as int),
                )[k]);
            }
            assert(forall|k: int| 0 <= k < j ==> (#[trigger] pre[k]).score >= x@.score) by {
                assert(forall|k: int| 0 <= k < j ==> pre[k] == s_rem[k]@);
            }
            assert(j < i ==> pre[j as int].score < x@.score) by {
                if j < i {
                    assert(pre[j as int] == s_rem[j as int]@);
                }
            }
            lemma_sds_insert_position(pre, x@, j as int);
            assert(views_of(v@.subrange(0, i as int + 1)) =~= pre.insert(j as int, x@));
            assert(views_of(v@.subrange(0, i as int + 1)) == sds_insert(pre, x@));
            assert(views_sorted_desc(views_of(v@.subrange(0, i as int + 1)))) by {
                let cur = views_of(v@.subrange(0, i as int + 1));
                assert(forall|k: int| 0 <= k < j ==> cur[k] == pre[k]);
                assert(cur[j as int] == x@);
                assert(forall|k: int| j < k <= i ==> cur[k] == pre[k - 1]);
                assert(forall|k: int| j as int <= k < i ==> x@.score > (#[trigger] pre[k]).score)
                    by {
                    if j < i {
                        assert(forall|k: int| j as int <= k < i ==> (#[trigger] pre[k]).score
                            <= pre[j as int].score);
                    }
                }
            }
            assert(v@.subrange(i as int + 1, v@.len() as int) =~= old(v)@.subrange(
                i as int + 1,
                old(v)@.len() as int,
            )) by {
                assert(forall|k: int| i < k < v@.len() ==> v@[k] == s_rem[k - 1]);
                assert(forall|k: int| i < k < v@.len() ==> s_rem[k - 1] == v_top[k]);
                assert(forall|k: int| i < k < v@.len() ==> v_top[k] == old(v)@[k]) by {
                    assert(forall|k: int| i <= k < v_top.len() ==> v_top.subrange(
                        i as int,
                        v_top.len() as int,
                    )[k - i] == v_top[k] && old(v)@.subrange(i as int, old(v)@.len() as int)[k
                        - i] == old(v)@[k]);
                }
            }
            assert(sds_fold(orig, i as int, pre) == sds_fold(
                orig,
                i as int + 1,
                views_of(v@.subrange(0, i as int + 1)),
            ));
            // Multiset preservation of the remove/insert pair.
            assert(s_rem.insert(i as int, x) =~= v_top);
            assert(views_of(v@) =~= views_of(s_rem).insert(j as int, x@));
            assert(views_of(s_rem) =~= views_of(v_top).remove(i as int));
            assert(views_of(v_top)[i as int] == x@);
            lemma_view_insert_to_multiset(views_of(s_rem), j as int, x@);
            assert(views_of(v_top).remove(i as int).to_multiset() =~= views_of(
                v_top,
            ).to_multiset().remove(views_of(v_top)[i as int]));
            assert(views_of(v_top).to_multiset().count(x@) > 0) by {
                assert(views_of(v_top).contains(x@));
            }
            assert(views_of(v_top).to_multiset().remove(x@).insert(x@) =~= views_of(
                v_top,
            ).to_multiset());
            assert(views_of(v@).to_multiset() =~= views_of(v_top).to_multiset());
        }
        i += 1;
    }
    proof {
        assert(v@.subrange(0, v@.len() as int) =~= v@);
        assert(views_of(v@) == sds_fold(orig, v@.len() as int, views_of(v@)));
    }
}

/// Relies on std's `SystemTime::now` against the Unix epoch: a seed that
/// varies between runs; nothing is promised of its value.
#[verifier::external_body]
fn time_seed() -> u64 {
    std::time::SystemTime::now().duration_since(std::time::UNIX_EPOCH).map(
        |d| d.as_nanos() as u64,
    ).unwrap_or(42)
}

/// Relies on rand's `SliceRandom::shuffle` with a `StdRng` seeded from
/// `seed`: the elements are permuted in place, so the view multiset is
/// unchanged whatever order comes out.
#[verifier::external_body]
fn shuffle_highlights(v: &mut Vec<Highlight>, seed: u64)
    ensures
        final(v)@.len() == old(v)@.len(),
        views_of(final(v)@).to_multiset() == views_of(old(v)@).to_multiset(),
{
    let mut rng = <rand::rngs::StdRng as rand::SeedableRng>::seed_from_u64(seed);
    rand::seq::SliceRandom::shuffle(v.as_mut_slice(), &mut rng);
}

/// Clears the display id of a single highlight list entry, giving the
/// sequential value instead.
fn assign_ids(v: &mut Vec<Highlight>)
    requires
        old(v)@.len() <= 0xFFFF_FFFF,
    ensures
        final(v)@.len() == old(v)@.len(),
        strip_ids(views_of(final(v)@)) == strip_ids(views_of(old(v)@)),
        forall|k: int| 0 <= k < final(v)@.len() ==> (#[trigger] final(v)@[k]).id == k + 1,
{
    let n = v.len();
    let mut i: usize = 0;
    while i < n
        invariant
            i <= n == v@.len() <= 0xFFFF_FFFF,
            strip_ids(views_of(v@)) =~= strip_ids(views_of(old(v)@)),
            forall|k: int| 0 <= k < i ==> (#[trigger] v@[k]).id == k + 1,
        decreases n - i,
    {
        let ghost prev = v@;
        let mut x = v.remove(i);
        x.id = (i + 1) as u32;
        v.insert(i, x);
        proof {
            assert(v@ =~= prev.update(i as int, v@[i as int]));
            assert(strip_ids(views_of(v@)) =~= strip_ids(views_of(prev)));
        }
        i += 1;
    }
}

/// Fuses audio and chat spikes into a ranked highlight list.  Every
/// overlapping pair gives a combo highlight; unpaired spikes give
/// single-signal highlights; the list is sorted by descending score.  A
/// configured cap larger than the list leaves it whole; a smaller cap
/// keeps a randomly sampled subset of exactly the cap size, re-sorted by
/// start time.  Ids are sequential from 1 in the final order.
#[verifier::rlimit(100)]
pub fn score_highlights(
    audio_spikes: &Vec<AudioSpike>,
    chat_spikes: &Vec<ChatSpike>,
    settings: &HighlightSettings,
) -> (r: Vec<Highlight>)
    requires
        settings.wf(),
        forall|i: int| 0 <= i < audio_spikes@.len() ==> audio_spike_wf(#[trigger] audio_spikes@[i]),
        forall|j: int| 0 <= j < chat_spikes@.len() ==> chat_spike_wf(#[trigger] chat_spikes@[j]),
        forall|i: int| 0 <= i < audio_spikes@.len() ==> (#[trigger] audio_spikes@[i]).end_ms
            <= 0xFFFF_FFFF_FFFF,
        forall|j: int| 0 <= j < chat_spikes@.len() ==> (#[trigger] chat_spikes@[j]).end_ms
            <= 0xFFFF_FFFF_FFFF,
        audio_spikes@.len() <= 0x7FFF,
        chat_spikes@.len() <= 0x7FFF,
    ensures
        ({
            let fused = fused_views(audio_spikes@, chat_spikes@, *settings);
            let capped = settings.max_clips matches Some(m) && fused.len() > m;
            &&& forall|k: int| 0 <= k < r@.len() ==> (#[trigger] r@[k]).id == k + 1
            &&& forall|k: int| 0 <= k < r@.len() ==> hv_wf(#[trigger] r@[k]@)
            &&& (!capped ==> {
                &&& strip_ids(views_of(r@)) == score_sorted_stable(fused)
                &&& strip_ids(views_of(r@)).to_multiset() == fused.to_multiset()
                &&& views_sorted_desc(views_of(r@))
            })
            &&& (capped ==> {
                &&& r@.len() == settings.max_clips->0
                &&& strip_ids(views_of(r@)).to_multiset().subset_of(fused.to_multiset())
                &&& views_sorted_by_start(views_of(r@))
            })
        }),
{
    let na = audio_spikes.len();
    let nc = chat_spikes.len();
    let mut highlights: Vec<Highlight> = Vec::new();
    let ghost s = *settings;
    let ghost aseq = audio_spikes@;
    let ghost cseq = chat_spikes@;
    let mut used_audio: Vec<bool> = Vec::new();
    let mut used_chat: Vec<bool> = Vec::new();
    let mut t: usize = 0;
    while t < na
        invariant
            t <= na,
            used_audio@.len() == t,
            forall|k: int| 0 <= k < t ==> !(#[trigger] used_audio@[k]),
        decreases na - t,
    {
        used_audio.push(false);
        t += 1;
    }
    t = 0;
    while t < nc
        invariant
            t <= nc,
            used_chat@.len() == t,
            forall|k: int| 0 <= k < t ==> !(#[trigger] used_chat@[k]),
        decreases nc - t,
    {
        used_chat.push(false);
        t += 1;
    }
    proof {
        assert(views_of(highlights@) =~= Seq::<HighlightView>::empty());
    }
    let mut ai: usize = 0;
    while ai < na
        invariant
            ai <= na == aseq.len(),
            nc == cseq.len(),
            aseq == audio_spikes@,
            cseq == chat_spikes@,
            s == *settings,
            settings.wf(),
            forall|i: int| 0 <= i < aseq.len() ==> audio_spike_wf(#[trigger] aseq[i]),
            forall|j: int| 0 <= j < cseq.len() ==> chat_spike_wf(#[trigger] cseq[j]),
            used_audio@.len() == na,
            used_chat@.len() == nc,
            forall|k: int| 0 <= k < ai ==> (#[trigger] used_audio@[k]) == audio_consumed(
                aseq[k],
                cseq,
            ),
            forall|k: int| ai <= k < na ==> !(#[trigger] used_audio@[k]),
            forall|k: int| 0 <= k < nc ==> (#[trigger] used_chat@[k]) == exists|i2: int|
                0 <= i2 < ai && spikes_overlap(aseq[i2], cseq[k]),
            na <= 0x7FFF,
            nc <= 0x7FFF,
            highlights@.len() <= ai * nc,
            combo_pairs_fold(aseq, cseq, s, 0, 0, Seq::empty()) == combo_pairs_fold(
                aseq,
                cseq,
                s,
                ai as int,
                0,
                views_of(highlights@),
            ),
        decreases na - ai,
    {
        proof {
            assert((ai as int) * nc + nc == (ai as int + 1) * nc) by (nonlinear_arith);
        }
        let mut cj: usize = 0;
        while cj < nc
            invariant
                cj <= nc == cseq.len(),
                ai < na == aseq.len(),
                na <= 0x7FFF,
                nc <= 0x7FFF,
                aseq == audio_spikes@,
                cseq == chat_spikes@,
                s == *settings,
                settings.wf(),
                forall|i: int| 0 <= i < aseq.len() ==> audio_spike_wf(#[trigger] aseq[i]),
                forall|j: int| 0 <= j < cseq.len() ==> chat_spike_wf(#[trigger] cseq[j]),
                used_audio@.len() == na,
                used_chat@.len() == nc,
                forall|k: int| 0 <= k < ai ==> (#[trigger] used_audio@[k]) == audio_consumed(
                    aseq[k],
                    cseq,
                ),
                used_audio@[ai as int] == exists|j2: int|
                    0 <= j2 < cj && spikes_overlap(aseq[ai as int], #[trigger] cseq[j2]),
                forall|k: int| ai < k < na ==> !(#[trigger] used_audio@[k]),
                forall|k: int| 0 <= k < nc ==> (#[trigger] used_chat@[k]) == ((exists|i2: int|
                    0 <= i2 < ai && spikes_overlap(aseq[i2], cseq[k])) || (k < cj
                    && spikes_overlap(aseq[ai as int], cseq[k]))),
                highlights@.len() <= ai * nc + cj,
                combo_pairs_fold(aseq, cseq, s, 0, 0, Seq::empty()) == combo_pairs_fold(
                    aseq,
                    cseq,
                    s,
                    ai as int,
                    cj as int,
                    views_of(highlights@),
                ),
            decreases nc - cj,
        {
            let a = audio_spikes[ai];
            let c = chat_spikes[cj];
            let ghost old_views = views_of(highlights@);
            if overlaps(a.start_ms, a.end_ms, c.start_ms, c.end_ms) {
                let start = if a.start_ms < c.start_ms {
                    a.start_ms
                } else {
                    c.start_ms
                };
                let end = if a.end_ms > c.end_ms {
                    a.end_ms
                } else {
                    c.end_ms
                };
                proof {
                    assert(a.score * settings.audio_weight_pct <= 10000 * 100)
                        by (nonlinear_arith)
                        requires a.score <= 10000, settings.audio_weight_pct <= 100
                    ;
                    assert(c.score * settings.chat_weight_pct <= 10000 * 100)
                        by (nonlinear_arith)
                        requires c.score <= 10000, settings.chat_weight_pct <= 100
                    ;
                    assert(((a.score * settings.audio_weight_pct + c.score
                        * settings.chat_weight_pct) / 100) * settings.combo_bonus_pct <= 20000u64
                        * 1000) by (nonlinear_arith)
                        requires
                            (a.score * settings.audio_weight_pct + c.score
                                * settings.chat_weight_pct) / 100 <= 20000u64,
                            settings.combo_bonus_pct <= 1000,
                    ;
                }
                let weighted: u64 = ((a.score as u64) * (settings.audio_weight_pct as u64) + (
                c.score as u64) * (settings.chat_weight_pct as u64)) / 100;
                let boosted: u64 = weighted * (settings.combo_bonus_pct as u64) / 100;
                let score: u32 = if boosted > 10000 {
                    10000
                } else {
                    boosted as u32
                };
                let mut reasons: Vec<Reason> = Vec::new();
                reasons.push(Reason::AudioIntensity { score: a.score });
                reasons.push(Reason::ChatSurge { peak_rate: c.peak_rate });
                reasons.push(Reason::ComboBonus);
                let h = Highlight {
                    id: 0,
                    start_ms: start,
                    end_ms: end,
                    duration_ms: end - start,
                    highlight_type: HighlightType::Combo,
                    score,
                    audio_score: Some(a.score),
                    chat_score: Some(c.score),
                    reasons,
                };
                proof {
                    assert(h@ == combo_view(aseq[ai as int], cseq[cj as int], s)) by {
                        assert(h@.reasons =~= combo_view(aseq[ai as int], cseq[cj as int], s).reasons);
                    }
                }
                highlights.push(h);
                used_audio.set(ai, true);
                used_chat.set(cj, true);
                proof {
                    assert(views_of(highlights@) =~= old_views.push(
                        combo_view(aseq[ai as int], cseq[cj as int], s),
                    ));
                }
            }
            proof {
                assert(combo_pairs_fold(aseq, cseq, s, ai as int, cj as int, old_views)
                    == combo_pairs_fold(
                    aseq,
                    cseq,
                    s,
                    ai as int,
                    cj as int + 1,
                    views_of(highlights@),
                ));
            }
            cj += 1;
        }
        proof {
            assert(used_audio@[ai as int] == audio_consumed(aseq[ai as int], cseq));
            assert forall|k: int| 0 <= k < nc implies (#[trigger] used_chat@[k]) == (exists|i2: int|
                0 <= i2 < ai as int + 1 && spikes_overlap(aseq[i2], cseq[k])) by {
                if used_chat@[k] {
                    if exists|i2: int| 0 <= i2 < ai as int && spikes_overlap(aseq[i2], cseq[k]) {
                        let w = choose|i2: int|
                            0 <= i2 < ai as int && spikes_overlap(aseq[i2], cseq[k]);
                        assert(0 <= w < ai as int + 1 && spikes_overlap(aseq[w], cseq[k]));
                    } else {
                        assert(spikes_overlap(aseq[ai as int], cseq[k]));
                    }
                } else {
                    if exists|i2: int| 0 <= i2 < ai as int + 1 && spikes_overlap(
                        aseq[i2],
                        cseq[k],
                    ) {
                        let w = choose|i2: int|
                            0 <= i2 < ai as int + 1 && spikes_overlap(aseq[i2], cseq[k]);
                        assert(spikes_overlap(aseq[w], cseq[k]));
                        if w < ai as int {
                            assert(exists|i2: int|
                                0 <= i2 < ai && spikes_overlap(aseq[i2], cseq[k]));
                        } else {
                            assert(w == ai as int);
                            assert(k < cj && spikes_overlap(aseq[ai as int], cseq[k]));
                        }
                        assert((exists|i2: int| 0 <= i2 < ai && spikes_overlap(aseq[i2], cseq[k]))
                            || (k < cj && spikes_overlap(aseq[ai as int], cseq[k])));
                        assert(used_chat@[k] == ((exists|i2: int|
                            0 <= i2 < ai && spikes_overlap(aseq[i2], cseq[k])) || (k < cj
                            && spikes_overlap(aseq[ai as int], cseq[k]))));
                        assert(false);
                    }
                }
            }
            assert(highlights@.len() <= (ai as int + 1) * nc);
        }
        ai += 1;
    }
    // Unconsumed audio spikes.
    proof {
        assert(highlights@.len() <= (na as int) * nc);
    }
    let ghost after_combos = views_of(highlights@);
    let mut i: usize = 0;
    while i < na
        invariant
            i <= na == aseq.len(),
            aseq == audio_spikes@,
            cseq == chat_spikes@,
            s == *settings,
            settings.wf(),
            forall|k: int| 0 <= k < aseq.len() ==> audio_spike_wf(#[trigger] aseq[k]),
            used_audio@.len() == na,
            forall|k: int| 0 <= k < na ==> (#[trigger] used_audio@[k]) == audio_consumed(
                aseq[k],
                cseq,
            ),
            na <= 0x7FFF,
            nc <= 0x7FFF,
            highlights@.len() <= na * nc + i,
            audio_leftover_fold(aseq, cseq, s, 0, after_combos) == audio_leftover_fold(
                aseq,
                cseq,
                s,
                i as int,
                views_of(highlights@),
            ),
        decreases na - i,
    {
        let ghost old_views = views_of(highlights@);
        if !used_audio[i] {
            let a = audio_spikes[i];
            proof {
                assert(a.score * settings.audio_weight_pct <= 10000 * 100) by (nonlinear_arith)
                    requires a.score <= 10000, settings.audio_weight_pct <= 100
                ;
            }
            let score: u32 = ((a.score as u64) * (settings.audio_weight_pct as u64) / 100) as u32;
            let mut reasons: Vec<Reason> = Vec::new();
            reasons.push(Reason::AudioIntensity { score: a.score });
            if a.score > 6000 {
                reasons.push(Reason::VoiceActivity);
            }
            let h = Highlight {
                id: 0,
                start_ms: a.start_ms,
                end_ms: a.end_ms,
                duration_ms: a.end_ms - a.start_ms,
                highlight_type: HighlightType::Audio,
                score,
                audio_score: Some(a.score),
                chat_score: None,
                reasons,
            };
            proof {
                assert(h@ == audio_only_view(aseq[i as int], s)) by {
                    assert(h@.reasons =~= audio_only_view(aseq[i as int], s).reasons);
                }
            }
            highlights.push(h);
            proof {
                assert(views_of(highlights@) =~= old_views.push(audio_only_view(aseq[i as int], s)));
            }
        }
        proof {
            assert(audio_leftover_fold(aseq, cseq, s, i as int, old_views) == audio_leftover_fold(
                aseq,
                cseq,
                s,
                i as int + 1,
                views_of(highlights@),
            ));
        }
        i += 1;
    }
    // Unconsumed chat spikes.
    let ghost after_audio = views_of(highlights@);
    let mut j: usize = 0;
    while j < nc
        invariant
            j <= nc == cseq.len(),
            aseq == audio_spikes@,
            cseq == chat_spikes@,
            s == *settings,
            settings.wf(),
            forall|k: int| 0 <= k < cseq.len() ==> chat_spike_wf(#[trigger] cseq[k]),
            used_chat@.len() == nc,
            forall|k: int| 0 <= k < nc ==> (#[trigger] used_chat@[k]) == chat_consumed(
                cseq[k],
                aseq,
            ),
            na == aseq.len() <= 0x7FFF,
            nc <= 0x7FFF,
            highlights@.len() <= na * nc + na + j,
            chat_leftover_fold(aseq, cseq, s, 0, after_audio) == chat_leftover_fold(
                aseq,
                cseq,
                s,
                j as int,
                views_of(highlights@),
            ),
        decreases nc - j,
    {
        let ghost old_views = views_of(highlights@);
        if !used_chat[j] {
            let c = chat_spikes[j];
            proof {
                assert(c.score * settings.chat_weight_pct <= 10000 * 100) by (nonlinear_arith)
                    requires c.score <= 10000, settings.chat_weight_pct <= 100
                ;
            }
            let score: u32 = ((c.score as u64) * (settings.chat_weight_pct as u64) / 100) as u32;
            let mut reasons: Vec<Reason> = Vec::new();
            reasons.push(Reason::ChatSurge { peak_rate: c.peak_rate });
            reasons.push(Reason::KeywordMatches { keyword_score: c.keyword_score });
            let h = Highlight {
                id: 0,
                start_ms: c.start_ms,
                end_ms: c.end_ms,
                duration_ms: c.end_ms - c.start_ms,
                highlight_type: HighlightType::Chat,
                score,
                audio_score: None,
                chat_score: Some(c.score),
                reasons,
            };
            proof {
                assert(h@ == chat_only_view(cseq[j as int], s)) by {
                    assert(h@.reasons =~= chat_only_view(cseq[j as int], s).reasons);
                }
            }
            highlights.push(h);
            proof {
                assert(views_of(highlights@) =~= old_views.push(chat_only_view(cseq[j as int], s)));
            }
        }
        proof {
            assert(chat_leftover_fold(aseq, cseq, s, j as int, old_views) == chat_leftover_fold(
                aseq,
                cseq,
                s,
                j as int + 1,
                views_of(highlights@),
            ));
        }
        j += 1;
    }
    proof {
        assert(views_of(highlights@) == fused_views(aseq, cseq, s));
        assert(strip_ids(views_of(highlights@)) =~= views_of(highlights@)) by {
            lemma_fused_ids_zero(aseq, cseq, s);
        }
        assert((na as int) * (nc as int) <= 0x7FFFint * 0x7FFF) by (nonlinear_arith)
            requires na <= 0x7FFF, nc <= 0x7FFF
        ;
        assert(fused_views(aseq, cseq, s).len() == views_of(highlights@).len());
        assert(fused_views(aseq, cseq, s).len() <= 0x7FFFint * 0x7FFF + 0x7FFF + 0x7FFF);
        assert(0x7FFFint * 0x7FFF + 0x7FFF + 0x7FFF <= 0x4000_0000) by (nonlinear_arith);
    }
    sort_highlights_desc(&mut highlights);
    let ghost fused = fused_views(aseq, cseq, s);
    let ghost ranked = views_of(highlights@);
    proof {
        lemma_multiset_len(ranked, fused);
        lemma_fused_ids_zero(aseq, cseq, s);
        broadcast use vstd::multiset::group_multiset_axioms;

        assert(ranked.to_multiset().subset_of(fused.to_multiset()));
        assert(fused.len() <= 0x4000_0000);
    }
    let mut capped = false;
    match settings.max_clips {
        Some(max) => {
            if highlights.len() > max as usize {
                capped = true;
                let seed = time_seed();
                shuffle_highlights(&mut highlights, seed);
                let ghost shuffled = views_of(highlights@);
                highlights.truncate(max as usize);
                proof {
                    assert(views_of(highlights@) =~= shuffled.subrange(0, max as int));
                    lemma_prefix_multiset_subset(shuffled, max as int);
                    broadcast use vstd::multiset::group_multiset_axioms;

                    assert(views_of(highlights@).to_multiset().subset_of(fused.to_multiset()));
                }
                sort_by_start_stable(&mut highlights);
            }
        },
        None => {},
    }
    let ghost pre_assign = views_of(highlights@);
    proof {
        broadcast use vstd::multiset::group_multiset_axioms;

        assert(capped == (settings.max_clips matches Some(m) && fused.len() > m));
        assert(pre_assign.to_multiset().subset_of(fused.to_multiset()));
        assert(strip_ids(pre_assign) =~= pre_assign) by {
            lemma_strip_of_zero_multiset(pre_assign, fused);
        }
        if !capped {
            assert(pre_assign.to_multiset() == fused.to_multiset());
            assert(views_sorted_desc(pre_assign));
            assert(pre_assign == score_sorted_stable(fused));
        } else {
            assert(views_sorted_by_start(pre_assign));
            assert(pre_assign.len() == settings.max_clips->0) by {
                lemma_multiset_len(pre_assign, views_of(highlights@));
            }
        }
        assert(highlights@.len() <= 0xFFFF_FFFF) by {
            if capped {
                assert(highlights@.len() == settings.max_clips->0);
            } else {
                lemma_multiset_len(pre_assign, fused);
            }
        }
    }
    assign_ids(&mut highlights);
    proof {
        let fin = views_of(highlights@);
        assert(strip_ids(fin) == strip_ids(pre_assign));
        assert(strip_ids(fin).to_multiset() == pre_assign.to_multiset());
        assert forall|k: int| 0 <= k < fin.len() implies (#[trigger] fin[k]).score
            == pre_assign[k].score && fin[k].start_ms == pre_assign[k].start_ms by {
            assert(strip_ids(fin)[k] == strip_ids(pre_assign)[k]);
        }
        if !capped {
            assert(views_sorted_desc(fin));
            assert(strip_ids(fin) == score_sorted_stable(fused)) by {
                assert(strip_ids(pre_assign) =~= pre_assign);
            }
        } else {
            assert(views_sorted_by_start(fin));
        }
        // Every returned highlight is well formed: its stripped view sits
        // in the fused multiset, whose members are all well formed.
        lemma_fused_views_wf(aseq, cseq, s);
        assert(strip_ids(fin).to_multiset().subset_of(fused.to_multiset()));
        lemma_wf_of_multiset(strip_ids(fin), fused);
        assert forall|k: int| 0 <= k < highlights@.len() implies hv_wf(
            #[trigger] highlights@[k]@,
        ) by {
            assert(hv_wf(strip_ids(fin)[k]));
            assert(strip_ids(fin)[k] == HighlightView { id: 0, ..fin[k] });
            assert(fin[k] == highlights@[k]@);
        }
    }
    highlights
}

/// Every highlight the fusion builds carries a cleared id.
proof fn lemma_fused_ids_zero(
    audio: Seq<AudioSpike>,
    chats: Seq<ChatSpike>,
    s: HighlightSettings,
)
    ensures
        forall|k: int| 0 <= k < fused_views(audio, chats, s).len() ==> (#[trigger] fused_views(
            audio,
            chats,
            s,
        )[k]).id == 0,
{
    lemma_combo_fold_ids(audio, chats, s, 0, 0, Seq::empty());
    lemma_audio_fold_ids(audio, chats, s, 0, combo_pairs_fold(audio, chats, s, 0, 0, Seq::empty()));
    lemma_chat_fold_ids(
        audio,
        chats,
        s,
        0,
        audio_leftover_fold(
            audio,
            chats,
            s,
            0,
            combo_pairs_fold(audio, chats, s, 0, 0, Seq::empty()),
        ),
    );
}

proof fn lemma_combo_fold_ids(
    audio: Seq<AudioSpike>,
    chats: Seq<ChatSpike>,
    s: HighlightSettings,
    ai: int,
    cj: int,
    acc: Seq<HighlightView>,
)
    requires
        forall|k: int| 0 <= k < acc.len() ==> (#[trigger] acc[k]).id == 0,
    ensures
        forall|k: int| 0 <= k < combo_pairs_fold(audio, chats, s, ai, cj, acc).len() ==> (
        #[trigger] combo_pairs_fold(audio, chats, s, ai, cj, acc)[k]).id == 0,
    decreases audio.len() - ai, chats.len() - cj,
{
    if ai < 0 || cj < 0 || ai >= audio.len() {
    } else if cj >= chats.len() {
        lemma_combo_fold_ids(audio, chats, s, ai + 1, 0, acc);
    } else {
        let acc2 = if spikes_overlap(audio[ai], chats[cj]) {
            acc.push(combo_view(audio[ai], chats[cj], s))
        } else {
            acc
        };
        lemma_combo_fold_ids(audio, chats, s, ai, cj + 1, acc2);
    }
}

proof fn lemma_audio_fold_ids(
    audio: Seq<AudioSpike>,
    chats: Seq<ChatSpike>,
    s: HighlightSettings,
    i: int,
    acc: Seq<HighlightView>,
)
    requires
        forall|k: int| 0 <= k < acc.len() ==> (#[trigger] acc[k]).id == 0,
    ensures
        forall|k: int| 0 <= k < audio_leftover_fold(audio, chats, s, i, acc).len() ==> (
        #[trigger] audio_leftover_fold(audio, chats, s, i, acc)[k]).id == 0,
    decreases audio.len() - i,
{
    if 0 <= i < audio.len() {
        let acc2 = if audio_consumed(audio[i], chats) {
            acc
        } else {
            acc.push(audio_only_view(audio[i], s))
        };
        lemma_audio_fold_ids(audio, chats, s, i + 1, acc2);
    }
}

proof fn lemma_chat_fold_ids(
    audio: Seq<AudioSpike>,
    chats: Seq<ChatSpike>,
    s: HighlightSettings,
    j: int,
    acc: Seq<HighlightView>,
)
    requires
        forall|k: int| 0 <= k < acc.len() ==> (#[trigger] acc[k]).id == 0,
    ensures
        forall|k: int| 0 <= k < chat_leftover_fold(audio, chats, s, j, acc).len() ==> (
        #[trigger] chat_leftover_fold(audio, chats, s, j, acc)[k]).id == 0,
    decreases chats.len() - j,
{
    if 0 <= j < chats.len() {
        let acc2 = if chat_consumed(chats[j], audio) {
            acc
        } else {
            acc.push(chat_only_view(chats[j], s))
        };
        lemma_chat_fold_ids(audio, chats, s, j + 1, acc2);
    }
}

/// Sequences with equal multisets have equal lengths.
proof fn lemma_multiset_len(a: Seq<HighlightView>, b: Seq<HighlightView>)
    requires
        a.to_multiset() == b.to_multiset(),
    ensures
        a.len() == b.len(),
{
    a.to_multiset_ensures();
    b.to_multiset_ensures();
}

/// A sequence whose multiset consists of zero-id views strips to itself.
proof fn lemma_strip_of_zero_multiset(a: Seq<HighlightView>, b: Seq<HighlightView>)
    requires
        a.to_multiset().subset_of(b.to_multiset()),
        forall|k: int| 0 <= k < b.len() ==> (#[trigger] b[k]).id == 0,
    ensures
        forall|k: int| 0 <= k < a.len() ==> (#[trigger] a[k]).id == 0,
{
    broadcast use group_to_multiset_ensures;
    broadcast use vstd::multiset::group_multiset_axioms;

    assert forall|k: int| 0 <= k < a.len() implies (#[trigger] a[k]).id == 0 by {
        assert(a.contains(a[k]));
        assert(a.to_multiset().count(a[k]) > 0);
        assert(b.to_multiset().count(a[k]) > 0);
        assert(b.contains(a[k]));
        let w = choose|w: int| 0 <= w < b.len() && b[w] == a[k];
        assert(b[w].id == 0);
    }
}

/// A prefix's multiset is a subset of the whole sequence's.
proof fn lemma_prefix_multiset_subset(s: Seq<HighlightView>, n: int)
    requires
        0 <= n <= s.len(),
    ensures
        s.subrange(0, n).to_multiset().subset_of(s.to_multiset()),
{
    broadcast use group_to_multiset_ensures;
    broadcast use vstd::multiset::group_multiset_axioms;

    let pre = s.subrange(0, n);
    let suf = s.subrange(n, s.len() as int);
    assert(s =~= pre + suf);
    lemma_multiset_commutative(pre, suf);
    assert forall|x: HighlightView| #[trigger] pre.to_multiset().count(x)
        <= s.to_multiset().count(x) by {
        assert(s.to_multiset().count(x) == pre.to_multiset().count(x) + suf.to_multiset().count(
            x,
        ));
    }
}

/// `x` placed into a start-sorted list, after any entries with the same
/// start time (the stable position).
pub open spec fn sbs_insert(acc: Seq<HighlightView>, x: HighlightView) -> Seq<HighlightView>
    decreases acc.len(),
{
    if acc.len() == 0 {
        seq![x]
    } else if acc[0].start_ms > x.start_ms {
        seq![x] + acc
    } else {
        seq![acc[0]] + sbs_insert(acc.drop_first(), x)
    }
}

/// Stable insertion sort by start time, element by element.
pub open spec fn sbs_fold(s: Seq<HighlightView>, i: int, acc: Seq<HighlightView>) -> Seq<
    HighlightView,
>
    decreases s.len() - i,
{
    if i < 0 || i >= s.len() {
        acc
    } else {
        sbs_fold(s, i + 1, sbs_insert(acc, s[i]))
    }
}

/// The unique stable reordering of a highlight list by start time.
pub open spec fn start_sorted_stable(s: Seq<HighlightView>) -> Seq<HighlightView> {
    sbs_fold(s, 0, Seq::empty())
}

/// Inserting into a start-sorted list at the first position whose start
/// exceeds the new entry's is exactly the stable insertion.
proof fn lemma_sbs_insert_position(acc: Seq<HighlightView>, x: HighlightView, j: int)
    requires
        views_sorted_by_start(acc),
        0 <= j <= acc.len(),
        forall|k: int| 0 <= k < j ==> (#[trigger] acc[k]).start_ms <= x.start_ms,
        j < acc.len() ==> acc[j].start_ms > x.start_ms,
    ensures
        sbs_insert(acc, x) == acc.insert(j, x),
    decreases acc.len(),
{
    if acc.len() == 0 {
        assert(sbs_insert(acc, x) =~= acc.insert(0, x));
    } else if acc[0].start_ms > x.start_ms {
        assert(j == 0);
        assert(sbs_insert(acc, x) =~= acc.insert(0, x));
    } else {
        assert(j >= 1) by {
            if j == 0 {
                assert(acc[0].start_ms > x.start_ms);
            }
        }
        let tail = acc.drop_first();
        assert(views_sorted_by_start(tail)) by {
            assert(forall|a: int, b: int| 0 <= a < b < tail.len() ==> tail[a] == acc[a + 1]
                && tail[b] == acc[b + 1]);
        }
        assert(forall|k: int| 0 <= k < j - 1 ==> (#[trigger] tail[k]).start_ms <= x.start_ms) by {
            assert(forall|k: int| 0 <= k < j - 1 ==> tail[k] == acc[k + 1]);
        }
        assert(j - 1 < tail.len() ==> tail[j - 1].start_ms > x.start_ms) by {
            if j - 1 < tail.len() {
                assert(tail[j - 1] == acc[j]);
            }
        }
        lemma_sbs_insert_position(tail, x, j - 1);
        assert(sbs_insert(acc, x) =~= acc.insert(j, x)) by {
            assert(sbs_insert(acc, x) == seq![acc[0]] + tail.insert(j - 1, x));
        }
    }
}

/// Whether two highlights overlap by more than the threshold, measured
/// against the shorter one: a zero-length intersection or a zero shorter
/// duration never merges.
pub open spec fn overlap_exceeds(a: HighlightView, b: HighlightView, threshold_pct: u32) -> bool {
    let ov_start = if a.start_ms > b.start_ms {
        a.start_ms
    } else {
        b.start_ms
    };
    let ov_end = if a.end_ms < b.end_ms {
        a.end_ms
    } else {
        b.end_ms
    };
    if ov_start >= ov_end {
        false
    } else {
        let ov = ov_end - ov_start;
        let md = if a.duration_ms < b.duration_ms {
            a.duration_ms
        } else {
            b.duration_ms
        };
        md > 0 && ov * 100 > md * threshold_pct
    }
}

/// The union of two reason lists: entries of the second are appended when
/// not already present.
pub open spec fn union_reasons(acc: Seq<Reason>, b: Seq<Reason>, j: int) -> Seq<Reason>
    decreases b.len() - j,
{
    if j < 0 || j >= b.len() {
        acc
    } else {
        union_reasons(
            if acc.contains(b[j]) {
                acc
            } else {
                acc.push(b[j])
            },
            b,
            j + 1,
        )
    }
}

/// A group absorbing one more highlight: the span extends to the later
/// end, the higher score keeps its type and signal scores, and the reason
/// lists are united without duplicates.
pub open spec fn merge_two(cur: HighlightView, h: HighlightView) -> HighlightView {
    let end = if h.end_ms > cur.end_ms {
        h.end_ms
    } else {
        cur.end_ms
    };
    let taken = h.score > cur.score;
    HighlightView {
        id: cur.id,
        start_ms: cur.start_ms,
        end_ms: end,
        duration_ms: (end - cur.start_ms) as u64,
        highlight_type: if taken {
            h.highlight_type
        } else {
            cur.highlight_type
        },
        score: if taken {
            h.score
        } else {
            cur.score
        },
        audio_score: if taken {
            if h.audio_score is Some {
                h.audio_score
            } else {
                cur.audio_score
            }
        } else {
            cur.audio_score
        },
        chat_score: if taken {
            if h.chat_score is Some {
                h.chat_score
            } else {
                cur.chat_score
            }
        } else {
            cur.chat_score
        },
        reasons: union_reasons(cur.reasons, h.reasons, 0),
    }
}

/// The merge walk over a start-sorted list: each next highlight either
/// joins the open group or closes it.
pub open spec fn merge_fold(
    s: Seq<HighlightView>,
    threshold_pct: u32,
    i: int,
    cur: HighlightView,
    acc: Seq<HighlightView>,
) -> Seq<HighlightView>
    decreases s.len() - i,
{
    if i < 0 || i >= s.len() {
        acc.push(cur)
    } else if overlap_exceeds(cur, s[i], threshold_pct) {
        merge_fold(s, threshold_pct, i + 1, merge_two(cur, s[i]), acc)
    } else {
        merge_fold(s, threshold_pct, i + 1, s[i], acc.push(cur))
    }
}

/// The merged view list: the fold over the stable start-sorted input,
/// starting from its first element.
pub open spec fn merged_views(s: Seq<HighlightView>, threshold_pct: u32) -> Seq<HighlightView> {
    let ss = start_sorted_stable(s);
    merge_fold(ss, threshold_pct, 1, ss[0], Seq::empty())
}

/// Appends the reasons of `src` that `dst` does not already hold.
fn union_reasons_into(dst: &mut Vec<Reason>, src: &Vec<Reason>)
    ensures
        final(dst)@ == union_reasons(old(dst)@, src@, 0),
{
    let n = src.len();
    let mut j: usize = 0;
    while j < n
        invariant
            j <= n == src@.len(),
            union_reasons(old(dst)@, src@, 0) == union_reasons(dst@, src@, j as int),
        decreases n - j,
    {
        let ghost pre = dst@;
        let r = src[j];
        let mut found = false;
        let m = dst.len();
        let mut t: usize = 0;
        while t < m
            invariant
                t <= m == dst@.len(),
                dst@ == pre,
                r == src@[j as int],
                found == exists|q: int| 0 <= q < t && dst@[q] == r,
            decreases m - t,
        {
            if dst[t] == r {
                found = true;
                proof {
                    assert(exists|q: int| 0 <= q < t + 1 && dst@[q] == r);
                }
            }
            t += 1;
        }
        proof {
            assert(found == pre.contains(src@[j as int]));
        }
        if !found {
            dst.push(r);
        }
        proof {
            assert(union_reasons(pre, src@, j as int) == union_reasons(dst@, src@, j as int + 1));
        }
        j += 1;
    }
}

/// Merges overlapping highlights in place: the list is sorted by start
/// time, runs whose pairwise overlap exceeds the threshold collapse into
/// one extended highlight keeping the best score, and the result is
/// re-sorted by descending score with fresh sequential ids.  Lists of
/// fewer than two entries are left untouched.
#[verifier::rlimit(60)]
pub fn merge_overlapping_highlights(highlights: &mut Vec<Highlight>, overlap_threshold_pct: u32)
    requires
        overlap_threshold_pct <= 100,
        old(highlights)@.len() <= 0xFFFF_FFFF,
        forall|k: int| 0 <= k < old(highlights)@.len() ==> hv_wf(#[trigger] old(highlights)@[k]@),
    ensures
        old(highlights)@.len() < 2 ==> final(highlights)@ == old(highlights)@,
        old(highlights)@.len() >= 2 ==> {
            let merged = merged_views(views_of(old(highlights)@), overlap_threshold_pct);
            &&& strip_ids(views_of(final(highlights)@)) == strip_ids(score_sorted_stable(merged))
            &&& strip_ids(views_of(final(highlights)@)).to_multiset() == strip_ids(
                merged,
            ).to_multiset()
            &&& views_sorted_desc(views_of(final(highlights)@))
            &&& forall|k: int| 0 <= k < final(highlights)@.len() ==> (#[trigger] final(highlights)@[k]).id == k + 1
            &&& forall|k: int| 0 <= k < final(highlights)@.len() ==> hv_wf(
                #[trigger] final(highlights)@[k]@,
            )
        },
{
    if highlights.len() < 2 {
        return ;
    }
    let ghost orig_views = views_of(highlights@);
    sort_by_start_stable(highlights);
    let ghost ss = views_of(highlights@);
    proof {
        assert(ss == start_sorted_stable(orig_views));
        assert(forall|k: int| 0 <= k < orig_views.len() ==> hv_wf(#[trigger] orig_views[k])) by {
            assert(forall|k: int| 0 <= k < old(highlights)@.len() ==> orig_views[k] == old(
                highlights,
            )@[k]@);
        }
        assert(ss.to_multiset().subset_of(orig_views.to_multiset())) by {
            broadcast use vstd::multiset::group_multiset_axioms;

        }
        lemma_wf_of_multiset(ss, orig_views);
    }
    let n = highlights.len();
    let mut merged: Vec<Highlight> = Vec::new();
    let mut current = highlights.remove(0);
    let mut i: usize = 1;
    proof {
        assert(views_of(highlights@) =~= ss.subrange(1, ss.len() as int));
        assert(views_of(merged@) =~= Seq::<HighlightView>::empty());
        assert(current@ == ss[0]);
    }
    while i < n
        invariant
            1 <= i <= n == ss.len(),
            overlap_threshold_pct <= 100,
            highlights@.len() == n - i,
            views_of(highlights@) == ss.subrange(i as int, ss.len() as int),
            forall|k: int| 0 <= k < ss.len() ==> hv_wf(#[trigger] ss[k]),
            current@.end_ms <= 0xFFFF_FFFF_FFFF,
            current@.duration_ms <= 0xFFFF_FFFF_FFFF,
            current@.start_ms <= current@.end_ms,
            merge_fold(ss, overlap_threshold_pct, 1, ss[0], Seq::empty()) == merge_fold(
                ss,
                overlap_threshold_pct,
                i as int,
                current@,
                views_of(merged@),
            ),
        decreases n - i,
    {
        let ghost old_cur = current@;
        let ghost old_merged = views_of(merged@);
        let ghost prev_hl = highlights@;
        proof {
            assert(views_of(prev_hl)[0] == ss.subrange(i as int, ss.len() as int)[0]);
            assert(ss.subrange(i as int, ss.len() as int)[0] == ss[i as int]);
        }
        let h = highlights.remove(0);
        proof {
            assert(h == prev_hl[0]);
            assert(h@ == ss[i as int]);
            assert forall|k: int| 0 <= k < views_of(highlights@).len() implies #[trigger] views_of(
                highlights@,
            )[k] == ss.subrange(i as int + 1, ss.len() as int)[k] by {
                assert(highlights@[k] == prev_hl[k + 1]);
                assert(views_of(prev_hl)[k + 1] == prev_hl[k + 1]@);
                assert(views_of(prev_hl)[k + 1] == ss.subrange(i as int, ss.len() as int)[k + 1]);
                assert(ss.subrange(i as int, ss.len() as int)[k + 1] == ss[i + 1 + k]);
                assert(ss.subrange(i as int + 1, ss.len() as int)[k] == ss[i + 1 + k]);
            }
            assert(views_of(highlights@) =~= ss.subrange(i as int + 1, ss.len() as int));
            assert(hv_wf(ss[i as int]));
        }
        let ov_start = if current.start_ms > h.start_ms {
            current.start_ms
        } else {
            h.start_ms
        };
        let ov_end = if current.end_ms < h.end_ms {
            current.end_ms
        } else {
            h.end_ms
        };
        let mut merge_it = false;
        if ov_start < ov_end {
            let ov = ov_end - ov_start;
            let md = if current.duration_ms < h.duration_ms {
                current.duration_ms
            } else {
                h.duration_ms
            };
            proof {
                assert((md as int) * (overlap_threshold_pct as int) <= 0xFFFF_FFFF_FFFFi64 * 100)
                    by (nonlinear_arith)
                    requires md <= 0xFFFF_FFFF_FFFFi64, overlap_threshold_pct <= 100
                ;
            }
            merge_it = md > 0 && ov * 100 > md * (overlap_threshold_pct as u64);
        }
        proof {
            assert(merge_it == overlap_exceeds(old_cur, ss[i as int], overlap_threshold_pct));
        }
        if merge_it {
            if h.end_ms > current.end_ms {
                current.end_ms = h.end_ms;
            }
            current.duration_ms = current.end_ms - current.start_ms;
            if h.score > current.score {
                current.score = h.score;
                current.highlight_type = h.highlight_type;
                if h.audio_score.is_some() {
                    current.audio_score = h.audio_score;
                }
                if h.chat_score.is_some() {
                    current.chat_score = h.chat_score;
                }
            }
            union_reasons_into(&mut current.reasons, &h.reasons);
            proof {
                assert(current@ == merge_two(old_cur, ss[i as int]));
            }
        } else {
            merged.push(current);
            current = h;
            proof {
                assert(current@ == ss[i as int]);
                assert(views_of(merged@) =~= old_merged.push(old_cur));
            }
        }
        proof {
            assert(merge_fold(ss, overlap_threshold_pct, i as int, old_cur, old_merged)
                == merge_fold(
                ss,
                overlap_threshold_pct,
                i as int + 1,
                current@,
                views_of(merged@),
            ));
        }
        i += 1;
    }
    merged.push(current);
    proof {
        assert(views_of(merged@) == merged_views(orig_views, overlap_threshold_pct)) by {
            assert(views_of(merged@) =~= merge_fold(ss, overlap_threshold_pct, 1, ss[0], Seq::empty()));
        }
    }
    sort_highlights_desc(&mut merged);
    let ghost sorted_views = views_of(merged@);
    proof {
        assert(sorted_views == score_sorted_stable(merged_views(orig_views, overlap_threshold_pct)));
        lemma_strip_multiset_eq(sorted_views, merged_views(orig_views, overlap_threshold_pct));
        assert(merged@.len() <= 0xFFFF_FFFF) by {
            lemma_multiset_len(sorted_views, merged_views(orig_views, overlap_threshold_pct));
            lemma_merge_fold_len(ss, overlap_threshold_pct, 1, ss[0], Seq::empty());
        }
    }
    assign_ids(&mut merged);
    proof {
        let fin = views_of(merged@);
        assert(strip_ids(fin) == strip_ids(sorted_views));
        assert(strip_ids(fin) == strip_ids(
            score_sorted_stable(merged_views(orig_views, overlap_threshold_pct)),
        ));
        assert(strip_ids(fin).to_multiset() == strip_ids(sorted_views).to_multiset());
        assert forall|k: int| 0 <= k < fin.len() implies (#[trigger] fin[k]).score
            == sorted_views[k].score by {
            assert(strip_ids(fin)[k] == strip_ids(sorted_views)[k]);
        }
        assert(views_sorted_desc(fin));
        // Every merged highlight is well formed.
        lemma_merge_fold_wf(ss, overlap_threshold_pct, 1, ss[0], Seq::empty());
        lemma_strip_multiset_eq(sorted_views, merged_views(orig_views, overlap_threshold_pct));
        assert(strip_ids(fin).to_multiset() == strip_ids(
            merged_views(orig_views, overlap_threshold_pct),
        ).to_multiset());
        assert(strip_ids(fin).to_multiset().subset_of(
            strip_ids(merged_views(orig_views, overlap_threshold_pct)).to_multiset(),
        )) by {
            broadcast use vstd::multiset::group_multiset_axioms;

        }
        assert(forall|k: int|
            0 <= k < strip_ids(merged_views(orig_views, overlap_threshold_pct)).len() ==> hv_wf(
                #[trigger] strip_ids(merged_views(orig_views, overlap_threshold_pct))[k],
            )) by {
            assert forall|k: int|
                0 <= k < strip_ids(merged_views(orig_views, overlap_threshold_pct)).len()
                    implies hv_wf(
                #[trigger] strip_ids(merged_views(orig_views, overlap_threshold_pct))[k],
            ) by {
                assert(hv_wf(merged_views(orig_views, overlap_threshold_pct)[k]));
            }
        }
        lemma_wf_of_multiset(
            strip_ids(fin),
            strip_ids(merged_views(orig_views, overlap_threshold_pct)),
        );
        assert forall|k: int| 0 <= k < merged@.len() implies hv_wf(#[trigger] merged@[k]@) by {
            assert(hv_wf(strip_ids(fin)[k]));
            assert(strip_ids(fin)[k] == HighlightView { id: 0, ..fin[k] });
        }
    }
    *highlights = merged;
}

/// Equal multisets keep equal multisets after the ids are cleared.
proof fn lemma_strip_multiset_eq(a: Seq<HighlightView>, b: Seq<HighlightView>)
    requires
        a.to_multiset() == b.to_multiset(),
    ensures
        strip_ids(a).to_multiset() == strip_ids(b).to_multiset(),
    decreases a.len(),
{
    broadcast use group_to_multiset_ensures;
    broadcast use vstd::multiset::group_multiset_axioms;

    if a.len() == 0 {
        assert(b.len() == 0) by {
            a.to_multiset_ensures();
            b.to_multiset_ensures();
        }
        assert(strip_ids(a) =~= Seq::<HighlightView>::empty());
        assert(strip_ids(b) =~= Seq::<HighlightView>::empty());
    } else {
        let x = a.last();
        assert(a.to_multiset().count(x) > 0) by {
            assert(a.contains(x));
        }
        assert(b.contains(x)) by {
            assert(b.to_multiset().count(x) > 0);
        }
        let w = choose|w: int| 0 <= w < b.len() && b[w] == x;
        let a2 = a.drop_last();
        let b2 = b.remove(w);
        assert(a2.to_multiset() == b2.to_multiset()) by {
            assert(a =~= a2.push(x));
            assert(a2.push(x).to_multiset() =~= a2.to_multiset().insert(x));
            assert(b2.to_multiset() =~= b.to_multiset().remove(x));
            assert(a2.to_multiset() =~= a.to_multiset().remove(x));
        }
        lemma_strip_multiset_eq(a2, b2);
        assert(strip_ids(a).to_multiset() =~= strip_ids(a2).to_multiset().insert(
            HighlightView { id: 0, ..x },
        )) by {
            assert(strip_ids(a) =~= strip_ids(a2).push(HighlightView { id: 0, ..x }));
            assert(strip_ids(a2).push(HighlightView { id: 0, ..x }).to_multiset() =~= strip_ids(
                a2,
            ).to_multiset().insert(HighlightView { id: 0, ..x }));
        }
        assert(strip_ids(b).to_multiset() =~= strip_ids(b2).to_multiset().insert(
            HighlightView { id: 0, ..x },
        )) by {
            assert(strip_ids(b2) =~= strip_ids(b).remove(w));
            assert(strip_ids(b)[w] == HighlightView { id: 0, ..x });
            assert(strip_ids(b).remove(w).to_multiset() =~= strip_ids(b).to_multiset().remove(
                strip_ids(b)[w],
            ));
            assert(strip_ids(b).to_multiset().count(strip_ids(b)[w]) > 0) by {
                assert(strip_ids(b).contains(strip_ids(b)[w]));
            }
            assert(strip_ids(b).to_multiset().remove(strip_ids(b)[w]).insert(
                strip_ids(b)[w],
            ) =~= strip_ids(b).to_multiset());
        }
    }
}

/// Well-formedness carries across view multiset inclusion.
proof fn lemma_wf_of_multiset(a: Seq<HighlightView>, b: Seq<HighlightView>)
    requires
        a.to_multiset().subset_of(b.to_multiset()),
        forall|k: int| 0 <= k < b.len() ==> hv_wf(#[trigger] b[k]),
    ensures
        forall|k: int| 0 <= k < a.len() ==> hv_wf(#[trigger] a[k]),
{
    broadcast use group_to_multiset_ensures;
    broadcast use vstd::multiset::group_multiset_axioms;

    assert forall|k: int| 0 <= k < a.len() implies hv_wf(#[trigger] a[k]) by {
        assert(a.contains(a[k]));
        assert(a.to_multiset().count(a[k]) > 0);
        assert(b.to_multiset().count(a[k]) > 0);
        assert(b.contains(a[k]));
        let w = choose|w: int| 0 <= w < b.len() && b[w] == a[k];
        assert(hv_wf(b[w]));
    }
}

/// Every highlight the merge fold emits is well formed when the inputs
/// and the open group are.
proof fn lemma_merge_fold_wf(
    s: Seq<HighlightView>,
    threshold_pct: u32,
    i: int,
    cur: HighlightView,
    acc: Seq<HighlightView>,
)
    requires
        hv_wf(cur),
        forall|k: int| 0 <= k < s.len() ==> hv_wf(#[trigger] s[k]),
        forall|k: int| 0 <= k < acc.len() ==> hv_wf(#[trigger] acc[k]),
    ensures
        forall|k: int| 0 <= k < merge_fold(s, threshold_pct, i, cur, acc).len() ==> hv_wf(
            #[trigger] merge_fold(s, threshold_pct, i, cur, acc)[k],
        ),
    decreases s.len() - i,
{
    if i < 0 || i >= s.len() {
    } else if overlap_exceeds(cur, s[i], threshold_pct) {
        assert(hv_wf(merge_two(cur, s[i])));
        lemma_merge_fold_wf(s, threshold_pct, i + 1, merge_two(cur, s[i]), acc);
        let r0 = merge_fold(s, threshold_pct, i, cur, acc);
        let r1 = merge_fold(s, threshold_pct, i + 1, merge_two(cur, s[i]), acc);
        assert(r0 == r1);
        assert forall|k: int| 0 <= k < r0.len() implies hv_wf(#[trigger] r0[k]) by {
            assert(r0[k] == r1[k]);
        }
    } else {
        lemma_merge_fold_wf(s, threshold_pct, i + 1, s[i], acc.push(cur));
        let r0 = merge_fold(s, threshold_pct, i, cur, acc);
        let r1 = merge_fold(s, threshold_pct, i + 1, s[i], acc.push(cur));
        assert(r0 == r1);
        assert forall|k: int| 0 <= k < r0.len() implies hv_wf(#[trigger] r0[k]) by {
            assert(r0[k] == r1[k]);
        }
    }
}

/// The merge fold emits at most one highlight per input element.
proof fn lemma_merge_fold_len(
    s: Seq<HighlightView>,
    threshold_pct: u32,
    i: int,
    cur: HighlightView,
    acc: Seq<HighlightView>,
)
    requires
        0 <= i,
    ensures
        merge_fold(s, threshold_pct, i, cur, acc).len() <= acc.len() + 1 + (if i < s.len() {
            s.len() - i
        } else {
            0
        }),
    decreases s.len() - i,
{
    if i < s.len() {
        if overlap_exceeds(cur, s[i], threshold_pct) {
            lemma_merge_fold_len(s, threshold_pct, i + 1, merge_two(cur, s[i]), acc);
        } else {
            lemma_merge_fold_len(s, threshold_pct, i + 1, s[i], acc.push(cur));
        }
    }
}

/// Sorts highlights by start time with the stable insertion order, so the
/// result is exactly the stable reordering.
fn sort_by_start_stable(v: &mut Vec<Highlight>)
    ensures
        views_of(final(v)@) == start_sorted_stable(views_of(old(v)@)),
        views_sorted_by_start(views_of(final(v)@)),
        final(v)@.len() == old(v)@.len(),
        views_of(final(v)@).to_multiset() == views_of(old(v)@).to_multiset(),
{
    let ghost orig = views_of(v@);
    proof {
        assert(views_of(v@.subrange(0, 0)) =~= Seq::<HighlightView>::empty());
    }
    let mut i: usize = 0;
    while i < v.len()
        invariant
            i <= v.len(),
            v@.len() == old(v)@.len(),
            orig == views_of(old(v)@),
            v@.subrange(i as int, v@.len() as int) =~= old(v)@.subrange(
                i as int,
                old(v)@.len() as int,
            ),
            views_sorted_by_start(views_of(v@.subrange(0, i as int))),
            views_of(v@).to_multiset() == views_of(old(v)@).to_multiset(),
            sbs_fold(orig, 0, Seq::empty()) == sbs_fold(
                orig,
                i as int,
                views_of(v@.subrange(0, i as int)),
            ),
        decreases v.len() - i,
    {
        let ghost v_top = v@;
        let x = v.remove(i);
        proof {
            assert(v_top.subrange(i as int, v_top.len() as int)[0] == v_top[i as int]);
            assert(old(v)@.subrange(i as int, old(v)@.len() as int)[0] == old(v)@[i as int]);
            assert(x == old(v)@[i as int]);
            assert(x@ == orig[i as int]);
        }
        let ghost s_rem = v@;
        let mut j: usize = 0;
        while j < i && v[j].start_ms <= x.start_ms
            invariant
                j <= i <= v@.len(),
                v@ == s_rem,
                forall|k: int| 0 <= k < j ==> (#[trigger] v@[k]).start_ms <= x.start_ms,
            decreases i - j,
        {
            j += 1;
        }
        v.insert(j, x);
        proof {
            let pre = views_of(s_rem.subrange(0, i as int));
            assert(s_rem.subrange(0, i as int) =~= v_top.subrange(0, i as int));
            assert(views_sorted_by_start(views_of(v_top.subrange(0, i as int))));
            assert(views_sorted_by_start(pre)) by {
                assert(forall|k: int| 0 <= k < i ==> pre[k] == views_of(
                    v_top.subrange(0, i as int),
                )[k]);
            }
            assert(forall|k: int| 0 <= k < j ==> (#[trigger] pre[k]).start_ms <= x@.start_ms) by {
                assert(forall|k: int| 0 <= k < j ==> pre[k] == s_rem[k]@);
            }
            assert(j < i ==> pre[j as int].start_ms > x@.start_ms) by {
                if j < i {
                    assert(pre[j as int] == s_rem[j as int]@);
                }
            }
            lemma_sbs_insert_position(pre, x@, j as int);
            assert(views_of(v@.subrange(0, i as int + 1)) =~= pre.insert(j as int, x@));
            assert(views_of(v@.subrange(0, i as int + 1)) == sbs_insert(pre, x@));
            // Multiset preservation of the remove/insert pair.
            broadcast use group_to_multiset_ensures;

            assert(s_rem.insert(i as int, x) =~= v_top);
            assert(views_of(v@) =~= views_of(s_rem).insert(j as int, x@));
            assert(views_of(s_rem) =~= views_of(v_top).remove(i as int));
            assert(views_of(v_top)[i as int] == x@);
            lemma_view_insert_to_multiset(views_of(s_rem), j as int, x@);
            assert(views_of(v_top).remove(i as int).to_multiset() =~= views_of(
                v_top,
            ).to_multiset().remove(views_of(v_top)[i as int]));
            assert(views_of(v_top).to_multiset().count(x@) > 0) by {
                assert(views_of(v_top).contains(x@));
            }
            assert(views_of(v_top).to_multiset().remove(x@).insert(x@) =~= views_of(
                v_top,
            ).to_multiset());
            assert(views_of(v@).to_multiset() =~= views_of(v_top).to_multiset());
            assert(views_sorted_by_start(views_of(v@.subrange(0, i as int + 1)))) by {
                let cur = views_of(v@.subrange(0, i as int + 1));
                assert(forall|k: int| 0 <= k < j ==> cur[k] == pre[k]);
                assert(cur[j as int] == x@);
                assert(forall|k: int| j < k <= i ==> cur[k] == pre[k - 1]);
                assert(forall|k: int| j as int <= k < i ==> x@.start_ms < (
                #[trigger] pre[k]).start_ms) by {
                    if j < i {
                        assert(forall|k: int| j as int <= k < i ==> pre[j as int].start_ms <= (
                        #[trigger] pre[k]).start_ms);
                    }
                }
            }
            assert(v@.subrange(i as int + 1, v@.len() as int) =~= old(v)@.subrange(
                i as int + 1,
                old(v)@.len() as int,
            )) by {
                assert(forall|k: int| i < k < v@.len() ==> v@[k] == s_rem[k - 1]);
                assert(forall|k: int| i < k < v@.len() ==> s_rem[k - 1] == v_top[k]);
                assert(forall|k: int| i < k < v@.len() ==> v_top[k] == old(v)@[k]) by {
                    assert(forall|k: int| i <= k < v_top.len() ==> v_top.subrange(
                        i as int,
                        v_top.len() as int,
                    )[k - i] == v_top[k] && old(v)@.subrange(i as int, old(v)@.len() as int)[k
                        - i] == old(v)@[k]);
                }
            }
            assert(sbs_fold(orig, i as int, pre) == sbs_fold(
                orig,
                i as int + 1,
                views_of(v@.subrange(0, i as int + 1)),
            ));
        }
        i += 1;
    }
    proof {
        assert(v@.subrange(0, v@.len() as int) =~= v@);
        assert(views_of(v@) == sbs_fold(orig, v@.len() as int, views_of(v@)));
    }
}

/// The padded clip range of one highlight: the start pulled back by the
/// lead-in (not below zero), the end pushed out by the lead-out (not past
/// the clip's end).
pub open spec fn padded_range(h: HighlightView, before_ms: int, after_ms: int, video_ms: int) -> (
    int,
    int,
) {
    let start = if h.start_ms - before_ms > 0 {
        h.start_ms - before_ms
    } else {
        0
    };
    let end = if h.end_ms + after_ms < video_ms {
        h.end_ms + after_ms
    } else {
        video_ms
    };
    (start, end)
}

/// Applies lead-in and lead-out padding to each highlight, clamped to the
/// clip's bounds.
pub fn apply_padding(
    highlights: &Vec<Highlight>,
    padding_before_ms: u64,
    padding_after_ms: u64,
    video_duration_ms: u64,
) -> (r: Vec<(u64, u64)>)
    ensures
        r@.len() == highlights@.len(),
        forall|k: int| 0 <= k < r@.len() ==> ((#[trigger] r@[k]).0 as int, r@[k].1 as int)
            == padded_range(
            highlights@[k]@,
            padding_before_ms as int,
            padding_after_ms as int,
            video_duration_ms as int,
        ),
        forall|k: int| 0 <= k < r@.len() ==> (#[trigger] r@[k]).1 <= video_duration_ms,
{
    let n = highlights.len();
    let mut out: Vec<(u64, u64)> = Vec::new();
    let mut i: usize = 0;
    while i < n
        invariant
            i <= n == highlights@.len(),
            out@.len() == i,
            forall|k: int| 0 <= k < i ==> ((#[trigger] out@[k]).0 as int, out@[k].1 as int)
                == padded_range(
                highlights@[k]@,
                padding_before_ms as int,
                padding_after_ms as int,
                video_duration_ms as int,
            ),
            forall|k: int| 0 <= k < i ==> (#[trigger] out@[k]).1 <= video_duration_ms,
        decreases n - i,
    {
        let h = &highlights[i];
        let start = if h.start_ms > padding_before_ms {
            h.start_ms - padding_before_ms
        } else {
            0
        };
        let end = if h.end_ms <= video_duration_ms && video_duration_ms - h.end_ms
            > padding_after_ms {
            h.end_ms + padding_after_ms
        } else {
            video_duration_ms
        };
        proof {
            assert((start as int, end as int) == padded_range(
                highlights@[i as int]@,
                padding_before_ms as int,
                padding_after_ms as int,
                video_duration_ms as int,
            ));
        }
        out.push((start, end));
        i += 1;
    }
    out
}

/// Caps a free-tier result at five highlights; pro results are left whole.
pub fn enforce_free_tier_limit(highlights: &mut Vec<Highlight>, is_pro: bool)
    ensures
        (is_pro || old(highlights)@.len() <= 5) ==> final(highlights)@ == old(highlights)@,
        !(is_pro || old(highlights)@.len() <= 5) ==> final(highlights)@ == old(
            highlights,
        )@.subrange(0, 5),
{
    if !is_pro && highlights.len() > 5 {
        highlights.truncate(5);
    }
}

} // verus!
