//! Chat activity detection: fixed windows over a message sequence,
//! per-window activity metrics, and threshold/keyword/emote-driven spike
//! detection.  Times are in milliseconds, densities and ratios in
//! per-mille, rates in milli-messages per window, scores in centi-points.

use crate::stats::{median, median_spec};
use vstd::prelude::*;

verus! {

/// Recognized chat transcript formats.
#[derive(Debug, Clone, Copy, PartialEq, Eq, Structural)]
pub enum ChatFormat {
    TwitchJson,
    YouTubeJson,
    GenericTxt,
    Unknown,
}

/// One normalized chat message.
#[derive(Debug, Clone)]
pub struct ChatMessage {
    pub timestamp_ms: u64,
    pub username: String,
    pub message: String,
    pub has_emote: bool,
}

/// One fixed-width activity window.
#[derive(Debug, Clone, Copy, PartialEq, Eq, Structural)]
pub struct ChatWindow {
    pub start_ms: u64,
    pub end_ms: u64,
    pub message_count: u32,
    pub unique_users: u32,
    pub keyword_matches: u32,
    pub emote_density: u32,
    pub caps_ratio: u32,
}

/// A detected chat activity spike.
#[derive(Debug, Clone, Copy, PartialEq, Eq, Structural)]
pub struct ChatSpike {
    pub start_ms: u64,
    pub end_ms: u64,
    pub peak_rate: u32,
    pub keyword_score: u32,
    pub score: u32,
}

/// Full outcome of the chat stage.  `baseline_rate` and `threshold` are in
/// milli-messages per window.
#[derive(Debug, Clone)]
pub struct ChatAnalysisResult {
    pub windows: Vec<ChatWindow>,
    pub baseline_rate: u64,
    pub threshold: u64,
    pub spikes: Vec<ChatSpike>,
}

/// Summary facts about a chat transcript.  The average rate is in
/// milli-messages per minute.
#[derive(Debug, Clone)]
pub struct ChatInfo {
    pub path: String,
    pub format: ChatFormat,
    pub total_messages: u32,
    pub duration_ms: u64,
    pub avg_rate_milli_per_min: u64,
}

/// Chat stage settings.  The rate multiplier is in tenths, the emote
/// threshold in per-mille.
#[derive(Debug, Clone)]
pub struct ChatAnalyzeSettings {
    pub rate_multiplier_tenths: u32,
    pub window_size_ms: u64,
    pub keywords: Vec<String>,
    pub keyword_threshold: u32,
    pub emote_threshold_permille: u32,
}

impl ChatAnalyzeSettings {
    /// The ranges the chat stage assumes of its settings.
    pub open spec fn wf(self) -> bool {
        &&& 10 <= self.rate_multiplier_tenths <= 100
        &&& 1 <= self.window_size_ms <= 3_600_000
        &&& self.keywords@.len() <= 0x1000
    }
}

/// The built-in hype keyword list.
pub fn default_keywords() -> (r: Vec<String>)
    ensures
        r@.len() == 20,
        r@[0]@ == "POG"@ && r@[1]@ == "POGGERS"@ && r@[2]@ == "POGU"@ && r@[3]@ == "LETS GO"@
            && r@[4]@ == "LET'S GO"@ && r@[5]@ == "OMG"@ && r@[6]@ == "WTF"@ && r@[7]@
            == "CLIP IT"@ && r@[8]@ == "CLIP THAT"@ && r@[9]@ == "GG"@ && r@[10]@ == "GGWP"@
            && r@[11]@ == "HOLY"@ && r@[12]@ == "INSANE"@ && r@[13]@ == "CRAZY"@ && r@[14]@
            == "NO WAY"@ && r@[15]@ == "NOWAY"@ && r@[16]@ == "KEKW"@ && r@[17]@ == "LULW"@
            && r@[18]@ == "OMEGALUL"@ && r@[19]@ == "HYPE"@,
{
    let mut r: Vec<String> = Vec::new();
    r.push(String::from_str("POG"));
    r.push(String::from_str("POGGERS"));
    r.push(String::from_str("POGU"));
    r.push(String::from_str("LETS GO"));
    r.push(String::from_str("LET'S GO"));
    r.push(String::from_str("OMG"));
    r.push(String::from_str("WTF"));
    r.push(String::from_str("CLIP IT"));
    r.push(String::from_str("CLIP THAT"));
    r.push(String::from_str("GG"));
    r.push(String::from_str("GGWP"));
    r.push(String::from_str("HOLY"));
    r.push(String::from_str("INSANE"));
    r.push(String::from_str("CRAZY"));
    r.push(String::from_str("NO WAY"));
    r.push(String::from_str("NOWAY"));
    r.push(String::from_str("KEKW"));
    r.push(String::from_str("LULW"));
    r.push(String::from_str("OMEGALUL"));
    r.push(String::from_str("HYPE"));
    r
}

impl Default for ChatAnalyzeSettings {
    /// Rate multiplier 3.0, five-second windows, the built-in keywords,
    /// three keyword matches, 30% emote density.
    fn default() -> (r: Self)
        ensures
            r.rate_multiplier_tenths == 30,
            r.window_size_ms == 5000,
            r.keywords@.len() == 20,
            r.keyword_threshold == 3,
            r.emote_threshold_permille == 300,
            r.wf(),
    {
        ChatAnalyzeSettings {
            rate_multiplier_tenths: 30,
            window_size_ms: 5000,
            keywords: default_keywords(),
            keyword_threshold: 3,
            emote_threshold_permille: 300,
        }
    }
}

/// What `str::to_uppercase` returns; a fixed function of the characters
/// alone.
pub uninterp spec fn upper_of(s: Seq<char>) -> Seq<char>;

/// Relies on str's `to_uppercase`: the result depends on the characters
/// alone.
#[verifier::external_body]
fn to_upper(s: &str) -> (r: String)
    ensures
        r@ == upper_of(s@),
{
    s.to_uppercase()
}

/// The pattern's characters occur contiguously in the sequence.
pub open spec fn contains_sub(s: Seq<char>, p: Seq<char>) -> bool {
    exists|i: int| 0 <= i <= s.len() - p.len() && #[trigger] s.subrange(i, i + p.len()) == p
}

/// Relies on str's `contains` with a string pattern: true exactly when the
/// pattern occurs as a contiguous run (UTF-8 is self-synchronizing, so
/// byte matches align with character boundaries).
#[verifier::external_body]
fn str_contains(s: &str, p: &str) -> (r: bool)
    ensures
        r == contains_sub(s@, p@),
{
    s.contains(p)
}

/// What `char::is_alphabetic` returns for a character.
pub uninterp spec fn alphabetic_char(c: char) -> bool;

/// Relies on char's `is_alphabetic`: a fixed classification table.
#[verifier::external_body]
fn char_is_alphabetic(c: char) -> (r: bool)
    ensures
        r == alphabetic_char(c),
{
    c.is_alphabetic()
}

/// What `char::is_uppercase` returns for a character.
pub uninterp spec fn uppercase_char(c: char) -> bool;

/// Relies on char's `is_uppercase`: a fixed classification table.
#[verifier::external_body]
fn char_is_uppercase(c: char) -> (r: bool)
    ensures
        r == uppercase_char(c),
{
    c.is_uppercase()
}

/// A message falls in the half-open window.
pub open spec fn in_win(m: ChatMessage, ws: int, we: int) -> bool {
    ws <= m.timestamp_ms < we
}

/// Messages of the first `n` that fall in the window.
pub open spec fn count_pref(msgs: Seq<ChatMessage>, n: int, ws: int, we: int) -> int
    decreases n,
{
    if n <= 0 {
        0
    } else {
        count_pref(msgs, n - 1, ws, we) + if in_win(msgs[n - 1], ws, we) {
            1int
        } else {
            0int
        }
    }
}

/// Emote-flagged messages of the first `n` that fall in the window.
pub open spec fn emote_pref(msgs: Seq<ChatMessage>, n: int, ws: int, we: int) -> int
    decreases n,
{
    if n <= 0 {
        0
    } else {
        emote_pref(msgs, n - 1, ws, we) + if in_win(msgs[n - 1], ws, we) && msgs[n - 1].has_emote {
            1int
        } else {
            0int
        }
    }
}

/// An earlier in-window message carries the same username.
pub open spec fn seen_before(msgs: Seq<ChatMessage>, k: int, ws: int, we: int) -> bool {
    exists|j: int| 0 <= j < k && in_win(#[trigger] msgs[j], ws, we) && msgs[j].username@ == msgs[k].username@
}

/// Distinct usernames among the first `n` in-window messages, counted at
/// their first occurrence.
pub open spec fn uniq_pref(msgs: Seq<ChatMessage>, n: int, ws: int, we: int) -> int
    decreases n,
{
    if n <= 0 {
        0
    } else {
        uniq_pref(msgs, n - 1, ws, we) + if in_win(msgs[n - 1], ws, we) && !seen_before(
            msgs,
            n - 1,
            ws,
            we,
        ) {
            1int
        } else {
            0int
        }
    }
}

/// Keyword hits of one uppercased text against the first `k` keywords; a
/// text holding several keywords counts once per keyword.
pub open spec fn msg_kw_pref(upper_text: Seq<char>, kws: Seq<String>, k: int) -> int
    decreases k,
{
    if k <= 0 {
        0
    } else {
        msg_kw_pref(upper_text, kws, k - 1) + if contains_sub(upper_text, upper_of(kws[k - 1]@)) {
            1int
        } else {
            0int
        }
    }
}

/// Keyword hits of one message text against all keywords, both sides
/// case-folded.
pub open spec fn msg_kw_count(text: Seq<char>, kws: Seq<String>) -> int {
    msg_kw_pref(upper_of(text), kws, kws.len() as int)
}

/// Keyword hits over the first `n` in-window messages.
pub open spec fn kw_pref(msgs: Seq<ChatMessage>, n: int, kws: Seq<String>, ws: int, we: int) -> int
    decreases n,
{
    if n <= 0 {
        0
    } else {
        kw_pref(msgs, n - 1, kws, ws, we) + if in_win(msgs[n - 1], ws, we) {
            msg_kw_count(msgs[n - 1].message@, kws)
        } else {
            0int
        }
    }
}

/// Alphabetic characters among the first `n` of a text.
pub open spec fn alpha_pref(t: Seq<char>, n: int) -> int
    decreases n,
{
    if n <= 0 {
        0
    } else {
        alpha_pref(t, n - 1) + if alphabetic_char(t[n - 1]) {
            1int
        } else {
            0int
        }
    }
}

/// Uppercase alphabetic characters among the first `n` of a text.
pub open spec fn upper_alpha_pref(t: Seq<char>, n: int) -> int
    decreases n,
{
    if n <= 0 {
        0
    } else {
        upper_alpha_pref(t, n - 1) + if alphabetic_char(t[n - 1]) && uppercase_char(t[n - 1]) {
            1int
        } else {
            0int
        }
    }
}

/// Alphabetic characters over the first `n` in-window messages.
pub open spec fn win_alpha_pref(msgs: Seq<ChatMessage>, n: int, ws: int, we: int) -> int
    decreases n,
{
    if n <= 0 {
        0
    } else {
        win_alpha_pref(msgs, n - 1, ws, we) + if in_win(msgs[n - 1], ws, we) {
            alpha_pref(msgs[n - 1].message@, msgs[n - 1].message@.len() as int)
        } else {
            0int
        }
    }
}

/// Uppercase alphabetic characters over the first `n` in-window messages.
pub open spec fn win_upper_pref(msgs: Seq<ChatMessage>, n: int, ws: int, we: int) -> int
    decreases n,
{
    if n <= 0 {
        0
    } else {
        win_upper_pref(msgs, n - 1, ws, we) + if in_win(msgs[n - 1], ws, we) {
            upper_alpha_pref(msgs[n - 1].message@, msgs[n - 1].message@.len() as int)
        } else {
            0int
        }
    }
}

/// Message lists the chat stage accepts: sizes that keep every per-window
/// count within machine range.
pub open spec fn msgs_wf(msgs: Seq<ChatMessage>) -> bool {
    &&& msgs.len() <= 0x7FFF_FFFF
    &&& forall|i: int| 0 <= i < msgs.len() ==> (#[trigger] msgs[i]).message@.len() <= 0x7FFF_FFFF
    &&& forall|i: int| 0 <= i < msgs.len() ==> (#[trigger] msgs[i]).timestamp_ms
        <= 0xFFFF_FFFF_FFFF
}

/// The window record for window `i` of a tiling that starts at `start0`.
pub open spec fn chat_window_at(
    msgs: Seq<ChatMessage>,
    kws: Seq<String>,
    start0: int,
    wsize: int,
    i: int,
) -> ChatWindow {
    let ws = start0 + i * wsize;
    let we = ws + wsize;
    let n = msgs.len() as int;
    let count = count_pref(msgs, n, ws, we);
    let emotes = emote_pref(msgs, n, ws, we);
    let alpha = win_alpha_pref(msgs, n, ws, we);
    let upper = win_upper_pref(msgs, n, ws, we);
    ChatWindow {
        start_ms: ws as u64,
        end_ms: we as u64,
        message_count: count as u32,
        unique_users: uniq_pref(msgs, n, ws, we) as u32,
        keyword_matches: kw_pref(msgs, n, kws, ws, we) as u32,
        emote_density: (if count > 0 {
            emotes * 1000 / count
        } else {
            0
        }) as u32,
        caps_ratio: (if alpha > 0 {
            upper * 1000 / alpha
        } else {
            0
        }) as u32,
    }
}

/// Number of windows tiling `[start, end)` at width `wsize`.
pub open spec fn window_count(start: int, end: int, wsize: int) -> int {
    if start >= end {
        0
    } else {
        (end - start + wsize - 1) / wsize
    }
}

proof fn lemma_count_pref_bounds(msgs: Seq<ChatMessage>, n: int, ws: int, we: int)
    requires
        0 <= n <= msgs.len(),
    ensures
        0 <= count_pref(msgs, n, ws, we) <= n,
        0 <= emote_pref(msgs, n, ws, we) <= count_pref(msgs, n, ws, we),
        0 <= uniq_pref(msgs, n, ws, we) <= count_pref(msgs, n, ws, we),
    decreases n,
{
    if n > 0 {
        lemma_count_pref_bounds(msgs, n - 1, ws, we);
    }
}

proof fn lemma_alpha_pref_bounds(t: Seq<char>, n: int)
    ensures
        0 <= upper_alpha_pref(t, n) <= alpha_pref(t, n) <= (if n >= 0 { n } else { 0 }),
    decreases n,
{
    if n > 0 {
        lemma_alpha_pref_bounds(t, n - 1);
    }
}

proof fn lemma_kw_bounds(msgs: Seq<ChatMessage>, n: int, kws: Seq<String>, ws: int, we: int)
    requires
        0 <= n <= msgs.len(),
    ensures
        0 <= kw_pref(msgs, n, kws, ws, we) <= n * kws.len(),
    decreases n,
{
    vstd::arithmetic::mul::lemma_mul_nonnegative(n, kws.len() as int);
    if n > 0 {
        lemma_kw_bounds(msgs, n - 1, kws, ws, we);
        lemma_msg_kw_bounds(upper_of(msgs[n - 1].message@), kws, kws.len() as int);
        assert((n - 1) * kws.len() + kws.len() == n * kws.len()) by (nonlinear_arith);
    }
}

proof fn lemma_msg_kw_bounds(t: Seq<char>, kws: Seq<String>, k: int)
    ensures
        0 <= msg_kw_pref(t, kws, k) <= (if k >= 0 { k } else { 0 }),
    decreases k,
{
    if k > 0 {
        lemma_msg_kw_bounds(t, kws, k - 1);
    }
}

proof fn lemma_win_alpha_bounds(msgs: Seq<ChatMessage>, n: int, ws: int, we: int)
    requires
        0 <= n <= msgs.len(),
        forall|i: int| 0 <= i < msgs.len() ==> (#[trigger] msgs[i]).message@.len() <= 0x7FFF_FFFF,
    ensures
        0 <= win_upper_pref(msgs, n, ws, we) <= win_alpha_pref(msgs, n, ws, we),
        win_alpha_pref(msgs, n, ws, we) <= n * 0x7FFF_FFFF,
    decreases n,
{
    vstd::arithmetic::mul::lemma_mul_nonnegative(n, 0x7FFF_FFFF);
    if n > 0 {
        lemma_win_alpha_bounds(msgs, n - 1, ws, we);
        lemma_alpha_pref_bounds(msgs[n - 1].message@, msgs[n - 1].message@.len() as int);
        assert((n - 1) * 0x7FFF_FFFF + 0x7FFF_FFFF == n * 0x7FFF_FFFF) by (nonlinear_arith);
    }
}

/// Alphabetic and uppercase-alphabetic character counts of a text.
fn text_case_counts(t: &str) -> (r: (u64, u64))
    requires
        t@.len() <= 0x7FFF_FFFF,
    ensures
        r.0 == alpha_pref(t@, t@.len() as int),
        r.1 == upper_alpha_pref(t@, t@.len() as int),
{
    let n = t.unicode_len();
    let mut alpha: u64 = 0;
    let mut upper: u64 = 0;
    let mut i: usize = 0;
    while i < n
        invariant
            i <= n == t@.len() <= 0x7FFF_FFFF,
            alpha == alpha_pref(t@, i as int),
            upper == upper_alpha_pref(t@, i as int),
            upper <= alpha <= i,
        decreases n - i,
    {
        let c = t.get_char(i);
        if char_is_alphabetic(c) {
            alpha += 1;
            if char_is_uppercase(c) {
                upper += 1;
            }
        }
        proof {
            lemma_alpha_pref_bounds(t@, i as int + 1);
        }
        i += 1;
    }
    (alpha, upper)
}

/// Keyword hits of one message text, both sides uppercased.
fn count_msg_keywords(text: &str, keywords: &Vec<String>) -> (r: u64)
    requires
        keywords@.len() <= 0x1000,
    ensures
        r == msg_kw_count(text@, keywords@),
{
    let upper_text = to_upper(text);
    let nk = keywords.len();
    let mut count: u64 = 0;
    let mut k: usize = 0;
    while k < nk
        invariant
            k <= nk == keywords@.len() <= 0x1000,
            upper_text@ == upper_of(text@),
            count == msg_kw_pref(upper_of(text@), keywords@, k as int),
            count <= k,
        decreases nk - k,
    {
        let upper_kw = to_upper(keywords[k].as_str());
        if str_contains(upper_text.as_str(), upper_kw.as_str()) {
            count += 1;
        }
        proof {
            lemma_msg_kw_bounds(upper_of(text@), keywords@, k as int + 1);
        }
        k += 1;
    }
    count
}

/// Tiles `[start_ms, end_ms)` into contiguous windows and computes each
/// window's activity metrics.
#[verifier::rlimit(60)]
pub fn create_windows(
    messages: &Vec<ChatMessage>,
    start_ms: u64,
    end_ms: u64,
    settings: &ChatAnalyzeSettings,
) -> (r: Vec<ChatWindow>)
    requires
        msgs_wf(messages@),
        settings.wf(),
        messages@.len() * settings.keywords@.len() <= 0xFFFF_FFFF,
        start_ms <= 0xFFFF_FFFF_FFFF,
        end_ms <= 0xFFFF_FFFF_FFFF,
    ensures
        r@.len() == window_count(start_ms as int, end_ms as int, settings.window_size_ms as int),
        forall|i: int| 0 <= i < r@.len() ==> (#[trigger] r@[i]) == chat_window_at(
            messages@,
            settings.keywords@,
            start_ms as int,
            settings.window_size_ms as int,
            i,
        ),
        forall|i: int| 0 <= i < r@.len() ==> (#[trigger] r@[i]).start_ms < r@[i].end_ms,
        forall|i: int| 0 <= i && i + 1 < r@.len() ==> (#[trigger] r@[i]).end_ms == r@[i
            + 1].start_ms,
        forall|i: int| 0 <= i < r@.len() ==> (#[trigger] r@[i]).end_ms <= end_ms
            + settings.window_size_ms,
{
    let n = messages.len();
    let wsize = settings.window_size_ms;
    let mut out: Vec<ChatWindow> = Vec::new();
    let mut w_start: u64 = start_ms;
    let ghost wsize_i = wsize as int;
    proof {
        assert(out@.len() * wsize_i == 0) by (nonlinear_arith)
            requires out@.len() == 0
        ;
    }
    while w_start < end_ms
        invariant
            msgs_wf(messages@),
            settings.wf(),
            n == messages@.len(),
            messages@.len() * settings.keywords@.len() <= 0xFFFF_FFFF,
            wsize == settings.window_size_ms,
            wsize_i == wsize as int,
            start_ms <= 0xFFFF_FFFF_FFFF,
            end_ms <= 0xFFFF_FFFF_FFFF,
            w_start as int == start_ms + out@.len() * wsize_i,
            out@.len() == 0 || w_start as int - wsize_i < end_ms,
            w_start as int <= end_ms + wsize_i || out@.len() == 0,
            forall|i: int| 0 <= i < out@.len() ==> (#[trigger] out@[i]).start_ms < out@[i].end_ms,
            forall|i: int| 0 <= i && i + 1 < out@.len() ==> (#[trigger] out@[i]).end_ms
                == out@[i + 1].start_ms,
            forall|i: int| 0 <= i < out@.len() ==> (#[trigger] out@[i]).end_ms <= end_ms
                + wsize_i,
            out@.len() >= 1 ==> out@[out@.len() - 1].end_ms == w_start,
            forall|i: int| 0 <= i < out@.len() ==> (#[trigger] out@[i]) == chat_window_at(
                messages@,
                settings.keywords@,
                start_ms as int,
                wsize_i,
                i,
            ),
        decreases end_ms + wsize - w_start,
    {
        proof {
            assert(out@.len() * wsize_i >= 0) by (nonlinear_arith)
                requires out@.len() >= 0, wsize_i >= 1
            ;
            assert((out@.len() + 1) * wsize_i == out@.len() * wsize_i + wsize_i)
                by (nonlinear_arith);
        }
        let w_end = w_start + wsize;
        let ghost ws = w_start as int;
        let ghost we = w_end as int;
        let mut count: u64 = 0;
        let mut emotes: u64 = 0;
        let mut uniq: u64 = 0;
        let mut kw: u64 = 0;
        let mut alpha: u64 = 0;
        let mut upper: u64 = 0;
        let mut mi: usize = 0;
        while mi < n
            invariant
                mi <= n == messages@.len(),
                msgs_wf(messages@),
                settings.wf(),
                ws == w_start as int,
                we == w_end as int,
                messages@.len() * settings.keywords@.len() <= 0xFFFF_FFFF,
                count == count_pref(messages@, mi as int, ws, we),
                emotes == emote_pref(messages@, mi as int, ws, we),
                uniq == uniq_pref(messages@, mi as int, ws, we),
                kw == kw_pref(messages@, mi as int, settings.keywords@, ws, we),
                alpha == win_alpha_pref(messages@, mi as int, ws, we),
                upper == win_upper_pref(messages@, mi as int, ws, we),
                count <= mi,
                emotes <= count,
                uniq <= count,
                kw <= mi * settings.keywords@.len(),
                upper <= alpha,
                alpha <= mi * 0x7FFF_FFFF,
            decreases n - mi,
        {
            proof {
                lemma_count_pref_bounds(messages@, mi as int + 1, ws, we);
                lemma_kw_bounds(messages@, mi as int + 1, settings.keywords@, ws, we);
                lemma_win_alpha_bounds(messages@, mi as int + 1, ws, we);
                assert((mi as int + 1) * settings.keywords@.len() <= messages@.len()
                    * settings.keywords@.len()) by (nonlinear_arith)
                    requires mi as int + 1 <= messages@.len(), settings.keywords@.len() >= 0
                ;
                assert((mi as int + 1) * 0x7FFF_FFFF <= messages@.len() * 0x7FFF_FFFF)
                    by (nonlinear_arith)
                    requires mi as int + 1 <= messages@.len()
                ;
                assert(messages@.len() * 0x7FFF_FFFF <= 0x7FFF_FFFFi64 * 0x7FFF_FFFFi64)
                    by (nonlinear_arith)
                    requires messages@.len() <= 0x7FFF_FFFF
                ;
            }
            let m_ts = messages[mi].timestamp_ms;
            if w_start <= m_ts && m_ts < w_end {
                count += 1;
                if messages[mi].has_emote {
                    emotes += 1;
                }
                // First occurrence of this username inside the window?
                let mut seen = false;
                let mut j: usize = 0;
                while j < mi
                    invariant
                        j <= mi < messages@.len(),
                        seen == exists|t: int|
                            0 <= t < j && in_win(#[trigger] messages@[t], ws, we)
                                && messages@[t].username@ == messages@[mi as int].username@,
                        ws == w_start as int,
                        we == w_end as int,
                    decreases mi - j,
                {
                    let o_ts = messages[j].timestamp_ms;
                    if w_start <= o_ts && o_ts < w_end {
                        if crate::text::str_eq(
                            messages[j].username.as_str(),
                            messages[mi].username.as_str(),
                        ) {
                            seen = true;
                        }
                    }
                    proof {
                        if seen {
                            assert(exists|t: int|
                                0 <= t < j + 1 && in_win(#[trigger] messages@[t], ws, we)
                                    && messages@[t].username@ == messages@[mi as int].username@);
                        }
                    }
                    j += 1;
                }
                if !seen {
                    uniq += 1;
                }
                let hits = count_msg_keywords(messages[mi].message.as_str(), &settings.keywords);
                kw += hits;
                proof {
                    lemma_msg_kw_bounds(
                        upper_of(messages@[mi as int].message@),
                        settings.keywords@,
                        settings.keywords@.len() as int,
                    );
                }
                let (a, u) = text_case_counts(messages[mi].message.as_str());
                alpha += a;
                upper += u;
            }
            mi += 1;
        }
        proof {
            assert(count <= 0x7FFF_FFFF);
            assert(kw <= 0xFFFF_FFFF);
            assert(emotes * 1000 <= count * 1000) by (nonlinear_arith)
                requires emotes <= count
            ;
            if count > 0 {
                assert((emotes as int) * 1000 / (count as int) <= 1000) by (nonlinear_arith)
                    requires
                        (emotes as int) * 1000 <= (count as int) * 1000,
                        count as int >= 1,
                ;
            }
            assert(upper * 1000 <= alpha * 1000) by (nonlinear_arith)
                requires upper <= alpha
            ;
            if alpha > 0 {
                assert((upper as int) * 1000 / (alpha as int) <= 1000) by (nonlinear_arith)
                    requires
                        (upper as int) * 1000 <= (alpha as int) * 1000,
                        alpha as int >= 1,
                ;
            }
            assert(alpha * 1000 <= 0x7FFF_FFFFi128 * 0x7FFF_FFFFi128 * 1000) by (nonlinear_arith)
                requires 0 <= alpha <= 0x7FFF_FFFFi128 * 0x7FFF_FFFFi128
            ;
        }
        let emote_density: u32 = if count > 0 {
            ((emotes * 1000) / count) as u32
        } else {
            0
        };
        let caps_ratio: u32 = if alpha > 0 {
            (((upper as u128) * 1000) / (alpha as u128)) as u32
        } else {
            0
        };
        out.push(
            ChatWindow {
                start_ms: w_start,
                end_ms: w_end,
                message_count: count as u32,
                unique_users: uniq as u32,
                keyword_matches: kw as u32,
                emote_density,
                caps_ratio,
            },
        );
        w_start = w_end;
    }
    proof {
        let k = out@.len() as int;
        if start_ms < end_ms {
            assert(k >= 1);
            assert((k - 1) * wsize_i == k * wsize_i - wsize_i) by (nonlinear_arith);
            assert(start_ms + (k - 1) * wsize_i < end_ms) by (nonlinear_arith)
                requires
                    (w_start as int) - wsize_i < end_ms,
                    w_start as int == start_ms + k * wsize_i,
                    (k - 1) * wsize_i == k * wsize_i - wsize_i,
            ;
            assert(k == window_count(start_ms as int, end_ms as int, wsize_i)) by (nonlinear_arith)
                requires
                    start_ms + k * wsize_i >= end_ms,
                    start_ms + (k - 1) * wsize_i < end_ms,
                    wsize_i >= 1,
                    start_ms < end_ms,
                    window_count(start_ms as int, end_ms as int, wsize_i) == (end_ms - start_ms
                        + wsize_i - 1) / wsize_i,
            ;
        } else {
            assert(k == 0) by {
                if k > 0 {
                    assert(start_ms + (k - 1) * wsize_i < end_ms) by (nonlinear_arith)
                        requires
                            (w_start as int) - wsize_i < end_ms,
                            w_start as int == start_ms + k * wsize_i,
                    ;
                    assert((k - 1) * wsize_i >= 0) by (nonlinear_arith)
                        requires k >= 1, wsize_i >= 1
                    ;
                }
            }
        }
    }
    out
}

/// A window is a spike candidate: its rate is above the threshold, or it
/// has enough keyword matches, or its emote density is above the cutoff.
pub open spec fn window_is_candidate(
    w: ChatWindow,
    threshold_milli: int,
    keyword_threshold: u32,
    emote_threshold_permille: u32,
) -> bool {
    ||| w.message_count * 1000 > threshold_milli
    ||| w.keyword_matches >= keyword_threshold
    ||| w.emote_density > emote_threshold_permille
}

/// An open run of adjacent candidate windows.
#[derive(Debug, Clone, Copy, PartialEq, Eq, Structural)]
pub struct SpikeRun {
    pub start_ms: u64,
    pub end_ms: u64,
    pub peak_rate: u32,
    pub total_keywords: u32,
}

/// The chat spike score: rate lift above baseline clamped to 70 points
/// (35 when the baseline is silent), plus 10 points per keyword match up
/// to 30, in centi-points capped at 100 points.
pub open spec fn chat_spike_score_parts(peak_rate: u32, keyword_matches: u32, baseline_milli: int)
    -> (int, int) {
    let rate_score = if baseline_milli > 0 {
        let x = (peak_rate * 1000) * 3000 / baseline_milli - 3000;
        if x < 0 {
            0
        } else if x > 7000 {
            7000
        } else {
            x
        }
    } else {
        3500
    };
    let keyword_score = if keyword_matches * 1000 > 3000 {
        3000int
    } else {
        keyword_matches * 1000
    };
    (rate_score, keyword_score)
}

/// The spike a closed run becomes.
pub open spec fn chat_spike_of(run: SpikeRun, baseline_milli: int) -> ChatSpike {
    let (rate_score, keyword_score) = chat_spike_score_parts(
        run.peak_rate,
        run.total_keywords,
        baseline_milli,
    );
    let total = rate_score + keyword_score;
    ChatSpike {
        start_ms: run.start_ms,
        end_ms: run.end_ms,
        peak_rate: run.peak_rate,
        keyword_score: keyword_score as u32,
        score: (if total > 10000 {
            10000int
        } else {
            total
        }) as u32,
    }
}

/// Two windows are adjacent when their boundary gap is under 100 ms.
pub open spec fn runs_adjacent(run_end_ms: u64, w: ChatWindow) -> bool {
    run_end_ms < w.start_ms + 100 && w.start_ms < run_end_ms + 100
}

/// A run extended by one adjacent candidate window.
pub open spec fn extend_run(run: SpikeRun, w: ChatWindow) -> SpikeRun {
    SpikeRun {
        start_ms: run.start_ms,
        end_ms: w.end_ms,
        peak_rate: if w.message_count > run.peak_rate {
            w.message_count
        } else {
            run.peak_rate
        },
        total_keywords: (run.total_keywords + w.keyword_matches) as u32,
    }
}

/// A fresh run holding one candidate window.
pub open spec fn fresh_run(w: ChatWindow) -> SpikeRun {
    SpikeRun {
        start_ms: w.start_ms,
        end_ms: w.end_ms,
        peak_rate: w.message_count,
        total_keywords: w.keyword_matches,
    }
}

/// The merge walk over the windows: candidates extend the open run while
/// adjacent, and every closed run becomes a spike.
pub open spec fn chat_fold(
    windows: Seq<ChatWindow>,
    threshold_milli: int,
    keyword_threshold: u32,
    emote_threshold_permille: u32,
    baseline_milli: int,
    i: int,
    st: Option<SpikeRun>,
    acc: Seq<ChatSpike>,
) -> Seq<ChatSpike>
    decreases windows.len() - i,
{
    if i < 0 || i >= windows.len() {
        match st {
            None => acc,
            Some(run) => acc.push(chat_spike_of(run, baseline_milli)),
        }
    } else if !window_is_candidate(
        windows[i],
        threshold_milli,
        keyword_threshold,
        emote_threshold_permille,
    ) {
        chat_fold(
            windows,
            threshold_milli,
            keyword_threshold,
            emote_threshold_permille,
            baseline_milli,
            i + 1,
            st,
            acc,
        )
    } else {
        match st {
            None => chat_fold(
                windows,
                threshold_milli,
                keyword_threshold,
                emote_threshold_permille,
                baseline_milli,
                i + 1,
                Some(fresh_run(windows[i])),
                acc,
            ),
            Some(run) => if runs_adjacent(run.end_ms, windows[i]) {
                chat_fold(
                    windows,
                    threshold_milli,
                    keyword_threshold,
                    emote_threshold_permille,
                    baseline_milli,
                    i + 1,
                    Some(extend_run(run, windows[i])),
                    acc,
                )
            } else {
                chat_fold(
                    windows,
                    threshold_milli,
                    keyword_threshold,
                    emote_threshold_permille,
                    baseline_milli,
                    i + 1,
                    Some(fresh_run(windows[i])),
                    acc.push(chat_spike_of(run, baseline_milli)),
                )
            },
        }
    }
}

/// A chat spike as promised downstream: score within range and a positive
/// time span.
pub open spec fn chat_spike_wf(s: ChatSpike) -> bool {
    s.score <= 10000 && s.keyword_score <= 3000 && s.start_ms < s.end_ms
}

/// Builds the spike record for a closed run.
pub fn create_chat_spike(
    start_ms: u64,
    end_ms: u64,
    peak_rate: u32,
    keyword_matches: u32,
    baseline_milli: u64,
) -> (r: ChatSpike)
    requires
        baseline_milli <= 0x7FFF_FFFF_FFFF,
    ensures
        r == chat_spike_of(
            SpikeRun { start_ms, end_ms, peak_rate, total_keywords: keyword_matches },
            baseline_milli as int,
        ),
        r.score <= 10000,
        r.keyword_score <= 3000,
{
    let rate_score: u64 = if baseline_milli > 0 {
        let lift: u64 = ((peak_rate as u64) * 1000) * 3000 / baseline_milli;
        if lift < 3000 {
            0
        } else if lift - 3000 > 7000 {
            7000
        } else {
            lift - 3000
        }
    } else {
        3500
    };
    let keyword_score: u64 = if (keyword_matches as u64) * 1000 > 3000 {
        3000
    } else {
        (keyword_matches as u64) * 1000
    };
    let total = rate_score + keyword_score;
    let score: u64 = if total > 10000 {
        10000
    } else {
        total
    };
    ChatSpike {
        start_ms,
        end_ms,
        peak_rate,
        keyword_score: keyword_score as u32,
        score: score as u32,
    }
}

/// Walks the windows, merging adjacent candidates and scoring each closed
/// run into a spike.
pub fn detect_and_merge_spikes(
    windows: &Vec<ChatWindow>,
    settings: &ChatAnalyzeSettings,
    baseline_milli: u64,
    threshold_milli: u64,
) -> (r: Vec<ChatSpike>)
    requires
        baseline_milli <= 0x7FFF_FFFF_FFFF,
        threshold_milli <= 0x7FFF_FFFF_FFFF,
        windows@.len() <= 0x2_0000_0000_0000,
        forall|i: int| 0 <= i < windows@.len() ==> (#[trigger] windows@[i]).start_ms
            < windows@[i].end_ms,
        forall|i: int| 0 <= i < windows@.len() ==> (#[trigger] windows@[i]).end_ms
            <= 0x7FFF_FFFF_FFFF_FFFF,
        forall|i: int| 0 <= i && i + 1 < windows@.len() ==> (#[trigger] windows@[i]).end_ms
            <= windows@[i + 1].start_ms,
    ensures
        r@ == chat_fold(
            windows@,
            threshold_milli as int,
            settings.keyword_threshold,
            settings.emote_threshold_permille,
            baseline_milli as int,
            0,
            None,
            Seq::empty(),
        ),
        forall|k: int| 0 <= k < r@.len() ==> chat_spike_wf(#[trigger] r@[k]),
{
    let n = windows.len();
    let mut spikes: Vec<ChatSpike> = Vec::new();
    let mut cur: Option<SpikeRun> = None;
    let mut i: usize = 0;
    let ghost thr = threshold_milli as int;
    let ghost base = baseline_milli as int;
    while i < n
        invariant
            i <= n == windows@.len() <= 0x2_0000_0000_0000,
            baseline_milli <= 0x7FFF_FFFF_FFFF,
            thr == threshold_milli as int,
            base == baseline_milli as int,
            forall|k: int| 0 <= k < windows@.len() ==> (#[trigger] windows@[k]).start_ms
                < windows@[k].end_ms,
            forall|k: int| 0 <= k < windows@.len() ==> (#[trigger] windows@[k]).end_ms
                <= 0x7FFF_FFFF_FFFF_FFFF,
            forall|k: int| 0 <= k && k + 1 < windows@.len() ==> (#[trigger] windows@[k]).end_ms
                <= windows@[k + 1].start_ms,
            cur matches Some(run) ==> run.start_ms < run.end_ms && i >= 1 && run.end_ms
                <= windows@[i - 1].end_ms,
            forall|k: int| 0 <= k < spikes@.len() ==> chat_spike_wf(#[trigger] spikes@[k]),
            chat_fold(
                windows@,
                thr,
                settings.keyword_threshold,
                settings.emote_threshold_permille,
                base,
                0,
                None,
                Seq::empty(),
            ) == chat_fold(
                windows@,
                thr,
                settings.keyword_threshold,
                settings.emote_threshold_permille,
                base,
                i as int,
                cur,
                spikes@,
            ),
        decreases n - i,
    {
        let w = windows[i];
        let is_cand = (w.message_count as u64) * 1000 > threshold_milli || w.keyword_matches
            >= settings.keyword_threshold || w.emote_density > settings.emote_threshold_permille;
        proof {
            assert(is_cand == window_is_candidate(
                windows@[i as int],
                thr,
                settings.keyword_threshold,
                settings.emote_threshold_permille,
            ));
        }
        let ghost old_cur = cur;
        let ghost old_spikes = spikes@;
        if is_cand {
            match cur {
                None => {
                    cur = Some(
                        SpikeRun {
                            start_ms: w.start_ms,
                            end_ms: w.end_ms,
                            peak_rate: w.message_count,
                            total_keywords: w.keyword_matches,
                        },
                    );
                },
                Some(run) => {
                    let adjacent = run.end_ms < w.start_ms + 100 && w.start_ms < run.end_ms + 100;
                    if adjacent {
                        let total_kw: u64 = (run.total_keywords as u64) + (w.keyword_matches
                            as u64);
                        proof {
                            assert(windows@[i - 1].end_ms <= windows@[i as int].start_ms);
                        }
                        cur = Some(
                            SpikeRun {
                                start_ms: run.start_ms,
                                end_ms: w.end_ms,
                                peak_rate: if w.message_count > run.peak_rate {
                                    w.message_count
                                } else {
                                    run.peak_rate
                                },
                                total_keywords: #[verifier::truncate] (total_kw as u32),
                            },
                        );
                        proof {
                            assert(cur->0 == extend_run(old_cur->0, windows@[i as int]));
                        }
                    } else {
                        let spike = create_chat_spike(
                            run.start_ms,
                            run.end_ms,
                            run.peak_rate,
                            run.total_keywords,
                            baseline_milli,
                        );
                        spikes.push(spike);
                        cur = Some(
                            SpikeRun {
                                start_ms: w.start_ms,
                                end_ms: w.end_ms,
                                peak_rate: w.message_count,
                                total_keywords: w.keyword_matches,
                            },
                        );
                    }
                },
            }
        }
        proof {
            assert(chat_fold(
                windows@,
                thr,
                settings.keyword_threshold,
                settings.emote_threshold_permille,
                base,
                i as int,
                old_cur,
                old_spikes,
            ) == chat_fold(
                windows@,
                thr,
                settings.keyword_threshold,
                settings.emote_threshold_permille,
                base,
                i as int + 1,
                cur,
                spikes@,
            ));
        }
        i += 1;
    }
    if let Some(run) = cur {
        let spike = create_chat_spike(
            run.start_ms,
            run.end_ms,
            run.peak_rate,
            run.total_keywords,
            baseline_milli,
        );
        spikes.push(spike);
    }
    spikes
}

/// The milli-rate series of a window list, for the median.
pub open spec fn rate_series(windows: Seq<ChatWindow>) -> Seq<u64> {
    Seq::new(windows.len(), |i: int| (windows[i].message_count * 1000) as u64)
}

/// Analyzes a normalized message sequence: windows, baseline and
/// threshold, and the merged spike list.
#[verifier::rlimit(60)]
/// Everything the chat stage promises of its result for a given message
/// list and settings: the window tiling and per-window metrics, the
/// median baseline and threshold, the merged spike fold, and spike
/// well-formedness; empty inputs give the empty result.
pub open spec fn chat_analysis_ok(
    messages: Seq<ChatMessage>,
    settings: ChatAnalyzeSettings,
    r: ChatAnalysisResult,
) -> bool {
    &&& (messages.len() == 0 ==> r.windows@.len() == 0 && r.baseline_rate == 0 && r.threshold
        == 0 && r.spikes@.len() == 0)
    &&& (messages.len() > 0 ==> {
        let start = messages[0].timestamp_ms as int;
        let end = messages[messages.len() - 1].timestamp_ms as int;
        &&& r.windows@.len() == window_count(start, end, settings.window_size_ms as int)
        &&& forall|i: int| 0 <= i < r.windows@.len() ==> (#[trigger] r.windows@[i])
            == chat_window_at(
            messages,
            settings.keywords@,
            start,
            settings.window_size_ms as int,
            i,
        )
        &&& (r.windows@.len() > 0 ==> {
            &&& r.baseline_rate == median_spec(rate_series(r.windows@))
            &&& r.threshold == r.baseline_rate * (settings.rate_multiplier_tenths as int) / 10
            &&& r.spikes@ == chat_fold(
                r.windows@,
                r.threshold as int,
                settings.keyword_threshold,
                settings.emote_threshold_permille,
                r.baseline_rate as int,
                0,
                None,
                Seq::empty(),
            )
            &&& forall|k: int| 0 <= k < r.spikes@.len() ==> chat_spike_wf(#[trigger] r.spikes@[k])
        })
        &&& (r.windows@.len() == 0 ==> r.baseline_rate == 0 && r.threshold == 0 && r.spikes@.len()
            == 0)
    })
}

pub fn analyze_chat(messages: &Vec<ChatMessage>, settings: &ChatAnalyzeSettings) -> (r:
    ChatAnalysisResult)
    requires
        msgs_wf(messages@),
        settings.wf(),
        messages@.len() * settings.keywords@.len() <= 0xFFFF_FFFF,
    ensures
        chat_analysis_ok(messages@, *settings, r),
{
    if messages.len() == 0 {
        return ChatAnalysisResult {
            windows: Vec::new(),
            baseline_rate: 0,
            threshold: 0,
            spikes: Vec::new(),
        };
    }
    let start_time = messages[0].timestamp_ms;
    let end_time = messages[messages.len() - 1].timestamp_ms;
    let windows = create_windows(messages, start_time, end_time, settings);
    if windows.len() == 0 {
        return ChatAnalysisResult {
            windows,
            baseline_rate: 0,
            threshold: 0,
            spikes: Vec::new(),
        };
    }
    let m = windows.len();
    let mut rates: Vec<u64> = Vec::new();
    let mut i: usize = 0;
    while i < m
        invariant
            i <= m == windows@.len(),
            rates@.len() == i,
            forall|k: int| 0 <= k < i ==> (#[trigger] rates@[k]) == (windows@[k].message_count
                * 1000) as u64,
        decreases m - i,
    {
        rates.push((windows[i].message_count as u64) * 1000);
        i += 1;
    }
    proof {
        assert(rates@ =~= rate_series(windows@));
        crate::stats::lemma_sorted_version_ensures(rates@);
        assert(forall|k: int| 0 <= k < rates@.len() ==> #[trigger] rates@[k] <= 0x3E8_FFFF_FFFF);
        lemma_rate_median_bound(rates@);
    }
    let baseline = median(&rates);
    proof {
        assert(baseline * (settings.rate_multiplier_tenths as int) <= 0x3E8_FFFF_FFFFi128 * 100)
            by (nonlinear_arith)
            requires baseline <= 0x3E8_FFFF_FFFFi128, settings.rate_multiplier_tenths <= 100
        ;
    }
    let threshold = baseline * (settings.rate_multiplier_tenths as u64) / 10;
    proof {
        assert(windows@.len() <= 0x2_0000_0000_0000) by {
            if start_time < end_time {
                let a = end_time - start_time + settings.window_size_ms - 1;
                vstd::arithmetic::div_mod::lemma_div_is_ordered_by_denominator(
                    a as int,
                    1,
                    settings.window_size_ms as int,
                );
                assert(a as int / 1 == a as int);
            }
        }
        assert(forall|k: int| 0 <= k < windows@.len() ==> (#[trigger] windows@[k]).end_ms
            <= 0x7FFF_FFFF_FFFF_FFFF);
    }
    let spikes = detect_and_merge_spikes(&windows, settings, baseline, threshold);
    ChatAnalysisResult { windows, baseline_rate: baseline, threshold, spikes }
}

/// The median of a milli-rate series stays within the machine range the
/// spike scorer needs.
proof fn lemma_rate_median_bound(s: Seq<u64>)
    requires
        forall|i: int| 0 <= i < s.len() ==> #[trigger] s[i] <= 0x3E8_FFFF_FFFF,
    ensures
        0 <= median_spec(s) <= 0x3E8_FFFF_FFFF,
{
    crate::stats::lemma_sorted_version_ensures(s);
    crate::stats::lemma_sorted_version_members(s);
    let t = crate::stats::sorted_version(s);
    if t.len() > 0 {
        if t.len() % 2 == 0 {
            assert(t[t.len() as int / 2 - 1] <= 0x3E8_FFFF_FFFF);
            assert(t[t.len() as int / 2] <= 0x3E8_FFFF_FFFF);
        } else {
            assert(t[t.len() as int / 2] <= 0x3E8_FFFF_FFFF);
        }
    }
}

/// Summary statistics over a parsed transcript: total count, covered time
/// span, and average milli-messages per minute.
pub fn get_chat_info(path: String, format: ChatFormat, messages: &Vec<ChatMessage>) -> (r: ChatInfo)
    requires
        msgs_wf(messages@),
    ensures
        r.format == format,
        r.total_messages == messages@.len(),
        messages@.len() == 0 ==> r.duration_ms == 0 && r.avg_rate_milli_per_min == 0,
        messages@.len() > 0 ==> {
            let first = messages@[0].timestamp_ms;
            let last = messages@[messages@.len() - 1].timestamp_ms;
            &&& r.duration_ms == (if last >= first {
                last - first
            } else {
                0
            })
            &&& (r.duration_ms > 0 ==> r.avg_rate_milli_per_min == messages@.len() as int
                * 60_000_000 / (r.duration_ms as int))
            &&& (r.duration_ms == 0 ==> r.avg_rate_milli_per_min == 0)
        },
{
    let n = messages.len();
    if n == 0 {
        return ChatInfo {
            path,
            format,
            total_messages: 0,
            duration_ms: 0,
            avg_rate_milli_per_min: 0,
        };
    }
    let first = messages[0].timestamp_ms;
    let last = messages[n - 1].timestamp_ms;
    let duration_ms: u64 = if last >= first {
        last - first
    } else {
        0
    };
    let avg: u64 = if duration_ms > 0 {
        proof {
            assert(messages@.len() * 60_000_000 <= 0x7FFF_FFFFi128 * 60_000_000)
                by (nonlinear_arith)
                requires messages@.len() <= 0x7FFF_FFFF
            ;
        }
        ((n as u64) * 60_000_000) / duration_ms
    } else {
        0
    };
    ChatInfo {
        path,
        format,
        total_messages: n as u32,
        duration_ms,
        avg_rate_milli_per_min: avg,
    }
}

/// What `char::is_alphanumeric` returns for a character.
pub uninterp spec fn alnum_char(c: char) -> bool;

/// Relies on char's `is_alphanumeric`: a fixed classification table.
#[verifier::external_body]
fn char_is_alphanumeric(c: char) -> (r: bool)
    ensures
        r == alnum_char(c),
{
    c.is_alphanumeric()
}

/// What `char::is_whitespace` returns for a character.
pub uninterp spec fn space_char(c: char) -> bool;

/// Relies on char's `is_whitespace`: a fixed classification table.
#[verifier::external_body]
fn char_is_whitespace(c: char) -> (r: bool)
    ensures
        r == space_char(c),
{
    c.is_whitespace()
}

/// A username character: alphanumeric or underscore.
pub open spec fn word_char(c: char) -> bool {
    alnum_char(c) || c == '_'
}

/// First index at or after `i` that is not whitespace, or the length.
pub open spec fn space_run_end(s: Seq<char>, i: int) -> int
    decreases s.len() - i,
{
    if i < 0 || i >= s.len() || !space_char(s[i]) {
        i
    } else {
        space_run_end(s, i + 1)
    }
}

/// First index at or after `i` that is not a word character, or the
/// length.
pub open spec fn word_run_end(s: Seq<char>, i: int) -> int
    decreases s.len() - i,
{
    if i < 0 || i >= s.len() || !word_char(s[i]) {
        i
    } else {
        word_run_end(s, i + 1)
    }
}

/// A position that ends a run (everything before satisfies the class, the
/// position itself does not or is the end) is the run end.
proof fn lemma_space_run_end_unique(s: Seq<char>, i: int, j: int)
    requires
        0 <= i <= j <= s.len(),
        forall|k: int| i <= k < j ==> space_char(#[trigger] s[k]),
        j < s.len() ==> !space_char(s[j]),
    ensures
        space_run_end(s, i) == j,
    decreases j - i,
{
    if i < j {
        lemma_space_run_end_unique(s, i + 1, j);
    }
}

proof fn lemma_word_run_end_unique(s: Seq<char>, i: int, j: int)
    requires
        0 <= i <= j <= s.len(),
        forall|k: int| i <= k < j ==> word_char(#[trigger] s[k]),
        j < s.len() ==> !word_char(s[j]),
    ensures
        word_run_end(s, i) == j,
    decreases j - i,
{
    if i < j {
        lemma_word_run_end_unique(s, i + 1, j);
    }
}

/// The pieces of one parsed transcript line.
pub struct ParsedLine {
    pub ts_ms: int,
    pub user_start: int,
    pub user_end: int,
    pub msg_start: int,
}

/// The line grammar of a plain-text transcript: an optionally bracketed
/// `H:MM:SS` or `HH:MM:SS` stamp, at least one space, a word-character
/// username, a colon, then the message after any further spaces.
pub open spec fn parse_chat_line(line: Seq<char>) -> Option<ParsedLine> {
    let n = line.len() as int;
    let b: int = if n > 0 && line[0] == '[' {
        1
    } else {
        0
    };
    if n <= b || !crate::text::is_digit(line[b]) {
        None
    } else {
        let d: int = if b + 1 < n && crate::text::is_digit(line[b + 1]) {
            2
        } else {
            1
        };
        let p = b + d;
        if p + 5 >= n {
            None
        } else if !(line[p] == ':' && crate::text::is_digit(line[p + 1]) && crate::text::is_digit(
            line[p + 2],
        ) && line[p + 3] == ':' && crate::text::is_digit(line[p + 4]) && crate::text::is_digit(
            line[p + 5],
        )) {
            None
        } else {
            let q0 = p + 6;
            let q1: int = if q0 < n && line[q0] == ']' {
                q0 + 1
            } else {
                q0
            };
            let sp = space_run_end(line, q1);
            if sp == q1 {
                None
            } else {
                let we = word_run_end(line, sp);
                if we == sp || we >= n || line[we] != ':' {
                    None
                } else {
                    let hours = crate::text::dec_value(line.subrange(b, p));
                    let minutes = crate::text::digit_val(line[p + 1]) * 10
                        + crate::text::digit_val(line[p + 2]);
                    let seconds = crate::text::digit_val(line[p + 4]) * 10
                        + crate::text::digit_val(line[p + 5]);
                    Some(
                        ParsedLine {
                            ts_ms: (hours * 3600 + minutes * 60 + seconds) * 1000,
                            user_start: sp,
                            user_end: we,
                            msg_start: space_run_end(line, we + 1),
                        },
                    )
                }
            }
        }
    }
}

/// Parses one transcript line into a message; plain text carries no emote
/// information.
fn parse_txt_line(line: &str) -> (r: Option<ChatMessage>)
    ensures
        r is Some <==> parse_chat_line(line@) is Some,
        r matches Some(m) ==> parse_chat_line(line@) matches Some(p) && {
            &&& m.timestamp_ms == p.ts_ms
            &&& m.username@ == line@.subrange(p.user_start, p.user_end)
            &&& m.message@ == line@.subrange(p.msg_start, line@.len() as int)
            &&& !m.has_emote
        },
{
    let n = line.unicode_len();
    let b: usize = if n > 0 && line.get_char(0) == '[' {
        1
    } else {
        0
    };
    if n <= b || !char_in_digit_range(line.get_char(b)) {
        return None;
    }
    let d: usize = if b + 1 < n && char_in_digit_range(line.get_char(b + 1)) {
        2
    } else {
        1
    };
    let p = b + d;
    if p + 5 >= n {
        return None;
    }
    if !(line.get_char(p) == ':' && char_in_digit_range(line.get_char(p + 1))
        && char_in_digit_range(line.get_char(p + 2)) && line.get_char(p + 3) == ':'
        && char_in_digit_range(line.get_char(p + 4)) && char_in_digit_range(
        line.get_char(p + 5),
    )) {
        return None;
    }
    let q0 = p + 6;
    let q1: usize = if q0 < n && line.get_char(q0) == ']' {
        q0 + 1
    } else {
        q0
    };
    let mut sp = q1;
    while sp < n && char_is_whitespace(line.get_char(sp))
        invariant
            q1 <= sp <= n == line@.len(),
            forall|k: int| q1 <= k < sp ==> space_char(#[trigger] line@[k]),
        decreases n - sp,
    {
        sp += 1;
    }
    proof {
        lemma_space_run_end_unique(line@, q1 as int, sp as int);
    }
    if sp == q1 {
        return None;
    }
    let mut we = sp;
    while we < n && (char_is_alphanumeric(line.get_char(we)) || line.get_char(we) == '_')
        invariant
            sp <= we <= n == line@.len(),
            forall|k: int| sp <= k < we ==> word_char(#[trigger] line@[k]),
        decreases n - we,
    {
        we += 1;
    }
    proof {
        lemma_word_run_end_unique(line@, sp as int, we as int);
    }
    if we == sp {
        return None;
    }
    if we >= n || line.get_char(we) != ':' {
        return None;
    }
    let mut ms = we + 1;
    while ms < n && char_is_whitespace(line.get_char(ms))
        invariant
            we + 1 <= ms <= n == line@.len(),
            forall|k: int| we + 1 <= k < ms ==> space_char(#[trigger] line@[k]),
        decreases n - ms,
    {
        ms += 1;
    }
    proof {
        lemma_space_run_end_unique(line@, we as int + 1, ms as int);
    }
    let hours: u64 = if d == 2 {
        (line.get_char(b) as u64 - 48) * 10 + (line.get_char(b + 1) as u64 - 48)
    } else {
        line.get_char(b) as u64 - 48
    };
    proof {
        reveal_with_fuel(crate::text::dec_acc, 4);
        let sub = line@.subrange(b as int, p as int);
        if d == 2 {
            assert(sub.len() == 2);
            assert(sub[0] == line@[b as int]);
            assert(sub[1] == line@[b as int + 1]);
            assert(crate::text::dec_value(sub) == crate::text::digit_val(sub[0]) * 10
                + crate::text::digit_val(sub[1]));
        } else {
            assert(sub.len() == 1);
            assert(sub[0] == line@[b as int]);
            assert(crate::text::dec_value(sub) == crate::text::digit_val(sub[0]));
        }
    }
    let minutes: u64 = (line.get_char(p + 1) as u64 - 48) * 10 + (line.get_char(p + 2) as u64
        - 48);
    let seconds: u64 = (line.get_char(p + 4) as u64 - 48) * 10 + (line.get_char(p + 5) as u64
        - 48);
    let ts_ms: u64 = (hours * 3600 + minutes * 60 + seconds) * 1000;
    let username = line.substring_char(sp, we).to_owned();
    let message = line.substring_char(ms, n).to_owned();
    Some(ChatMessage { timestamp_ms: ts_ms, username, message, has_emote: false })
}

/// ASCII digit test on a character value.
fn char_in_digit_range(c: char) -> (r: bool)
    ensures
        r == crate::text::is_digit(c),
{
    let v = c as u32;
    48 <= v && v <= 57
}

/// The abstract content of one parsed message.
pub struct TxtMessage {
    pub ts_ms: int,
    pub username: Seq<char>,
    pub text: Seq<char>,
}

/// The abstract contents of a message list.
pub open spec fn txt_views(v: Seq<ChatMessage>) -> Seq<TxtMessage> {
    Seq::new(
        v.len(),
        |i: int|
            TxtMessage {
                ts_ms: v[i].timestamp_ms as int,
                username: v[i].username@,
                text: v[i].message@,
            },
    )
}

/// The message a parsed line contributes.
pub open spec fn txt_message_of(line: Seq<char>, p: ParsedLine) -> TxtMessage {
    TxtMessage {
        ts_ms: p.ts_ms,
        username: line.subrange(p.user_start, p.user_end),
        text: line.subrange(p.msg_start, line.len() as int),
    }
}

/// One line of the content, with a trailing carriage return stripped.
pub open spec fn txt_line_at(s: Seq<char>, pos: int, nl: int) -> Seq<char> {
    let raw = s.subrange(pos, nl);
    if raw.len() > 0 && raw.last() == '\r' {
        raw.drop_last()
    } else {
        raw
    }
}

/// The walk over the content: each newline-separated line that matches
/// the grammar contributes one message, in order.
pub open spec fn txt_fold(s: Seq<char>, pos: int, acc: Seq<TxtMessage>) -> Seq<TxtMessage>
    decreases s.len() - pos + 1,
    via txt_fold_decreases
{
    if pos < 0 || pos > s.len() {
        acc
    } else {
        let nl = crate::text::first_at_or_after(s, pos, '\n');
        let line = txt_line_at(s, pos, nl);
        let acc2 = match parse_chat_line(line) {
            Some(p) => acc.push(txt_message_of(line, p)),
            None => acc,
        };
        if nl >= s.len() {
            acc2
        } else {
            txt_fold(s, nl + 1, acc2)
        }
    }
}

#[via_fn]
proof fn txt_fold_decreases(s: Seq<char>, pos: int, acc: Seq<TxtMessage>) {
    if 0 <= pos <= s.len() {
        crate::text::lemma_first_at_or_after(s, pos, '\n');
    }
}

/// Parses a plain-text transcript of `[HH:MM:SS] username: message`
/// lines; lines that do not match the grammar are skipped.
pub fn parse_generic_txt(content: &str) -> (r: Result<Vec<ChatMessage>, String>)
    requires
        content@.len() < 0xFFFF_FFFF,
    ensures
        r is Ok,
        r matches Ok(v) ==> {
            &&& txt_views(v@) == txt_fold(content@, 0, Seq::empty())
            &&& forall|k: int| 0 <= k < v@.len() ==> !(#[trigger] v@[k]).has_emote
        },
{
    let n = content.unicode_len();
    let mut out: Vec<ChatMessage> = Vec::new();
    let mut pos: usize = 0;
    proof {
        assert(txt_views(out@) =~= Seq::<TxtMessage>::empty());
    }
    while pos <= n
        invariant
            pos <= n + 1,
            n == content@.len(),
            n < 0xFFFF_FFFF,
            forall|k: int| 0 <= k < out@.len() ==> !(#[trigger] out@[k]).has_emote,
            txt_fold(content@, 0, Seq::empty()) == txt_fold(content@, pos as int, txt_views(out@)),
        decreases n + 1 - pos,
    {
        let ghost old_views = txt_views(out@);
        let nl = crate::text::find_from(content, pos, '\n');
        proof {
            crate::text::lemma_first_at_or_after(content@, pos as int, '\n');
        }
        let line_end: usize = if nl > pos && content.get_char(nl - 1) == '\r' {
            nl - 1
        } else {
            nl
        };
        let line = content.substring_char(pos, line_end);
        proof {
            assert(line@ =~= txt_line_at(content@, pos as int, nl as int)) by {
                let raw = content@.subrange(pos as int, nl as int);
                if nl > pos && content@[nl as int - 1] == '\r' {
                    assert(raw.last() == content@[nl as int - 1]);
                    assert(line@ =~= raw.drop_last());
                } else {
                    if raw.len() > 0 {
                        assert(raw.last() == content@[nl as int - 1]);
                    }
                }
            }
        }
        match parse_txt_line(line) {
            Some(m) => {
                proof {
                    let p = parse_chat_line(line@)->0;
                    assert(txt_views(out@.push(m)) =~= old_views.push(txt_message_of(line@, p)));
                }
                out.push(m);
            },
            None => {},
        }
        proof {
            assert(txt_fold(content@, pos as int, old_views) == txt_fold(
                content@,
                nl as int + 1,
                txt_views(out@),
            ) || (nl >= n && txt_fold(content@, pos as int, old_views) == txt_views(out@)));
        }
        if nl >= n {
            proof {
                assert(txt_fold(content@, n as int + 1, txt_views(out@)) == txt_views(out@));
            }
            pos = n + 1;
        } else {
            pos = nl + 1;
        }
    }
    Ok(out)
}

} // verus!
