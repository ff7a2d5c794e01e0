//! Video-side types and the pure helpers of the export path: supported
//! container check, duration parsing from `HH:MM:SS.ff` text, and the
//! resolution table.

use crate::text::{
    all_digits, dec_value, decimal_ms, decimal_ok, find_from, first_at_or_after,
    lemma_dec_acc_bounds, lemma_decimal_ms_bounds, lemma_first_at_or_after, parse_seconds_ms,
    parse_uint,
};
use vstd::prelude::*;

verus! {

/// Probed facts about a video file.  Durations are in milliseconds and the
/// frame rate in milli-frames per second.
#[derive(Debug, Clone)]
pub struct VideoInfo {
    pub path: String,
    pub filename: String,
    pub duration_ms: u64,
    pub width: u32,
    pub height: u32,
    pub fps_milli: u32,
    pub codec: String,
    pub file_size_bytes: u64,
}

/// One clip to cut, with padding already applied.
#[derive(Debug, Clone, Copy, PartialEq, Eq, Structural)]
pub struct ClipExport {
    pub highlight_id: u32,
    pub start_ms: u64,
    pub end_ms: u64,
}

/// Outcome of exporting a single clip.
#[derive(Debug, Clone)]
pub struct ExportResult {
    pub highlight_id: u32,
    pub output_path: String,
    pub success: bool,
    pub error: Option<String>,
}

/// Output container.
#[derive(Debug, Clone, Copy, PartialEq, Eq, Structural)]
pub enum OutputFormat {
    Mp4,
    WebM,
}

/// Output resolution choice.
#[derive(Debug, Clone, Copy, PartialEq, Eq, Structural)]
pub enum OutputResolution {
    R720p,
    R1080p,
    R1440p,
    R4K,
    Source,
}

impl OutputResolution {
    /// Target frame height of the choice; `None` keeps the source height.
    pub fn to_height(&self) -> (r: Option<u32>)
        ensures
            r == match *self {
                OutputResolution::R720p => Some(720u32),
                OutputResolution::R1080p => Some(1080u32),
                OutputResolution::R1440p => Some(1440u32),
                OutputResolution::R4K => Some(2160u32),
                OutputResolution::Source => None::<u32>,
            },
    {
        match self {
            OutputResolution::R720p => Some(720),
            OutputResolution::R1080p => Some(1080),
            OutputResolution::R1440p => Some(1440),
            OutputResolution::R4K => Some(2160),
            OutputResolution::Source => None,
        }
    }
}

/// Per-export settings.  Paddings are in milliseconds.
#[derive(Debug, Clone)]
pub struct ExportSettings {
    pub output_folder: String,
    pub format: OutputFormat,
    pub resolution: OutputResolution,
    pub padding_before_ms: u64,
    pub padding_after_ms: u64,
    pub vertical_crop: bool,
    pub fade_effect: bool,
    pub add_watermark: bool,
}

impl Default for ExportSettings {
    /// 1080p MP4 with three seconds of lead-in and two of lead-out.
    fn default() -> (r: Self)
        ensures
            r.output_folder@ == Seq::<char>::empty(),
            r.format == OutputFormat::Mp4,
            r.resolution == OutputResolution::R1080p,
            r.padding_before_ms == 3000,
            r.padding_after_ms == 2000,
            !r.vertical_crop,
            !r.fade_effect,
            !r.add_watermark,
    {
        ExportSettings {
            output_folder: String::new(),
            format: OutputFormat::Mp4,
            resolution: OutputResolution::R1080p,
            padding_before_ms: 3000,
            padding_after_ms: 2000,
            vertical_crop: false,
            fade_effect: false,
            add_watermark: false,
        }
    }
}

/// Failures of the external transcoder.
#[derive(Debug, Clone)]
pub enum FFmpegError {
    BinaryNotFound,
    ExecutionFailed(String),
    InvalidOutput(String),
}

impl FFmpegError {
    /// Human-readable description of the failure.
    pub fn describe(&self) -> (r: String)
        ensures
            r@ == match *self {
                FFmpegError::BinaryNotFound => "FFmpeg binary not found"@,
                FFmpegError::ExecutionFailed(s) => "FFmpeg execution failed: "@ + s@,
                FFmpegError::InvalidOutput(s) => "Invalid output: "@ + s@,
            },
    {
        match self {
            FFmpegError::BinaryNotFound => String::from_str("FFmpeg binary not found"),
            FFmpegError::ExecutionFailed(s) => {
                let mut out = String::from_str("FFmpeg execution failed: ");
                out.append(s.as_str());
                out
            },
            FFmpegError::InvalidOutput(s) => {
                let mut out = String::from_str("Invalid output: ");
                out.append(s.as_str());
                out
            },
        }
    }
}

/// Path separator, on either convention.
pub open spec fn is_sep_char(c: char) -> bool {
    c == '/' || c == '\\'
}

/// Index of the last path separator, or -1 when there is none.
pub open spec fn last_sep_idx(s: Seq<char>) -> int
    decreases s.len(),
{
    if s.len() == 0 {
        -1
    } else if is_sep_char(s[s.len() - 1]) {
        s.len() - 1
    } else {
        last_sep_idx(s.drop_last())
    }
}

/// Index of the last dot, or -1 when there is none.
pub open spec fn last_dot_idx(s: Seq<char>) -> int
    decreases s.len(),
{
    if s.len() == 0 {
        -1
    } else if s[s.len() - 1] == '.' {
        s.len() - 1
    } else {
        last_dot_idx(s.drop_last())
    }
}

pub proof fn lemma_last_sep_idx(s: Seq<char>)
    ensures
        -1 <= last_sep_idx(s) < s.len(),
        last_sep_idx(s) >= 0 ==> is_sep_char(s[last_sep_idx(s)]),
        forall|j: int| last_sep_idx(s) < j < s.len() ==> !is_sep_char(#[trigger] s[j]),
    decreases s.len(),
{
    if s.len() > 0 && !is_sep_char(s[s.len() - 1]) {
        let t = s.drop_last();
        lemma_last_sep_idx(t);
        if last_sep_idx(s) >= 0 {
            assert(t[last_sep_idx(t)] == s[last_sep_idx(s)]);
        }
        assert forall|j: int| last_sep_idx(s) < j < s.len() implies !is_sep_char(
            #[trigger] s[j],
        ) by {
            if j < s.len() - 1 {
                assert(t[j] == s[j]);
                assert(!is_sep_char(t[j]));
            }
        }
    }
}

pub proof fn lemma_last_dot_idx(s: Seq<char>)
    ensures
        -1 <= last_dot_idx(s) < s.len(),
        last_dot_idx(s) >= 0 ==> s[last_dot_idx(s)] == '.',
        forall|j: int| last_dot_idx(s) < j < s.len() ==> #[trigger] s[j] != '.',
    decreases s.len(),
{
    if s.len() > 0 && s[s.len() - 1] != '.' {
        let t = s.drop_last();
        lemma_last_dot_idx(t);
        if last_dot_idx(s) >= 0 {
            assert(t[last_dot_idx(t)] == s[last_dot_idx(s)]);
        }
        assert forall|j: int| last_dot_idx(s) < j < s.len() implies #[trigger] s[j] != '.' by {
            if j < s.len() - 1 {
                assert(t[j] == s[j]);
                assert(t[j] != '.');
            }
        }
    }
}

/// Whether the final path component carries an extension: a dot after the
/// last separator that is not the component's first character.
pub open spec fn has_extension(s: Seq<char>) -> bool {
    last_dot_idx(s) >= last_sep_idx(s) + 2
}

/// The extension characters, after the last dot.
pub open spec fn extension_of(s: Seq<char>) -> Seq<char> {
    s.subrange(last_dot_idx(s) + 1, s.len() as int)
}

/// ASCII code of the character with uppercase letters folded to lowercase.
pub open spec fn lower_code(c: char) -> int {
    if 65 <= c as int <= 90 {
        c as int + 32
    } else {
        c as int
    }
}

/// Case-insensitive match of a sequence against a lowercase literal.
pub open spec fn matches_ci(s: Seq<char>, lit: Seq<char>) -> bool {
    s.len() == lit.len() && forall|i: int|
        0 <= i < s.len() ==> lower_code(#[trigger] s[i]) == lit[i] as int
}

/// The supported container extensions.
pub open spec fn supported_ext(s: Seq<char>) -> bool {
    ||| matches_ci(s, "mp4"@)
    ||| matches_ci(s, "mkv"@)
    ||| matches_ci(s, "mov"@)
    ||| matches_ci(s, "webm"@)
    ||| matches_ci(s, "avi"@)
}

/// Case-insensitive comparison of `s[start..]` against a lowercase literal.
fn ext_ci_eq(s: &str, start: usize, lit: &str) -> (r: bool)
    requires
        start <= s@.len(),
    ensures
        r == matches_ci(s@.subrange(start as int, s@.len() as int), lit@),
{
    let n = s.unicode_len();
    let m = lit.unicode_len();
    if n - start != m {
        return false;
    }
    let mut i: usize = 0;
    while i < m
        invariant
            i <= m == lit@.len(),
            start + m == n,
            n == s@.len(),
            forall|j: int|
                0 <= j < i ==> lower_code(#[trigger] s@[start + j]) == lit@[j] as int,
        decreases m - i,
    {
        let c = s.get_char(start + i);
        let v = c as u32;
        let low: u32 = if 65 <= v && v <= 90 {
            v + 32
        } else {
            v
        };
        let lc = lit.get_char(i) as u32;
        if low != lc {
            proof {
                assert(lower_code(s@.subrange(start as int, s@.len() as int)[i as int])
                    != lit@[i as int] as int);
            }
            return false;
        }
        i += 1;
    }
    proof {
        assert forall|j: int| 0 <= j < m implies lower_code(
            #[trigger] s@.subrange(start as int, s@.len() as int)[j],
        ) == lit@[j] as int by {
            assert(s@.subrange(start as int, s@.len() as int)[j] == s@[start + j]);
        }
    }
    true
}

/// Whether the path names a supported video container, judged by its
/// extension, case-insensitively.
pub fn is_supported_format(path: &str) -> (r: bool)
    ensures
        r == (has_extension(path@) && supported_ext(extension_of(path@))),
{
    let n = path.unicode_len();
    let mut dot_found = false;
    let mut dot_pos: usize = 0;
    let mut sep_found = false;
    let mut sep_pos: usize = 0;
    let mut i: usize = 0;
    while i < n
        invariant
            i <= n == path@.len(),
            dot_found ==> dot_pos < i && path@[dot_pos as int] == '.',
            dot_found ==> forall|j: int| dot_pos < j < i ==> #[trigger] path@[j] != '.',
            !dot_found ==> forall|j: int| 0 <= j < i ==> #[trigger] path@[j] != '.',
            sep_found ==> sep_pos < i && is_sep_char(path@[sep_pos as int]),
            sep_found ==> forall|j: int| sep_pos < j < i ==> !is_sep_char(#[trigger] path@[j]),
            !sep_found ==> forall|j: int| 0 <= j < i ==> !is_sep_char(#[trigger] path@[j]),
        decreases n - i,
    {
        let c = path.get_char(i);
        if c == '.' {
            dot_found = true;
            dot_pos = i;
        }
        if c == '/' || c == '\\' {
            sep_found = true;
            sep_pos = i;
        }
        i += 1;
    }
    proof {
        lemma_last_dot_idx(path@);
        lemma_last_sep_idx(path@);
        if dot_found {
            assert(last_dot_idx(path@) == dot_pos) by {
                if last_dot_idx(path@) > dot_pos {
                    assert(path@[last_dot_idx(path@)] == '.');
                }
                if last_dot_idx(path@) < dot_pos {
                    assert(path@[dot_pos as int] == '.');
                }
            }
        } else {
            assert(last_dot_idx(path@) == -1) by {
                if last_dot_idx(path@) >= 0 {
                    assert(path@[last_dot_idx(path@)] == '.');
                }
            }
        }
        if sep_found {
            assert(last_sep_idx(path@) == sep_pos) by {
                if last_sep_idx(path@) > sep_pos {
                    assert(is_sep_char(path@[last_sep_idx(path@)]));
                }
                if last_sep_idx(path@) < sep_pos {
                    assert(is_sep_char(path@[sep_pos as int]));
                }
            }
        } else {
            assert(last_sep_idx(path@) == -1) by {
                if last_sep_idx(path@) >= 0 {
                    assert(is_sep_char(path@[last_sep_idx(path@)]));
                }
            }
        }
    }
    if !dot_found {
        return false;
    }
    let ext_ok = if sep_found {
        dot_pos > sep_pos && dot_pos - sep_pos >= 2
    } else {
        dot_pos >= 1
    };
    if !ext_ok {
        return false;
    }
    let start = dot_pos + 1;
    proof {
        assert(extension_of(path@) =~= path@.subrange(start as int, path@.len() as int));
    }
    ext_ci_eq(path, start, "mp4") || ext_ci_eq(path, start, "mkv") || ext_ci_eq(
        path,
        start,
        "mov",
    ) || ext_ci_eq(path, start, "webm") || ext_ci_eq(path, start, "avi")
}

/// Millisecond value of an `HH:MM:SS.ff` duration: exactly three
/// colon-separated fields, each malformed field counting as zero.
pub open spec fn duration_ms_of(s: Seq<char>) -> int {
    let p1 = first_at_or_after(s, 0, ':');
    let p2 = first_at_or_after(s, p1 + 1, ':');
    let p3 = first_at_or_after(s, p2 + 1, ':');
    if !(p1 < s.len() && p2 < s.len() && p3 == s.len()) {
        0
    } else {
        let h = s.subrange(0, p1);
        let m = s.subrange(p1 + 1, p2);
        let sec = s.subrange(p2 + 1, s.len() as int);
        (if h.len() > 0 && all_digits(h) { dec_value(h) } else { 0 }) * 3600000
        + (if m.len() > 0 && all_digits(m) { dec_value(m) } else { 0 }) * 60000
        + (if decimal_ok(sec) { decimal_ms(sec) } else { 0 })
    }
}

/// Parses an `HH:MM:SS.ff` duration into milliseconds; malformed fields
/// count as zero, and anything but three fields gives zero.
pub fn parse_duration(time_str: &str) -> (r: u64)
    ensures
        r == duration_ms_of(time_str@),
{
    let n = time_str.unicode_len();
    let p1 = find_from(time_str, 0, ':');
    proof {
        lemma_first_at_or_after(time_str@, 0, ':');
    }
    if p1 >= n {
        return 0;
    }
    let p2 = find_from(time_str, p1 + 1, ':');
    proof {
        lemma_first_at_or_after(time_str@, p1 as int + 1, ':');
    }
    if p2 >= n {
        return 0;
    }
    let p3 = find_from(time_str, p2 + 1, ':');
    proof {
        lemma_first_at_or_after(time_str@, p2 as int + 1, ':');
    }
    if p3 < n {
        return 0;
    }
    let h = time_str.substring_char(0, p1);
    let m = time_str.substring_char(p1 + 1, p2);
    let sec = time_str.substring_char(p2 + 1, n);
    let hv = match parse_uint(h) {
        Some(v) => v,
        None => 0,
    };
    let mv = match parse_uint(m) {
        Some(v) => v,
        None => 0,
    };
    let sv = match parse_seconds_ms(sec) {
        Some(v) => v,
        None => 0,
    };
    proof {
        if h@.len() > 0 && all_digits(h@) {
            lemma_dec_acc_bounds(h@, h@.len() as int);
        }
        if m@.len() > 0 && all_digits(m@) {
            lemma_dec_acc_bounds(m@, m@.len() as int);
        }
        if decimal_ok(sec@) {
            lemma_decimal_ms_bounds(sec@);
        }
    }
    hv * 3600000 + mv * 60000 + sv
}

} // verus!
