//! Timestamp rendering and parsing.  Times are in milliseconds; rendered
//! forms show whole seconds, and parsed forms accept fractional seconds
//! with millisecond precision.

use crate::text::{
    all_digits, dec_str, dec_str_pad2, dec_value, decimal_ms, decimal_ok, find_from,
    first_at_or_after, lemma_dec_acc_bounds, lemma_decimal_ms_bounds, lemma_first_at_or_after,
    parse_seconds_ms, parse_uint, u64_to_string, u64_to_string_pad2,
};
use vstd::prelude::*;

verus! {

/// The compact clip-name form: `01m05s`, or `01h01m05s` above an hour.
pub open spec fn timestamp_compact(ms: int) -> Seq<char> {
    let t = ms / 1000;
    let h = t / 3600;
    let m = (t % 3600) / 60;
    let s = t % 60;
    if h > 0 {
        dec_str_pad2(h) + "h"@ + dec_str_pad2(m) + "m"@ + dec_str_pad2(s) + "s"@
    } else {
        dec_str_pad2(m) + "m"@ + dec_str_pad2(s) + "s"@
    }
}

/// Renders a time as `MMmSSs`, with hours in front above an hour.
pub fn format_timestamp(ms: u64) -> (r: String)
    ensures
        r@ == timestamp_compact(ms as int),
{
    let t = ms / 1000;
    let h = t / 3600;
    let m = (t % 3600) / 60;
    let s = t % 60;
    let mut out = String::new();
    if h > 0 {
        out.append(u64_to_string_pad2(h).as_str());
        out.append("h");
    }
    out.append(u64_to_string_pad2(m).as_str());
    out.append("m");
    out.append(u64_to_string_pad2(s).as_str());
    out.append("s");
    proof {
        reveal_strlit("h");
        reveal_strlit("m");
        reveal_strlit("s");
        assert(out@ =~= timestamp_compact(ms as int));
    }
    out
}

/// The display form: `M:SS`, or `H:MM:SS` above an hour.
pub open spec fn duration_display(ms: int) -> Seq<char> {
    let t = ms / 1000;
    let h = t / 3600;
    let m = (t % 3600) / 60;
    let s = t % 60;
    if h > 0 {
        dec_str(h) + ":"@ + dec_str_pad2(m) + ":"@ + dec_str_pad2(s)
    } else {
        dec_str(m) + ":"@ + dec_str_pad2(s)
    }
}

/// Renders a time as `M:SS`, with hours in front above an hour.
pub fn format_duration(ms: u64) -> (r: String)
    ensures
        r@ == duration_display(ms as int),
{
    let t = ms / 1000;
    let h = t / 3600;
    let m = (t % 3600) / 60;
    let s = t % 60;
    let mut out = String::new();
    if h > 0 {
        out.append(u64_to_string(h).as_str());
        out.append(":");
        out.append(u64_to_string_pad2(m).as_str());
    } else {
        out.append(u64_to_string(m).as_str());
    }
    out.append(":");
    out.append(u64_to_string_pad2(s).as_str());
    proof {
        reveal_strlit(":");
        assert(out@ =~= duration_display(ms as int));
    }
    out
}

/// What `parse_timestamp` accepts and yields: `MM:SS` or `HH:MM:SS`, whole
/// hours and minutes, seconds with an optional fraction.
pub open spec fn timestamp_value(s: Seq<char>) -> Option<int> {
    let p1 = first_at_or_after(s, 0, ':');
    if p1 >= s.len() {
        None
    } else {
        let p2 = first_at_or_after(s, p1 + 1, ':');
        if p2 >= s.len() {
            let m = s.subrange(0, p1);
            let sec = s.subrange(p1 + 1, s.len() as int);
            if m.len() > 0 && all_digits(m) && decimal_ok(sec) {
                Some(dec_value(m) * 60000 + decimal_ms(sec))
            } else {
                None
            }
        } else {
            let p3 = first_at_or_after(s, p2 + 1, ':');
            if p3 < s.len() {
                None
            } else {
                let h = s.subrange(0, p1);
                let m = s.subrange(p1 + 1, p2);
                let sec = s.subrange(p2 + 1, s.len() as int);
                if h.len() > 0 && all_digits(h) && m.len() > 0 && all_digits(m) && decimal_ok(sec) {
                    Some(dec_value(h) * 3600000 + dec_value(m) * 60000 + decimal_ms(sec))
                } else {
                    None
                }
            }
        }
    }
}

/// Parses `MM:SS` or `HH:MM:SS` (seconds may carry a fraction) into
/// milliseconds.
pub fn parse_timestamp(timestamp: &str) -> (r: Option<u64>)
    ensures
        r is Some <==> timestamp_value(timestamp@) is Some,
        r is Some ==> r == Some(timestamp_value(timestamp@)->0 as u64),
{
    let n = timestamp.unicode_len();
    let p1 = find_from(timestamp, 0, ':');
    proof {
        lemma_first_at_or_after(timestamp@, 0, ':');
    }
    if p1 >= n {
        return None;
    }
    let p2 = find_from(timestamp, p1 + 1, ':');
    proof {
        lemma_first_at_or_after(timestamp@, p1 as int + 1, ':');
    }
    if p2 >= n {
        let m = timestamp.substring_char(0, p1);
        let sec = timestamp.substring_char(p1 + 1, n);
        let mv = match parse_uint(m) {
            Some(v) => v,
            None => { return None; },
        };
        let sv = match parse_seconds_ms(sec) {
            Some(v) => v,
            None => { return None; },
        };
        proof {
            lemma_dec_acc_bounds(m@, m@.len() as int);
            lemma_decimal_ms_bounds(sec@);
        }
        Some(mv * 60000 + sv)
    } else {
        let p3 = find_from(timestamp, p2 + 1, ':');
        proof {
            lemma_first_at_or_after(timestamp@, p2 as int + 1, ':');
        }
        if p3 < n {
            return None;
        }
        let h = timestamp.substring_char(0, p1);
        let m = timestamp.substring_char(p1 + 1, p2);
        let sec = timestamp.substring_char(p2 + 1, n);
        let hv = match parse_uint(h) {
            Some(v) => v,
            None => { return None; },
        };
        let mv = match parse_uint(m) {
            Some(v) => v,
            None => { return None; },
        };
        let sv = match parse_seconds_ms(sec) {
            Some(v) => v,
            None => { return None; },
        };
        proof {
            lemma_dec_acc_bounds(h@, h@.len() as int);
            lemma_dec_acc_bounds(m@, m@.len() as int);
            lemma_decimal_ms_bounds(sec@);
        }
        Some(hv * 3600000 + mv * 60000 + sv)
    }
}

} // verus!
