//! Small text utilities: exact string equality, character classes, decimal
//! parsing with millisecond fractions, and decimal formatting.

use vstd::prelude::*;

verus! {

/// Exact character-sequence equality of two strings.
pub fn str_eq(a: &str, b: &str) -> (r: bool)
    ensures
        r == (a@ == b@),
{
    let na = a.unicode_len();
    let nb = b.unicode_len();
    if na != nb {
        return false;
    }
    let mut i: usize = 0;
    while i < na
        invariant
            i <= na,
            na == a@.len() == b@.len(),
            forall|j: int| 0 <= j < i ==> a@[j] == b@[j],
        decreases na - i,
    {
        if a.get_char(i) != b.get_char(i) {
            return false;
        }
        i += 1;
    }
    proof {
        assert(a@ =~= b@);
    }
    true
}

/// ASCII decimal digit.
pub open spec fn is_digit(c: char) -> bool {
    48 <= c as int <= 57
}

/// Numeric value of an ASCII digit.
pub open spec fn digit_val(c: char) -> int {
    c as int - 48
}

/// Every character of the sequence is an ASCII digit.
pub open spec fn all_digits(s: Seq<char>) -> bool {
    forall|i: int| 0 <= i < s.len() ==> is_digit(#[trigger] s[i])
}

/// Value of the first `n` digits read left to right, saturating at
/// `0xFFFF_FFFF` so that absurdly long digit runs stay finite.
pub open spec fn dec_acc(s: Seq<char>, n: int) -> int
    decreases n,
{
    if n <= 0 {
        0
    } else {
        let v = dec_acc(s, n - 1) * 10 + digit_val(s[n - 1]);
        if v > 0xFFFF_FFFF {
            0xFFFF_FFFF
        } else {
            v
        }
    }
}

/// Value of a digit sequence, saturating at `0xFFFF_FFFF`.
pub open spec fn dec_value(s: Seq<char>) -> int {
    dec_acc(s, s.len() as int)
}

pub proof fn lemma_dec_acc_bounds(s: Seq<char>, n: int)
    requires
        forall|j: int| 0 <= j < n ==> is_digit(#[trigger] s[j]),
    ensures
        0 <= dec_acc(s, n) <= 0xFFFF_FFFF,
    decreases n,
{
    if n > 0 {
        lemma_dec_acc_bounds(s, n - 1);
    }
}

/// Parses a non-empty run of digits; anything else is `None`.
pub fn parse_uint(s: &str) -> (r: Option<u64>)
    ensures
        (s@.len() > 0 && all_digits(s@)) ==> r == Some(dec_value(s@) as u64),
        !(s@.len() > 0 && all_digits(s@)) ==> r is None,
{
    let n = s.unicode_len();
    if n == 0 {
        return None;
    }
    let mut acc: u64 = 0;
    let mut i: usize = 0;
    while i < n
        invariant
            i <= n == s@.len(),
            forall|j: int| 0 <= j < i ==> is_digit(#[trigger] s@[j]),
            acc == dec_acc(s@, i as int),
            acc <= 0xFFFF_FFFF,
        decreases n - i,
    {
        let c = s.get_char(i);
        let v = c as u32;
        if !(48 <= v && v <= 57) {
            proof {
                assert(!is_digit(s@[i as int]));
            }
            return None;
        }
        let d = (v - 48) as u64;
        let next = acc * 10 + d;
        acc = if next > 0xFFFF_FFFF {
            0xFFFF_FFFF
        } else {
            next
        };
        i += 1;
    }
    Some(acc)
}

/// Milliseconds contributed by up to three fraction digits; further digits
/// are beyond millisecond precision and ignored.
pub open spec fn frac_ms(s: Seq<char>) -> int {
    (if s.len() > 0 { digit_val(s[0]) * 100 } else { 0 })
    + (if s.len() > 1 { digit_val(s[1]) * 10 } else { 0 })
    + (if s.len() > 2 { digit_val(s[2]) } else { 0 })
}

/// First index at or after `from` holding `c`, or the length if none does.
pub open spec fn first_at_or_after(s: Seq<char>, from: int, c: char) -> int
    decreases s.len() - from,
{
    if from < 0 || from >= s.len() {
        s.len() as int
    } else if s[from] == c {
        from
    } else {
        first_at_or_after(s, from + 1, c)
    }
}

pub proof fn lemma_first_at_or_after(s: Seq<char>, from: int, c: char)
    requires
        0 <= from <= s.len(),
    ensures
        from <= first_at_or_after(s, from, c) <= s.len(),
        first_at_or_after(s, from, c) < s.len() ==> s[first_at_or_after(s, from, c)] == c,
        forall|j: int| from <= j < first_at_or_after(s, from, c) ==> s[j] != c,
    decreases s.len() - from,
{
    if from < s.len() && s[from] != c {
        lemma_first_at_or_after(s, from + 1, c);
    }
}

/// Finds the first occurrence of `c` at or after `from`; the length when
/// there is none.
pub fn find_from(s: &str, from: usize, c: char) -> (r: usize)
    requires
        from <= s@.len(),
    ensures
        r == first_at_or_after(s@, from as int, c),
{
    let n = s.unicode_len();
    let mut i: usize = from;
    while i < n
        invariant
            from <= i <= n == s@.len(),
            forall|j: int| from <= j < i ==> s@[j] != c,
        decreases n - i,
    {
        if s.get_char(i) == c {
            proof {
                lemma_first_at_or_after(s@, from as int, c);
                let p = first_at_or_after(s@, from as int, c);
                assert(p == i);
            }
            return i;
        }
        i += 1;
    }
    proof {
        lemma_first_at_or_after(s@, from as int, c);
        let p = first_at_or_after(s@, from as int, c);
        if p < s@.len() {
            assert(s@[p] != c);
        }
    }
    n
}

/// Whether a sequence is a decimal number with an optional fraction:
/// a non-empty digit run, optionally followed by a dot and more digits.
pub open spec fn decimal_ok(s: Seq<char>) -> bool {
    let d = first_at_or_after(s, 0, '.');
    &&& d > 0
    &&& all_digits(s.subrange(0, d))
    &&& (d < s.len() ==> all_digits(s.subrange(d + 1, s.len() as int)))
}

/// Millisecond value of a decimal number with an optional fraction; the
/// whole part saturates at `0xFFFF_FFFF` seconds.
pub open spec fn decimal_ms(s: Seq<char>) -> int {
    let d = first_at_or_after(s, 0, '.');
    if d < s.len() {
        dec_value(s.subrange(0, d)) * 1000 + frac_ms(s.subrange(d + 1, s.len() as int))
    } else {
        dec_value(s) * 1000
    }
}

pub proof fn lemma_decimal_ms_bounds(s: Seq<char>)
    requires
        decimal_ok(s),
    ensures
        0 <= decimal_ms(s) <= 0xFFFF_FFFFi64 * 1000 + 999,
{
    let d = first_at_or_after(s, 0, '.');
    lemma_first_at_or_after(s, 0, '.');
    lemma_dec_acc_bounds(s.subrange(0, d), d);
    if d < s.len() {
        let fr = s.subrange(d + 1, s.len() as int);
        if fr.len() > 0 {
            assert(is_digit(fr[0]));
        }
        if fr.len() > 1 {
            assert(is_digit(fr[1]));
        }
        if fr.len() > 2 {
            assert(is_digit(fr[2]));
        }
    } else {
        assert(s.subrange(0, d) =~= s);
    }
}

/// Parses seconds with an optional fraction into milliseconds.
pub fn parse_seconds_ms(s: &str) -> (r: Option<u64>)
    ensures
        decimal_ok(s@) ==> r == Some(decimal_ms(s@) as u64),
        !decimal_ok(s@) ==> r is None,
{
    let n = s.unicode_len();
    let d = find_from(s, 0, '.');
    proof {
        lemma_first_at_or_after(s@, 0, '.');
    }
    if d == 0 {
        return None;
    }
    let whole = s.substring_char(0, d);
    let wv = match parse_uint(whole) {
        Some(v) => v,
        None => { return None; },
    };
    proof {
        assert(all_digits(s@.subrange(0, d as int)));
        lemma_dec_acc_bounds(s@.subrange(0, d as int), d as int);
        assert(wv <= 0xFFFF_FFFF);
    }
    if d < n {
        let frac = s.substring_char(d + 1, n);
        let fn_len = n - d - 1;
        let mut fv: u64 = 0;
        let mut i: usize = 0;
        let ghost fr = s@.subrange(d + 1, s@.len() as int);
        while i < fn_len
            invariant
                i <= fn_len == fr.len(),
                fr == s@.subrange(d as int + 1, s@.len() as int),
                frac@ == fr,
                d as int == first_at_or_after(s@, 0, '.'),
                (d as int) < s@.len(),
                forall|j: int| 0 <= j < i ==> is_digit(#[trigger] fr[j]),
                fv == (if i > 0 { digit_val(fr[0]) * 100 } else { 0 })
                    + (if i > 1 { digit_val(fr[1]) * 10 } else { 0 })
                    + (if i > 2 { digit_val(fr[2]) } else { 0 }),
            decreases fn_len - i,
        {
            let c = frac.get_char(i);
            let v = c as u32;
            if !(48 <= v && v <= 57) {
                proof {
                    assert(!is_digit(fr[i as int]));
                }
                return None;
            }
            if i == 0 {
                fv = ((v - 48) as u64) * 100;
            } else if i == 1 {
                fv = fv + ((v - 48) as u64) * 10;
            } else if i == 2 {
                fv = fv + (v - 48) as u64;
            }
            i += 1;
        }
        proof {
            assert(decimal_ok(s@));
            assert(fv == frac_ms(fr));
        }
        Some(wv * 1000 + fv)
    } else {
        proof {
            assert(s@.subrange(0, d as int) =~= s@);
            assert(decimal_ok(s@));
            assert(decimal_ms(s@) == dec_value(s@) * 1000);
        }
        Some(wv * 1000)
    }
}

/// Decimal digit character.
pub open spec fn digit_char(d: int) -> char {
    if d == 0 { '0' }
    else if d == 1 { '1' }
    else if d == 2 { '2' }
    else if d == 3 { '3' }
    else if d == 4 { '4' }
    else if d == 5 { '5' }
    else if d == 6 { '6' }
    else if d == 7 { '7' }
    else if d == 8 { '8' }
    else { '9' }
}

/// Decimal rendering of a non-negative value, most significant digit first.
pub open spec fn dec_str(n: int) -> Seq<char>
    decreases n,
{
    if n < 10 {
        seq![digit_char(n)]
    } else {
        dec_str(n / 10) + seq![digit_char(n % 10)]
    }
}

/// Decimal rendering padded with a leading zero below 10.
pub open spec fn dec_str_pad2(n: int) -> Seq<char> {
    if n < 10 {
        seq!['0'] + dec_str(n)
    } else {
        dec_str(n)
    }
}

/// Single decimal digit as a string slice.
fn digit_str(d: u8) -> (r: &'static str)
    requires
        d < 10,
    ensures
        r@ == seq![digit_char(d as int)],
{
    if d == 0 { proof { reveal_strlit("0"); } assert("0"@ =~= seq![digit_char(0)]); "0" }
    else if d == 1 { proof { reveal_strlit("1"); } assert("1"@ =~= seq![digit_char(1)]); "1" }
    else if d == 2 { proof { reveal_strlit("2"); } assert("2"@ =~= seq![digit_char(2)]); "2" }
    else if d == 3 { proof { reveal_strlit("3"); } assert("3"@ =~= seq![digit_char(3)]); "3" }
    else if d == 4 { proof { reveal_strlit("4"); } assert("4"@ =~= seq![digit_char(4)]); "4" }
    else if d == 5 { proof { reveal_strlit("5"); } assert("5"@ =~= seq![digit_char(5)]); "5" }
    else if d == 6 { proof { reveal_strlit("6"); } assert("6"@ =~= seq![digit_char(6)]); "6" }
    else if d == 7 { proof { reveal_strlit("7"); } assert("7"@ =~= seq![digit_char(7)]); "7" }
    else if d == 8 { proof { reveal_strlit("8"); } assert("8"@ =~= seq![digit_char(8)]); "8" }
    else { proof { reveal_strlit("9"); } assert("9"@ =~= seq![digit_char(9)]); "9" }
}

/// Renders a value in decimal.
pub fn u64_to_string(n: u64) -> (r: String)
    ensures
        r@ == dec_str(n as int),
    decreases n,
{
    if n < 10 {
        String::from_str(digit_str(n as u8))
    } else {
        let head = u64_to_string(n / 10);
        head.concat(digit_str((n % 10) as u8))
    }
}

/// Renders a value in decimal, padded to at least two digits.
pub fn u64_to_string_pad2(n: u64) -> (r: String)
    ensures
        r@ == dec_str_pad2(n as int),
{
    if n < 10 {
        let mut out = String::from_str("0");
        proof {
            reveal_strlit("0");
            assert("0"@ =~= seq!['0']);
        }
        out.append(digit_str(n as u8));
        proof {
            assert(out@ =~= dec_str_pad2(n as int));
        }
        out
    } else {
        u64_to_string(n)
    }
}

} // verus!
