//! License handling: key format and checksum validation, the XOR stream
//! cipher that protects the stored license record, machine-bound validity
//! checks, and key generation.
//!
//! Reading and writing the license file, and querying the machine identity,
//! are the caller's concern; every function here is a pure computation over
//! the values it is given.

use crate::text::str_eq;
use std::collections::hash_map::DefaultHasher;
use std::hash::{Hash, Hasher};
use vstd::prelude::*;
use vstd::utf8::encode_utf8;

verus! {

/// What `DefaultHasher` returns for a byte slice; a fixed function of the
/// bytes alone.
pub uninterp spec fn hash64_of(d: Seq<u8>) -> u64;

/// Relies on std's `DefaultHasher` (`new`, `Hash::hash` on the byte slice,
/// `finish`): the digest depends on the hashed bytes alone.
#[verifier::external_body]
fn sip_hash64(d: &[u8]) -> (r: u64)
    ensures
        r == hash64_of(d@),
{
    let mut h = DefaultHasher::new();
    d.hash(&mut h);
    h.finish()
}

/// Relies on chrono's `Utc::now` and `to_rfc3339`; the clock value is
/// outside this library, so nothing is promised of the text.
#[verifier::external_body]
fn now_rfc3339() -> (r: String) {
    chrono::Utc::now().to_rfc3339()
}

/// Relies on rand's `Rng::random_range` over `0..n`: the result is some
/// index below `n`, and nothing more is promised of a random draw.
#[verifier::external_body]
fn rand_below(n: usize) -> (r: usize)
    requires
        n >= 1,
    ensures
        r < n,
{
    rand::Rng::random_range(&mut rand::rng(), 0..n)
}

/// Stored license record.
#[derive(Debug, Clone)]
pub struct LicenseInfo {
    pub is_pro: bool,
    pub license_key: Option<String>,
    pub activated_at: Option<String>,
    pub machine_id: String,
}

impl Default for LicenseInfo {
    /// The free-tier record: not pro, no key, no activation time, and no
    /// machine binding yet.
    fn default() -> (r: Self)
        ensures
            !r.is_pro,
            r.license_key is None,
            r.activated_at is None,
            r.machine_id@ == Seq::<char>::empty(),
    {
        LicenseInfo {
            is_pro: false,
            license_key: None,
            activated_at: None,
            machine_id: String::new(),
        }
    }
}

/// Characters allowed in a license key: uppercase ASCII letters and digits.
pub open spec fn is_key_char(c: char) -> bool {
    (65 <= c as int <= 90) || (48 <= c as int <= 57)
}

/// What each position of a well-formed 23-character key holds: dashes at
/// positions 5, 11 and 17, key characters everywhere else.
pub open spec fn key_position_ok(s: Seq<char>, j: int) -> bool {
    if j == 5 || j == 11 || j == 17 {
        s[j] == '-'
    } else {
        is_key_char(s[j])
    }
}

/// Four dash-separated groups of five uppercase alphanumeric characters.
pub open spec fn key_format_ok(s: Seq<char>) -> bool {
    s.len() == 23 && forall|j: int| 0 <= j < 23 ==> key_position_ok(s, j)
}

/// The 20 payload characters of a well-formed key, dashes removed.
pub open spec fn stripped20(s: Seq<char>) -> Seq<char> {
    s.subrange(0, 5) + s.subrange(6, 11) + s.subrange(12, 17) + s.subrange(18, 23)
}

/// The product prefixes a key may carry.
pub open spec fn valid_prefix(s: Seq<char>) -> bool {
    s == "SCPR"@ || s == "STRM"@ || s == "CLIP"@ || s == "PRO1"@
}

/// Position-weighted character sum over the first `n` characters, kept
/// within 32 bits at every step.
pub open spec fn checksum_acc(s: Seq<char>, n: int) -> int
    decreases n,
{
    if n <= 0 {
        0
    } else {
        (checksum_acc(s, n - 1) + ((s[n - 1] as int) * (n * 7)) % 0x1_0000_0000) % 0x1_0000_0000
    }
}

/// The key checksum value: the weighted character sum reduced mod 0xFFFF.
pub open spec fn checksum_val(s: Seq<char>) -> int {
    checksum_acc(s, s.len() as int) % 0xFFFF
}

/// Uppercase hexadecimal digit for a value below 16.
pub open spec fn hex_digit(d: int) -> char {
    if d == 0 { '0' }
    else if d == 1 { '1' }
    else if d == 2 { '2' }
    else if d == 3 { '3' }
    else if d == 4 { '4' }
    else if d == 5 { '5' }
    else if d == 6 { '6' }
    else if d == 7 { '7' }
    else if d == 8 { '8' }
    else if d == 9 { '9' }
    else if d == 10 { 'A' }
    else if d == 11 { 'B' }
    else if d == 12 { 'C' }
    else if d == 13 { 'D' }
    else if d == 14 { 'E' }
    else { 'F' }
}

/// Four-digit uppercase hexadecimal rendering of a value below 0x10000.
pub open spec fn hex4(v: int) -> Seq<char> {
    seq![
        hex_digit(v / 4096 % 16),
        hex_digit(v / 256 % 16),
        hex_digit(v / 16 % 16),
        hex_digit(v % 16),
    ]
}

/// Everything `validate_license_key` checks of a key: the dash format, a
/// known prefix, the checksum over the first 16 payload characters matching
/// the last 4, and a non-zero digest of the middle section.
pub open spec fn key_valid(s: Seq<char>) -> bool {
    let p = stripped20(s);
    &&& key_format_ok(s)
    &&& valid_prefix(p.subrange(0, 4))
    &&& p.subrange(16, 20) == hex4(checksum_val(p.subrange(0, 16)))
    &&& hash64_of(encode_utf8(p.subrange(4, 16))) != 0
}

/// The message every failed key validation returns.
fn _err() -> (r: String)
    ensures
        r@ == "License validation failed"@,
{
    String::from_str("License validation failed")
}

/// Obfuscation helper kept from the key scheme: a fixed 32-bit mask.
pub fn _x(v: u32) -> (r: u32)
    ensures
        r == v ^ 0xDEAD_BEEFu32,
{
    v ^ 0xDEAD_BEEF
}

/// Obfuscation helper kept from the key scheme: a fixed 64-bit mask.
pub fn _y(v: u64) -> (r: u64)
    ensures
        r == v ^ 0xCAFE_BABE_1234_5678u64,
{
    v ^ 0xCAFE_BABE_1234_5678
}

/// Dash-format check on a candidate key.
pub fn _f(k: &str) -> (r: bool)
    ensures
        r == key_format_ok(k@),
{
    let n = k.unicode_len();
    if n != 23 {
        return false;
    }
    let mut i: usize = 0;
    while i < 23
        invariant
            i <= 23,
            k@.len() == 23,
            forall|j: int| 0 <= j < i ==> key_position_ok(k@, j),
        decreases 23 - i,
    {
        let c = k.get_char(i);
        if i == 5 || i == 11 || i == 17 {
            if c != '-' {
                proof {
                    assert(!key_position_ok(k@, i as int));
                }
                return false;
            }
        } else {
            let v = c as u32;
            if !((65 <= v && v <= 90) || (48 <= v && v <= 57)) {
                proof {
                    assert(!is_key_char(k@[i as int]));
                    assert(!key_position_ok(k@, i as int));
                }
                return false;
            }
        }
        i += 1;
    }
    true
}

/// Prefix check on the first four payload characters.
pub fn _px(p: &str) -> (r: bool)
    ensures
        r == valid_prefix(p@),
{
    str_eq(p, "SCPR") || str_eq(p, "STRM") || str_eq(p, "CLIP") || str_eq(p, "PRO1")
}

/// Single uppercase hexadecimal digit as a string slice.
fn hex_str(d: u8) -> (r: &'static str)
    requires
        d < 16,
    ensures
        r@ == seq![hex_digit(d as int)],
{
    if d == 0 { proof { reveal_strlit("0"); } assert("0"@ =~= seq![hex_digit(0)]); "0" }
    else if d == 1 { proof { reveal_strlit("1"); } assert("1"@ =~= seq![hex_digit(1)]); "1" }
    else if d == 2 { proof { reveal_strlit("2"); } assert("2"@ =~= seq![hex_digit(2)]); "2" }
    else if d == 3 { proof { reveal_strlit("3"); } assert("3"@ =~= seq![hex_digit(3)]); "3" }
    else if d == 4 { proof { reveal_strlit("4"); } assert("4"@ =~= seq![hex_digit(4)]); "4" }
    else if d == 5 { proof { reveal_strlit("5"); } assert("5"@ =~= seq![hex_digit(5)]); "5" }
    else if d == 6 { proof { reveal_strlit("6"); } assert("6"@ =~= seq![hex_digit(6)]); "6" }
    else if d == 7 { proof { reveal_strlit("7"); } assert("7"@ =~= seq![hex_digit(7)]); "7" }
    else if d == 8 { proof { reveal_strlit("8"); } assert("8"@ =~= seq![hex_digit(8)]); "8" }
    else if d == 9 { proof { reveal_strlit("9"); } assert("9"@ =~= seq![hex_digit(9)]); "9" }
    else if d == 10 { proof { reveal_strlit("A"); } assert("A"@ =~= seq![hex_digit(10)]); "A" }
    else if d == 11 { proof { reveal_strlit("B"); } assert("B"@ =~= seq![hex_digit(11)]); "B" }
    else if d == 12 { proof { reveal_strlit("C"); } assert("C"@ =~= seq![hex_digit(12)]); "C" }
    else if d == 13 { proof { reveal_strlit("D"); } assert("D"@ =~= seq![hex_digit(13)]); "D" }
    else if d == 14 { proof { reveal_strlit("E"); } assert("E"@ =~= seq![hex_digit(14)]); "E" }
    else { proof { reveal_strlit("F"); } assert("F"@ =~= seq![hex_digit(15)]); "F" }
}

/// Position-weighted checksum of a string, as four uppercase hex digits.
pub fn _cs(d: &str) -> (r: String)
    requires
        d@.len() <= 0x1000_0000,
    ensures
        r@ == hex4(checksum_val(d@)),
{
    let n = d.unicode_len();
    let mut acc: u64 = 0;
    let mut i: usize = 0;
    while i < n
        invariant
            i <= n == d@.len() <= 0x1000_0000,
            acc == checksum_acc(d@, i as int),
            acc < 0x1_0000_0000,
        decreases n - i,
    {
        let c = d.get_char(i);
        let v = c as u64;
        let w: u64 = ((i + 1) as u64) * 7;
        proof {
            assert(v <= 0x11_0000u64) by {
                assert(c as int <= 0x10FFFF);
            }
            assert(v * w <= 0x11_0000u64 * (0x1000_0001u64 * 7)) by (nonlinear_arith)
                requires v <= 0x11_0000u64, w <= 0x1000_0001u64 * 7
            ;
        }
        let vw = (v * w) % 0x1_0000_0000;
        acc = (acc + vw) % 0x1_0000_0000;
        i += 1;
    }
    let rv = acc % 0xFFFF;
    let c0 = hex_str(((rv / 4096) % 16) as u8);
    let c1 = hex_str(((rv / 256) % 16) as u8);
    let c2 = hex_str(((rv / 16) % 16) as u8);
    let c3 = hex_str((rv % 16) as u8);
    let mut out = String::new();
    out.append(c0);
    out.append(c1);
    out.append(c2);
    out.append(c3);
    proof {
        assert(acc == checksum_acc(d@, d@.len() as int));
        assert(out@ =~= hex4(checksum_val(d@)));
    }
    out
}

/// The key checksum under its historical name.
pub fn calc_checksum(d: &str) -> (r: String)
    requires
        d@.len() <= 0x1000_0000,
    ensures
        r@ == hex4(checksum_val(d@)),
{
    _cs(d)
}

/// Digest gate over the middle section of the key payload.
pub fn _h(m: &str) -> (r: bool)
    ensures
        r == (hash64_of(encode_utf8(m@)) != 0),
{
    sip_hash64(m.as_bytes()) != 0
}

/// Checks a license key: format, known prefix, checksum, digest gate.
/// Returns `Ok(true)` exactly on valid keys and the fixed error otherwise.
pub fn validate_license_key(k: &str) -> (r: Result<bool, String>)
    ensures
        key_valid(k@) ==> r == Ok::<bool, String>(true),
        !key_valid(k@) ==> r is Err,
        r is Err ==> (r->Err_0)@ == "License validation failed"@,
{
    if !_f(k) {
        return Err(_err());
    }
    let mut ck = String::new();
    ck.append(k.substring_char(0, 5));
    ck.append(k.substring_char(6, 11));
    ck.append(k.substring_char(12, 17));
    ck.append(k.substring_char(18, 23));
    proof {
        assert(ck@ =~= stripped20(k@));
    }
    if ck.as_str().unicode_len() != 20 {
        return Err(_err());
    }
    let px = ck.as_str().substring_char(0, 4);
    if !_px(px) {
        return Err(_err());
    }
    let dt = ck.as_str().substring_char(0, 16);
    let csp = ck.as_str().substring_char(16, 20);
    let cc = _cs(dt);
    if !str_eq(csp, cc.as_str()) {
        return Err(_err());
    }
    let md = ck.as_str().substring_char(4, 16);
    if !_h(md) {
        return Err(_err());
    }
    Ok(true)
}

/// 32-byte XOR key stream derived from the digest of a machine identity.
pub open spec fn key_word(h: u64, w: int) -> u64 {
    if w == 1 {
        (h << 16) | (h >> 48)
    } else if w == 2 {
        (h << 32) | (h >> 32)
    } else if w == 3 {
        (h << 48) | (h >> 16)
    } else {
        h
    }
}

/// The 32 bytes of the cipher key: four 16-bit rotations of the digest,
/// each laid out in little-endian order.
pub open spec fn key_material(h: u64) -> Seq<u8> {
    Seq::new(32, |j: int| ((key_word(h, j / 8) >> ((8 * (j % 8)) as u64)) & 0xFF) as u8)
}

/// Derives the 32-byte cipher key for a machine identity.
pub fn _k(machine_id: &str) -> (r: Vec<u8>)
    ensures
        r@ == key_material(hash64_of(encode_utf8(machine_id@))),
        r@.len() == 32,
{
    let h = sip_hash64(machine_id.as_bytes());
    let mut out: Vec<u8> = Vec::new();
    let mut w: usize = 0;
    while w < 4
        invariant
            w <= 4,
            out@.len() == 8 * w,
            forall|j: int| 0 <= j < out@.len() ==> out@[j] == key_material(h)[j],
        decreases 4 - w,
    {
        let word: u64 = if w == 1 {
            (h << 16u64) | (h >> 48u64)
        } else if w == 2 {
            (h << 32u64) | (h >> 32u64)
        } else if w == 3 {
            (h << 48u64) | (h >> 16u64)
        } else {
            h
        };
        let mut j: usize = 0;
        while j < 8
            invariant
                j <= 8,
                w < 4,
                word == key_word(h, w as int),
                out@.len() == 8 * w + j,
                forall|t: int| 0 <= t < out@.len() ==> out@[t] == key_material(h)[t],
            decreases 8 - j,
        {
            let b = ((word >> ((8 * j) as u64)) & 0xFF) as u8;
            proof {
                assert((8 * (w as int) + j as int) / 8 == w as int);
                assert((8 * (w as int) + j as int) % 8 == j as int);
            }
            out.push(b);
            j += 1;
        }
        w += 1;
    }
    proof {
        assert(out@ =~= key_material(h));
    }
    out
}

/// The little-endian header that marks an encrypted license record.
pub open spec fn magic_seq() -> Seq<u8> {
    seq![0x43u8, 0x52u8, 0x54u8, 0x53u8]
}

/// The position-dependent obfuscation byte mixed into the stream.
pub open spec fn mask7(i: int) -> u8 {
    (((i % 256) * 7) % 256) as u8
}

/// The XOR stream: each byte combined with the repeating key and the
/// position mask.  Applying it twice with the same key restores the input.
pub open spec fn xor_stream(d: Seq<u8>, key: Seq<u8>) -> Seq<u8> {
    if key.len() == 0 {
        d
    } else {
        Seq::new(d.len(), |i: int| ((d[i] ^ key[i % key.len() as int]) ^ mask7(i)))
    }
}

/// 32-bit truncation of a digest.
pub open spec fn trunc32(h: u64) -> u32 {
    (h & 0xFFFF_FFFF) as u32
}

/// Little-endian bytes of a 32-bit value.
pub open spec fn le32(v: u32) -> Seq<u8> {
    seq![
        (v & 0xFF) as u8,
        ((v >> 8) & 0xFF) as u8,
        ((v >> 16) & 0xFF) as u8,
        ((v >> 24) & 0xFF) as u8,
    ]
}

/// 32-bit value read from four little-endian bytes.
pub open spec fn le32_decode(s: Seq<u8>) -> u32 {
    ((s[0] as u32) | ((s[1] as u32) << 8) | ((s[2] as u32) << 16) | ((s[3] as u32) << 24)) as u32
}

/// An encrypted record: header, XOR stream of the payload, then the
/// truncated digest of everything before it.
pub open spec fn encrypt_spec(d: Seq<u8>, key: Seq<u8>) -> Seq<u8> {
    let body = magic_seq() + xor_stream(d, key);
    body + le32(trunc32(hash64_of(body)))
}

/// Decryption: `Some` payload exactly when the record is at least 12 bytes,
/// carries the header, and its trailing digest matches.
pub open spec fn decrypt_spec(d: Seq<u8>, key: Seq<u8>) -> Option<Seq<u8>> {
    if d.len() < 12 {
        None
    } else if d.subrange(0, 4) != magic_seq() {
        None
    } else if le32_decode(d.subrange(d.len() - 4, d.len() as int)) != trunc32(
        hash64_of(d.subrange(0, d.len() - 4)),
    ) {
        None
    } else {
        Some(xor_stream(d.subrange(4, d.len() - 4), key))
    }
}

/// Checksum over a byte record: the truncated digest.
pub fn _c(d: &[u8]) -> (r: u32)
    ensures
        r == trunc32(hash64_of(d@)),
{
    (sip_hash64(d) & 0xFFFF_FFFF) as u32
}

/// Encrypts a payload under a 32-byte key.
pub fn _e(d: &[u8], key: &Vec<u8>) -> (r: Vec<u8>)
    requires
        key@.len() == 32,
    ensures
        r@ == encrypt_spec(d@, key@),
{
    let n = d.len();
    let mut out: Vec<u8> = Vec::new();
    out.push(0x43);
    out.push(0x52);
    out.push(0x54);
    out.push(0x53);
    let mut i: usize = 0;
    while i < n
        invariant
            i <= n == d@.len(),
            key@.len() == 32,
            out@.len() == 4 + i,
            out@.subrange(0, 4) =~= magic_seq(),
            forall|j: int| 0 <= j < i ==> out@[4 + j] == xor_stream(d@, key@)[j],
        decreases n - i,
    {
        let kb = key[i % 32];
        let mb: u8 = (((i % 256) * 7) % 256) as u8;
        out.push((d[i] ^ kb) ^ mb);
        i += 1;
    }
    proof {
        assert(out@ =~= magic_seq() + xor_stream(d@, key@));
    }
    let c = _c(out.as_slice());
    out.push((c & 0xFF) as u8);
    out.push(((c >> 8) & 0xFF) as u8);
    out.push(((c >> 16) & 0xFF) as u8);
    out.push(((c >> 24) & 0xFF) as u8);
    proof {
        assert(out@ =~= encrypt_spec(d@, key@));
    }
    out
}

/// Decrypts a record under a 32-byte key; `None` on any malformed input.
pub fn _d(d: &[u8], key: &Vec<u8>) -> (r: Option<Vec<u8>>)
    requires
        key@.len() == 32,
    ensures
        r is Some <==> decrypt_spec(d@, key@) is Some,
        r is Some ==> (r->0)@ == decrypt_spec(d@, key@)->0,
{
    let n = d.len();
    if n < 12 {
        return None;
    }
    if !(d[0] == 0x43 && d[1] == 0x52 && d[2] == 0x54 && d[3] == 0x53) {
        proof {
            assert(d@.subrange(0, 4) != magic_seq()) by {
                if d@.subrange(0, 4) == magic_seq() {
                    assert(d@[0] == 0x43 && d@[1] == 0x52 && d@[2] == 0x54 && d@[3] == 0x53) by {
                        assert(d@.subrange(0, 4)[0] == d@[0]);
                        assert(d@.subrange(0, 4)[1] == d@[1]);
                        assert(d@.subrange(0, 4)[2] == d@[2]);
                        assert(d@.subrange(0, 4)[3] == d@[3]);
                    }
                }
            }
        }
        return None;
    }
    proof {
        assert(d@.subrange(0, 4) =~= magic_seq());
    }
    let cc = _c(&d[0..n - 4]);
    let b0 = d[n - 4];
    let b1 = d[n - 3];
    let b2 = d[n - 2];
    let b3 = d[n - 1];
    let sc: u32 = (b0 as u32) | ((b1 as u32) << 8) | ((b2 as u32) << 16) | ((b3 as u32) << 24);
    proof {
        let tail = d@.subrange(d@.len() - 4, d@.len() as int);
        assert(tail[0] == d@[d@.len() - 4]);
        assert(tail[1] == d@[d@.len() - 3]);
        assert(tail[2] == d@[d@.len() - 2]);
        assert(tail[3] == d@[d@.len() - 1]);
    }
    if sc != cc {
        return None;
    }
    let mut out: Vec<u8> = Vec::new();
    let m = n - 8;
    let mut i: usize = 0;
    while i < m
        invariant
            i <= m,
            m == n - 8,
            12 <= n == d@.len(),
            key@.len() == 32,
            out@.len() == i,
            forall|j: int|
                0 <= j < i ==> out@[j] == xor_stream(d@.subrange(4, d@.len() - 4), key@)[j],
        decreases m - i,
    {
        let kb = key[i % 32];
        let mb: u8 = (((i % 256) * 7) % 256) as u8;
        proof {
            assert(d@.subrange(4, d@.len() - 4)[i as int] == d@[4 + i]);
        }
        out.push((d[4 + i] ^ kb) ^ mb);
        i += 1;
    }
    proof {
        assert(out@ =~= xor_stream(d@.subrange(4, d@.len() - 4), key@));
    }
    Some(out)
}

/// Decrypting an encrypted record with the same key gives the payload back,
/// for payloads of at least four bytes (shorter records fall below the
/// minimum length check).
pub proof fn lemma_crypt_roundtrip(d: Seq<u8>, key: Seq<u8>)
    requires
        key.len() == 32,
        d.len() >= 4,
    ensures
        decrypt_spec(encrypt_spec(d, key), key) == Some(d),
{
    let body = magic_seq() + xor_stream(d, key);
    let e = encrypt_spec(d, key);
    assert(e.len() == d.len() + 8);
    assert(e.subrange(0, 4) =~= magic_seq());
    assert(e.subrange(0, e.len() - 4) =~= body);
    let c = trunc32(hash64_of(body));
    assert(e.subrange(e.len() - 4, e.len() as int) =~= le32(c));
    assert(le32_decode(le32(c)) == c) by (bit_vector);
    let inner = e.subrange(4, e.len() - 4);
    assert(inner =~= xor_stream(d, key));
    assert(xor_stream(xor_stream(d, key), key) =~= d) by {
        assert forall|i: int| 0 <= i < d.len() implies xor_stream(xor_stream(d, key), key)[i]
            == d[i] by {
            let b = d[i];
            let kb = key[i % 32];
            let mb = mask7(i);
            assert((((b ^ kb) ^ mb) ^ kb) ^ mb == b) by (bit_vector);
        }
    }
}

/// Whether a stored record is internally consistent for this machine: free
/// records always are; pro records need a valid key, the matching machine
/// identity, and an activation time.
pub open spec fn license_ok(l: LicenseInfo, machine_id: Seq<char>) -> bool {
    if !l.is_pro {
        true
    } else {
        match l.license_key {
            Some(k) => key_valid(k@) && l.machine_id@ == machine_id && l.activated_at is Some,
            None => false,
        }
    }
}

/// Integrity check of a stored record against the current machine identity.
pub fn _v(l: &LicenseInfo, machine_id: &str) -> (r: bool)
    ensures
        r == license_ok(*l, machine_id@),
{
    if !l.is_pro {
        return true;
    }
    let k = match &l.license_key {
        Some(x) => x,
        None => { return false; },
    };
    if validate_license_key(k.as_str()).is_err() {
        return false;
    }
    if !str_eq(l.machine_id.as_str(), machine_id) {
        return false;
    }
    l.activated_at.is_some()
}

/// Whether pro features are unlocked: a pro record with a key that passes
/// the integrity check for this machine.
pub open spec fn pro_active(l: LicenseInfo, machine_id: Seq<char>) -> bool {
    l.is_pro && l.license_key is Some && license_ok(l, machine_id)
}

/// The runtime gate for pro features, over the loaded record and the
/// current machine identity.
pub fn runtime_license_check(l: &LicenseInfo, machine_id: &str) -> (r: bool)
    ensures
        r == pro_active(*l, machine_id@),
{
    let a = l.is_pro;
    let b = l.license_key.is_some();
    let c = _v(l, machine_id);
    a && b && c
}

/// Gate for one named pro feature: `Ok` when pro is active, else an error
/// naming the feature.
pub fn check_pro_feature(f: &str, l: &LicenseInfo, machine_id: &str) -> (r: Result<(), String>)
    ensures
        pro_active(*l, machine_id@) ==> r is Ok,
        !pro_active(*l, machine_id@) ==> r is Err && (r->Err_0)@ == f@ + " requires Pro"@,
{
    if !runtime_license_check(l, machine_id) {
        let mut msg = String::from_str(f);
        msg.append(" requires Pro");
        return Err(msg);
    }
    Ok(())
}

/// Validates a key and builds the activated record for this machine.  The
/// activation timestamp comes from the system clock.
pub fn activate_license(k: &str, machine_id: &str) -> (r: Result<LicenseInfo, String>)
    ensures
        key_valid(k@) <==> r is Ok,
        r is Ok ==> {
            let l = r->Ok_0;
            &&& l.is_pro
            &&& l.license_key matches Some(lk) && lk@ == k@
            &&& l.activated_at is Some
            &&& l.machine_id@ == machine_id@
        },
        r is Err ==> (r->Err_0)@ == "License validation failed"@,
{
    match validate_license_key(k) {
        Ok(_) => {},
        Err(e) => { return Err(e); },
    }
    Ok(LicenseInfo {
        is_pro: true,
        license_key: Some(k.to_owned()),
        activated_at: Some(now_rfc3339()),
        machine_id: machine_id.to_owned(),
    })
}

/// The record that deactivation stores: the free-tier default.
pub fn deactivate_license() -> (r: LicenseInfo)
    ensures
        !r.is_pro,
        r.license_key is None,
        r.activated_at is None,
        r.machine_id@ == Seq::<char>::empty(),
{
    LicenseInfo::default()
}

/// Whether a feature name is pro-gated.
pub fn requires_pro(f: &str) -> (r: bool)
    ensures
        r == (f@ == "chat_detection"@ || f@ == "vertical_crop"@ || f@ == "custom_keywords"@
            || f@ == "unlimited_clips"@ || f@ == "high_resolution"@ || f@ == "no_watermark"@
            || f@ == "batch_export"@ || f@ == "fade_effects"@ || f@ == "webm_format"@),
{
    str_eq(f, "chat_detection") || str_eq(f, "vertical_crop") || str_eq(f, "custom_keywords")
        || str_eq(f, "unlimited_clips") || str_eq(f, "high_resolution") || str_eq(
        f,
        "no_watermark",
    ) || str_eq(f, "batch_export") || str_eq(f, "fade_effects") || str_eq(f, "webm_format")
}

/// Builds a dash-formatted key for a known prefix: twelve random payload
/// characters followed by the matching checksum.  The result passes every
/// validation check except possibly the digest gate, which depends on the
/// digest function alone.
pub fn generate_valid_key(prefix: &str) -> (r: String)
    requires
        prefix@.len() == 4,
        valid_prefix(prefix@),
    ensures
        key_format_ok(r@),
        stripped20(r@).subrange(0, 4) == prefix@,
        stripped20(r@).subrange(16, 20) == hex4(
            checksum_val(stripped20(r@).subrange(0, 16)),
        ),
        key_valid(r@) <==> hash64_of(encode_utf8(stripped20(r@).subrange(4, 16))) != 0,
{
    let charset = "ABCDEFGHIJKLMNOPQRSTUVWXYZ0123456789";
    proof {
        reveal_strlit("ABCDEFGHIJKLMNOPQRSTUVWXYZ0123456789");
        reveal_strlit("SCPR");
        reveal_strlit("STRM");
        reveal_strlit("CLIP");
        reveal_strlit("PRO1");
    }
    let mut data = String::from_str(prefix);
    let mut i: usize = 0;
    while i < 12
        invariant
            i <= 12,
            data@.len() == 4 + i,
            data@.subrange(0, 4) == prefix@,
            forall|j: int| 4 <= j < data@.len() ==> is_key_char(#[trigger] data@[j]),
            charset@ == "ABCDEFGHIJKLMNOPQRSTUVWXYZ0123456789"@,
            charset@.len() == 36,
        decreases 12 - i,
    {
        let idx = rand_below(36);
        let c = charset.get_char(idx);
        proof {
            reveal_strlit("ABCDEFGHIJKLMNOPQRSTUVWXYZ0123456789");
            assert(is_key_char(charset@[idx as int]));
        }
        let mut one = String::new();
        let cs = charset.substring_char(idx, idx + 1);
        one.append(cs);
        data.append(one.as_str());
        proof {
            assert(data@.subrange(0, 4) =~= prefix@);
        }
        i += 1;
    }
    let checksum = _cs(data.as_str());
    let ghost data_view = data@;
    let full = data.concat(checksum.as_str());
    proof {
        assert(forall|j: int|
            0 <= j < 4 ==> hex4(checksum_val(data_view))[j] == hex_digit(
                #[trigger] hex4_index_val(checksum_val(data_view), j),
            ));
        assert(forall|j: int| 16 <= j < 20 ==> is_key_char(#[trigger] full@[j])) by {
            assert forall|j: int| 16 <= j < 20 implies is_key_char(#[trigger] full@[j]) by {
                assert(full@[j] == hex4(checksum_val(data_view))[j - 16]);
                lemma_hex_digit_is_key_char(hex4_index_val(checksum_val(data_view), j - 16));
            }
        }
        assert(forall|j: int| 0 <= j < 4 ==> is_key_char(#[trigger] prefix@[j])) by {
            assert(valid_prefix(prefix@));
        }
    }
    let p0 = full.as_str().substring_char(0, 5);
    let p1 = full.as_str().substring_char(5, 10);
    let p2 = full.as_str().substring_char(10, 15);
    let p3 = full.as_str().substring_char(15, 20);
    let mut out = String::new();
    out.append(p0);
    out.append("-");
    out.append(p1);
    out.append("-");
    out.append(p2);
    out.append("-");
    out.append(p3);
    proof {
        reveal_strlit("-");
        assert("-"@.len() == 1);
        assert(full@.len() == 20);
        assert(out@.len() == 23);
        assert(out@ =~= full@.subrange(0, 5) + "-"@ + full@.subrange(5, 10) + "-"@
            + full@.subrange(10, 15) + "-"@ + full@.subrange(15, 20));
        assert(stripped20(out@) =~= full@);
        assert(key_format_ok(out@)) by {
            assert(out@.len() == 23);
            assert(forall|j: int| 0 <= j < 23 ==> key_position_ok(out@, j)) by {
                assert forall|j: int| 0 <= j < 23 implies key_position_ok(out@, j) by {
                    if j == 5 || j == 11 || j == 17 {
                        assert(out@[j] == '-');
                    } else {
                        let t = if j < 5 { j } else if j < 11 { j - 1 } else if j < 17 { j - 2 }
                            else { j - 3 };
                        assert(out@[j] == full@[t]);
                        if t < 4 {
                            assert(full@[t] == data_view[t]);
                            assert(data_view.subrange(0, 4)[t] == data_view[t]);
                            assert(data_view[t] == prefix@[t]);
                            assert(is_key_char(prefix@[t]));
                        } else if t < 16 {
                            assert(full@[t] == data_view[t]);
                            assert(is_key_char(data_view[t]));
                        } else {
                            assert(is_key_char(full@[t]));
                        }
                    }
                }
            }
        }
        assert(stripped20(out@).subrange(0, 4) =~= prefix@);
        assert(stripped20(out@).subrange(0, 16) =~= data_view);
        assert(stripped20(out@).subrange(16, 20) =~= hex4(checksum_val(data_view)));
    }
    out
}

/// The hex digit selector used at each position of `hex4`.
pub open spec fn hex4_index_val(v: int, j: int) -> int {
    if j == 0 {
        v / 4096 % 16
    } else if j == 1 {
        v / 256 % 16
    } else if j == 2 {
        v / 16 % 16
    } else {
        v % 16
    }
}

proof fn lemma_hex_digit_is_key_char(d: int)
    ensures
        is_key_char(hex_digit(d)),
{
}

} // verus!
