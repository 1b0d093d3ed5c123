//! Name-token extraction: scanning a path for an embedded 8-digit
//! hexadecimal checksum token.
//!
//! A valid token is exactly 8 hexadecimal digits standing strictly between
//! two non-hexadecimal bytes. When several such tokens exist, the rightmost
//! one wins: filenames conventionally carry the checksum next to the
//! extension, so scanning from the end finds the intended token and ignores
//! hex-looking segments earlier in the path.

use vstd::prelude::*;
use crate::hex::{hex_value, is_hex_digit, is_hex_digit_byte, hex_value8, lemma_hex8_value, hex8};
use vstd::slice::slice_subrange;

verus! {

/// A 10-byte window of `s` starting at `w` holds a valid token: its first
/// and last bytes are not hexadecimal digits, the 8 bytes between are.
pub open spec fn window_ok(s: Seq<u8>, w: int) -> bool {
    &&& 0 <= w
    &&& w + 10 <= s.len()
    &&& !is_hex_digit(s[w])
    &&& !is_hex_digit(s[w + 9])
    &&& forall|k: int| w + 1 <= k < w + 9 ==> is_hex_digit(#[trigger] s[k])
}

/// The token value carried by the window starting at `w`.
pub open spec fn window_value(s: Seq<u8>, w: int) -> u32 {
    hex_value(s.subrange(w + 1, w + 9)) as u32
}

/// The token found scanning window starts from `w` down toward the
/// start of the string.
pub open spec fn scan_from(s: Seq<u8>, w: int) -> Option<u32>
    decreases w + 1,
{
    if w < 0 {
        None
    } else if window_ok(s, w) {
        Some(window_value(s, w))
    } else {
        scan_from(s, w - 1)
    }
}

/// The rightmost valid token of the path, if any.
pub open spec fn find_crc_spec(s: Seq<u8>) -> Option<u32> {
    scan_from(s, s.len() - 10)
}

/// What a 10-byte candidate window yields on its own.
pub open spec fn parse_crc_spec(win: Seq<u8>) -> Option<u32> {
    if win.len() == 10 && window_ok(win, 0) {
        Some(window_value(win, 0))
    } else {
        None
    }
}

/// Scanning below every valid window finds nothing further.
pub proof fn lemma_scan_skip(s: Seq<u8>, hi: int, lo: int)
    requires
        -1 <= lo <= hi,
        forall|w: int| lo < w <= hi ==> !window_ok(s, w),
    ensures
        scan_from(s, hi) == scan_from(s, lo),
    decreases hi - lo,
{
    if lo < hi {
        lemma_scan_skip(s, hi - 1, lo);
    }
}

proof fn lemma_scan_sound(s: Seq<u8>, w: int, v: u32)
    requires
        scan_from(s, w) == Some(v),
    ensures
        exists|x: int| #[trigger] window_ok(s, x) && x <= w && v == window_value(s, x),
    decreases w + 1,
{
    if w >= 0 {
        if window_ok(s, w) {
            assert(window_ok(s, w) && w <= w && v == window_value(s, w));
        } else {
            lemma_scan_sound(s, w - 1, v);
        }
    }
}

/// A returned token always comes from a valid window: exactly 8
/// hexadecimal digits bounded on both sides by non-hexadecimal bytes.
/// A 7- or 9-digit run, or a token whose neighbour is itself a
/// hexadecimal digit, lies in no valid window and is never returned.
pub proof fn lemma_find_crc_sound(s: Seq<u8>, v: u32)
    requires
        find_crc_spec(s) == Some(v),
    ensures
        exists|x: int| #[trigger] window_ok(s, x) && v == window_value(s, x),
{
    lemma_scan_sound(s, s.len() - 10, v);
}

/// A path without a single valid window yields no token.
pub proof fn lemma_find_crc_none(s: Seq<u8>)
    requires
        forall|w: int| !window_ok(s, w),
    ensures
        find_crc_spec(s) == None::<u32>,
{
    if s.len() >= 10 {
        lemma_scan_skip(s, s.len() - 10, -1);
    }
}

/// Token candidate carried by one 10-byte window on its own.
pub fn parse_crc(window: &[u8]) -> (r: Option<u32>)
    ensures
        r == parse_crc_spec(window@),
{
    if window.len() != 10 {
        return None;
    }
    window_token(window, 0)
}

/// Checks the window of `path` starting at `w` and returns its token.
fn window_token(path: &[u8], w: usize) -> (r: Option<u32>)
    requires
        w + 10 <= path@.len(),
    ensures
        r is Some <==> window_ok(path@, w as int),
        r is Some ==> r == Some(window_value(path@, w as int)),
{
    let n = path.len();
    if is_hex_digit_byte(path[w]) || is_hex_digit_byte(path[w + 9]) {
        return None;
    }
    let mut k: usize = 1;
    while k < 9
        invariant
            1 <= k <= 9,
            w + 10 <= n == path@.len(),
            forall|j: int| w + 1 <= j < w + k ==> is_hex_digit(#[trigger] path@[j]),
        decreases 9 - k,
    {
        if !is_hex_digit_byte(path[w + k]) {
            return None;
        }
        k = k + 1;
    }
    let mid = slice_subrange(path, w + 1, w + 9);
    proof {
        assert(forall|j: int| 0 <= j < 8 ==> is_hex_digit(#[trigger] mid@[j]));
    }
    let v = hex_value8(mid);
    Some(v)
}

/// The rightmost valid token embedded in the path, scanning 10-byte
/// windows from the end of the string toward the start.
pub fn find_crc_in_name(path: &[u8]) -> (r: Option<u32>)
    ensures
        r == find_crc_spec(path@),
{
    let n = path.len();
    if n < 10 {
        return None;
    }
    let mut i: usize = n - 9;
    while i > 0
        invariant
            i <= n - 9,
            10 <= n == path@.len(),
            scan_from(path@, n - 10) == scan_from(path@, i - 1),
        decreases i,
    {
        i = i - 1;
        match window_token(path, i) {
            Some(v) => {
                return Some(v);
            },
            None => {},
        }
    }
    None
}

/// The 8 bytes of `s` starting at `a` are all hexadecimal digits.
pub open spec fn hex_run8_at(s: Seq<u8>, a: int) -> bool {
    forall|m: int| a <= m < a + 8 ==> is_hex_digit(#[trigger] s[m])
}

/// A sequence of bytes that nowhere holds 8 consecutive hexadecimal digits.
pub open spec fn no_hex_run8(s: Seq<u8>) -> bool {
    forall|a: int| 0 <= a && a + 8 <= s.len() ==> !#[trigger] hex_run8_at(s, a)
}

/// Round trip of the embedding convention: a path built as
/// `prefix + "_" + hex8(crc) + "." + ext`, where `ext` nowhere holds
/// 8 consecutive hexadecimal digits, yields exactly `crc` back —
/// whatever the prefix holds.
pub proof fn lemma_embedded_token_found(prefix: Seq<u8>, crc: u32, ext: Seq<u8>)
    requires
        no_hex_run8(ext),
    ensures
        find_crc_spec(prefix + seq![95u8] + hex8(crc) + seq![46u8] + ext) == Some(crc),
{
    let s = prefix + seq![95u8] + hex8(crc) + seq![46u8] + ext;
    let ll = prefix.len() as int;
    let ee = ext.len() as int;
    assert(s.len() == ll + 10 + ee);
    lemma_hex8_value(crc);
    // Lay the pieces out by index.
    assert(s[ll] == 95u8);
    assert(s[ll + 9] == 46u8);
    assert(forall|j: int| 0 <= j < 8 ==> s[ll + 1 + j] == #[trigger] hex8(crc)[j]);
    assert(forall|j: int| 0 <= j < ee ==> s[ll + 10 + j] == #[trigger] ext[j]);
    // The token's own window is valid and carries crc.
    assert(window_ok(s, ll)) by {
        assert(forall|k: int| ll + 1 <= k < ll + 9 ==> is_hex_digit(#[trigger] s[k]));
    }
    assert(window_value(s, ll) == crc) by {
        assert(s.subrange(ll + 1, ll + 9) =~= hex8(crc));
    }
    // No window to the right of the token is valid.
    assert forall|w: int| ll < w <= ll + ee implies !window_ok(s, w) by {
        if w + 10 <= s.len() {
            if w <= ll + 8 {
                // The window begins inside the token's digits.
                assert(s[w] == hex8(crc)[w - ll - 1]);
                assert(is_hex_digit(s[w]));
            } else {
                // The window's middle lies wholly inside ext.
                let a = w - ll - 9;
                assert(0 <= a && a + 8 <= ee);
                assert(!hex_run8_at(ext, a));
                let m = choose|m: int| a <= m < a + 8 && !is_hex_digit(#[trigger] ext[m]);
                assert(s[ll + 10 + m] == ext[m]);
                assert(w + 1 <= ll + 10 + m < w + 9);
                assert(!is_hex_digit(s[ll + 10 + m]));
            }
        }
    }
    lemma_scan_skip(s, ll + ee, ll);
}

} // verus!
