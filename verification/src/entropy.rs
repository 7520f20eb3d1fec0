//! Randomness and its URL-safe encoding: the only sources of the secrets and
//! identifiers the backend mints.

use base64::Engine as _;
use rand::Rng as _;
use vstd::prelude::*;

verus! {

/// The character the URL-safe base64 alphabet uses for the six-bit value `v`.
pub open spec fn b64_char(v: int) -> char {
    if 0 <= v < 26 {
        ('A' as u32 + v) as char
    } else if 26 <= v < 52 {
        ('a' as u32 + (v - 26)) as char
    } else if 52 <= v < 62 {
        ('0' as u32 + (v - 52)) as char
    } else if v == 62 {
        '-'
    } else {
        '_'
    }
}

/// The `i`-th byte of `b`, as a number.
pub open spec fn byte(b: Seq<u8>, i: int) -> int {
    b[i] as int
}

/// The URL-safe base64 encoding of `b`, without `=` padding: every three bytes
/// become four characters, and a trailing one or two bytes become two or three.
pub open spec fn b64_url_no_pad(b: Seq<u8>) -> Seq<char>
    decreases b.len(),
{
    if b.len() >= 3 {
        seq![
            b64_char(byte(b, 0) / 4),
            b64_char((byte(b, 0) % 4) * 16 + byte(b, 1) / 16),
            b64_char((byte(b, 1) % 16) * 4 + byte(b, 2) / 64),
            b64_char(byte(b, 2) % 64),
        ] + b64_url_no_pad(b.skip(3))
    } else if b.len() == 2 {
        seq![b64_char(byte(b, 0) / 4), b64_char((byte(b, 0) % 4) * 16 + byte(b, 1) / 16), b64_char((byte(b, 1) % 16) * 4)]
    } else if b.len() == 1 {
        seq![b64_char(byte(b, 0) / 4), b64_char((byte(b, 0) % 4) * 16)]
    } else {
        seq![]
    }
}

/// Whether `c` may appear in a URL unescaped: an ASCII letter or digit, `-` or `_`.
pub open spec fn is_url_safe(c: char) -> bool {
    ('A' <= c <= 'Z') || ('a' <= c <= 'z') || ('0' <= c <= '9') || c == '-' || c == '_'
}

/// Whether every character of `s` is URL-safe.
pub open spec fn all_url_safe(s: Seq<char>) -> bool {
    forall|i: int| 0 <= i < s.len() ==> is_url_safe(#[trigger] s[i])
}

/// The encoding of `n` bytes is `ceil(4n / 3)` characters long, all URL-safe.
pub proof fn lemma_b64_shape(b: Seq<u8>)
    ensures
        b64_url_no_pad(b).len() == (4 * b.len() + 2) / 3,
        all_url_safe(b64_url_no_pad(b)),
    decreases b.len(),
{
    if b.len() >= 3 {
        lemma_b64_shape(b.skip(3));
        let head = seq![
            b64_char(byte(b, 0) / 4),
            b64_char((byte(b, 0) % 4) * 16 + byte(b, 1) / 16),
            b64_char((byte(b, 1) % 16) * 4 + byte(b, 2) / 64),
            b64_char(byte(b, 2) % 64),
        ];
        assert(all_url_safe(head));
        assert(all_url_safe(head + b64_url_no_pad(b.skip(3)))) by {
            let whole = head + b64_url_no_pad(b.skip(3));
            assert forall|i: int| 0 <= i < whole.len() implies is_url_safe(#[trigger] whole[i]) by {
                if i >= 4 {
                    assert(whole[i] == b64_url_no_pad(b.skip(3))[i - 4]);
                }
            }
        }
    }
}

/// `n` bytes drawn from the thread-local generator.
///
/// Trusted: calls `rand::Rng::fill` on a buffer of `n` bytes; nothing is
/// promised of the bytes but how many there are.
#[verifier::external_body]
fn random_bytes(n: usize) -> (bytes: Vec<u8>)
    ensures
        bytes@.len() == n,
{
    let mut raw = vec![0u8; n];
    rand::thread_rng().fill(&mut raw[..]);
    raw
}

/// A number drawn uniformly below `bound`.
///
/// Trusted: calls `rand::Rng::gen_range` over `0..bound`, which panics on an
/// empty range (hence the `requires`) and otherwise returns a value inside it.
#[verifier::external_body]
pub(crate) fn random_below(bound: usize) -> (i: usize)
    requires
        bound > 0,
    ensures
        i < bound,
{
    rand::thread_rng().gen_range(0..bound)
}

/// The URL-safe, unpadded base64 encoding of `bytes`.
///
/// Trusted: calls `base64::engine::general_purpose::URL_SAFE_NO_PAD.encode`,
/// whose result is claimed to be the encoding [`b64_url_no_pad`] writes out.
#[verifier::external_body]
fn base64_url_no_pad(bytes: &[u8]) -> (s: String)
    ensures
        s@ == b64_url_no_pad(bytes@),
{
    base64::engine::general_purpose::URL_SAFE_NO_PAD.encode(bytes)
}

/// Mint a URL-safe string carrying `n` random bytes.
pub fn random_url_safe(n: usize) -> (s: String)
    ensures
        exists|b: Seq<u8>| b.len() == n && s@ == b64_url_no_pad(b),
        s@.len() == (4 * n + 2) / 3,
        all_url_safe(s@),
{
    let raw = random_bytes(n);
    let s = base64_url_no_pad(raw.as_slice());
    proof {
        lemma_b64_shape(raw@);
    }
    s
}

} // verus!
