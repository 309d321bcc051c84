//! Content digests: the MD5 digest of a file's bytes, written as lowercase hex.
use vstd::prelude::*;
use md5::Digest;

verus! {

/// The 16-byte MD5 digest of a byte sequence.
pub uninterp spec fn md5_of(data: Seq<u8>) -> Seq<u8>;

/// The lowercase hex digit for a nibble value `0..16`.
pub open spec fn hex_char(n: int) -> char {
    if n == 0 { '0' }
    else if n == 1 { '1' }
    else if n == 2 { '2' }
    else if n == 3 { '3' }
    else if n == 4 { '4' }
    else if n == 5 { '5' }
    else if n == 6 { '6' }
    else if n == 7 { '7' }
    else if n == 8 { '8' }
    else if n == 9 { '9' }
    else if n == 10 { 'a' }
    else if n == 11 { 'b' }
    else if n == 12 { 'c' }
    else if n == 13 { 'd' }
    else if n == 14 { 'e' }
    else { 'f' }
}

/// The nibble value of a lowercase hex digit (inverse of `hex_char`).
pub open spec fn hex_value(c: char) -> int {
    if c == '0' { 0 }
    else if c == '1' { 1 }
    else if c == '2' { 2 }
    else if c == '3' { 3 }
    else if c == '4' { 4 }
    else if c == '5' { 5 }
    else if c == '6' { 6 }
    else if c == '7' { 7 }
    else if c == '8' { 8 }
    else if c == '9' { 9 }
    else if c == 'a' { 10 }
    else if c == 'b' { 11 }
    else if c == 'c' { 12 }
    else if c == 'd' { 13 }
    else if c == 'e' { 14 }
    else { 15 }
}

/// Lowercase hex rendering: two digits per byte, high nibble first.
pub open spec fn lower_hex(bytes: Seq<u8>) -> Seq<char>
    decreases bytes.len(),
{
    if bytes.len() == 0 {
        Seq::empty()
    } else {
        let b = bytes.last();
        lower_hex(bytes.drop_last()) + seq![hex_char(b as int / 16), hex_char(b as int % 16)]
    }
}

/// The digest string of a file whose content is `content`.
pub open spec fn digest_text(content: Seq<u8>) -> Seq<char> {
    lower_hex(md5_of(content))
}

/// Relies on md-5's `Md5::digest` (from the `Digest` trait): the MD5 digest
/// of the data, whose output size is 16 bytes.
#[verifier::external_body]
fn md5_bytes(data: &[u8]) -> (r: Vec<u8>)
    ensures
        r@ == md5_of(data@),
        r@.len() == 16,
{
    md5::Md5::digest(data).to_vec()
}

/// Relies on `base16ct::lower::encode_string`: each byte becomes two lowercase
/// hex digits, high nibble first; it panics only when the length would overflow.
#[verifier::external_body]
fn encode_lower_hex(bytes: &[u8]) -> (r: String)
    requires
        bytes@.len() <= usize::MAX / 2,
    ensures
        r@ == lower_hex(bytes@),
{
    base16ct::lower::encode_string(bytes)
}

/// Computes the digest string of `content`: its MD5 digest as 32 lowercase hex digits.
pub fn content_digest(content: &[u8]) -> (r: String)
    ensures
        r@ == digest_text(content@),
        r@.len() == 32,
{
    let raw = md5_bytes(content);
    let r = encode_lower_hex(raw.as_slice());
    proof {
        lemma_lower_hex_len(raw@);
    }
    r
}

/// The hex rendering has two digits per byte.
pub proof fn lemma_lower_hex_len(bytes: Seq<u8>)
    ensures
        lower_hex(bytes).len() == 2 * bytes.len(),
    decreases bytes.len(),
{
    if bytes.len() > 0 {
        lemma_lower_hex_len(bytes.drop_last());
    }
}

/// Each nibble is recovered from its hex digit.
pub proof fn lemma_hex_char_inverse(n: int)
    requires
        0 <= n < 16,
    ensures
        hex_value(hex_char(n)) == n,
{
}

/// Distinct byte sequences have distinct hex renderings.
pub proof fn lemma_lower_hex_injective(a: Seq<u8>, b: Seq<u8>)
    requires
        lower_hex(a) == lower_hex(b),
    ensures
        a == b,
    decreases a.len(),
{
    lemma_lower_hex_len(a);
    lemma_lower_hex_len(b);
    if a.len() > 0 {
        let x = a.last();
        let y = b.last();
        let ha = lower_hex(a.drop_last());
        let hb = lower_hex(b.drop_last());
        lemma_lower_hex_len(a.drop_last());
        lemma_lower_hex_len(b.drop_last());
        let n = ha.len() as int;
        assert(lower_hex(a)[n] == hex_char(x as int / 16));
        assert(lower_hex(b)[n] == hex_char(y as int / 16));
        assert(lower_hex(a)[n + 1] == hex_char(x as int % 16));
        assert(lower_hex(b)[n + 1] == hex_char(y as int % 16));
        lemma_hex_char_inverse(x as int / 16);
        lemma_hex_char_inverse(y as int / 16);
        lemma_hex_char_inverse(x as int % 16);
        lemma_hex_char_inverse(y as int % 16);
        assert(x == y);
        assert(ha == lower_hex(a).subrange(0, n));
        assert(hb == lower_hex(b).subrange(0, n));
        lemma_lower_hex_injective(a.drop_last(), b.drop_last());
        assert(a == a.drop_last().push(x));
        assert(b == b.drop_last().push(y));
    }
}

/// Files with identical bytes get the same digest string; files whose MD5
/// digests differ (no collision) get different digest strings.
pub proof fn lemma_digest_identity(a: Seq<u8>, b: Seq<u8>)
    ensures
        a == b ==> digest_text(a) == digest_text(b),
        md5_of(a) != md5_of(b) ==> digest_text(a) != digest_text(b),
{
    if digest_text(a) == digest_text(b) {
        lemma_lower_hex_injective(md5_of(a), md5_of(b));
    }
}

} // verus!
