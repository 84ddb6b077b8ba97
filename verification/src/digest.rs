//! Digests and the text encodings of bytes.

use base64::engine::general_purpose::URL_SAFE_NO_PAD;
use base64::Engine;
use sha1::Digest;
use vstd::arithmetic::div_mod::{
    lemma_fundamental_div_mod, lemma_mod_multiples_vanish, lemma_small_mod,
};
use vstd::prelude::*;

use crate::nft::hex_char;

verus! {

/// The SHA-1 digest of a message.
pub uninterp spec fn sha1_of(data: Seq<u8>) -> Seq<u8>;

/// The SHA-224 digest of a message.
pub uninterp spec fn sha224_of(data: Seq<u8>) -> Seq<u8>;

/// The SHA-256 digest of a message.
pub uninterp spec fn sha256_of(data: Seq<u8>) -> Seq<u8>;

/// The SHA3-256 digest of a message.
pub uninterp spec fn sha3_256_of(data: Seq<u8>) -> Seq<u8>;

/// `sha1::Sha1::digest` depends on the message alone and gives 20 bytes.
#[verifier::external_body]
pub(crate) fn sha1(data: &[u8]) -> (r: Vec<u8>)
    ensures
        r@ == sha1_of(data@),
        r@.len() == 20,
{
    sha1::Sha1::digest(data).to_vec()
}

/// `sha2::Sha224::digest` depends on the message alone and gives 28 bytes.
#[verifier::external_body]
pub(crate) fn sha224(data: &[u8]) -> (r: Vec<u8>)
    ensures
        r@ == sha224_of(data@),
        r@.len() == 28,
{
    sha2::Sha224::digest(data).to_vec()
}

/// `sha2::Sha256::digest` depends on the message alone and gives 32 bytes.
#[verifier::external_body]
pub(crate) fn sha256(data: &[u8]) -> (r: Vec<u8>)
    ensures
        r@ == sha256_of(data@),
        r@.len() == 32,
{
    sha2::Sha256::digest(data).to_vec()
}

/// `sha3::Sha3_256::digest` depends on the message alone and gives 32 bytes.
#[verifier::external_body]
pub(crate) fn sha3_256(data: &[u8]) -> (r: Vec<u8>)
    ensures
        r@ == sha3_256_of(data@),
        r@.len() == 32,
{
    sha3::Sha3_256::digest(data).to_vec()
}

/// The byte at `i`, and zero beyond the end.
pub open spec fn byte_or_zero(data: Seq<u8>, i: int) -> nat {
    if 0 <= i < data.len() {
        data[i] as nat
    } else {
        0
    }
}

/// The sixteen bits that start at byte `i`, zero beyond the end.
pub open spec fn two_bytes(data: Seq<u8>, i: int) -> nat {
    byte_or_zero(data, i) * 256 + byte_or_zero(data, i + 1)
}

/// The six bits that start at bit `6 * k`.
pub open spec fn six_bits(data: Seq<u8>, k: int) -> nat {
    let w = two_bytes(data, 6 * k / 8);
    let offset = 6 * k % 8;
    if offset == 0 {
        w / 1024
    } else if offset == 2 {
        w / 256 % 64
    } else if offset == 4 {
        w / 64 % 64
    } else {
        w / 16 % 64
    }
}

/// The character of a six-bit value in the URL-safe base64 alphabet.
pub open spec fn base64_char(v: nat) -> char {
    if v < 26 {
        (65 + v) as char
    } else if v < 52 {
        (71 + v) as char
    } else if v < 62 {
        (v - 4) as char
    } else if v == 62 {
        '-'
    } else {
        '_'
    }
}

/// The URL-safe base64 text of the bytes, without padding.
pub open spec fn base64_of(data: Seq<u8>) -> Seq<char> {
    Seq::new((data.len() * 8 + 5) / 6, |k: int| base64_char(six_bits(data, k)))
}

/// `base64`'s `URL_SAFE_NO_PAD.encode` writes each group of six bits as one character of
/// the URL-safe alphabet, the last group filled up with zero bits, without padding. It
/// panics where the length of the text exceeds `usize`, which the bound rules out.
#[verifier::external_body]
pub(crate) fn base64_url(data: &[u8]) -> (r: String)
    requires
        data@.len() <= usize::MAX / 4,
    ensures
        r@ == base64_of(data@),
{
    URL_SAFE_NO_PAD.encode(data)
}

/// The five bits that start at bit `5 * k`.
pub open spec fn five_bits(data: Seq<u8>, k: int) -> nat {
    let w = two_bytes(data, 5 * k / 8);
    let offset = 5 * k % 8;
    if offset == 0 {
        w / 2048
    } else if offset == 1 {
        w / 1024 % 32
    } else if offset == 2 {
        w / 512 % 32
    } else if offset == 3 {
        w / 256 % 32
    } else if offset == 4 {
        w / 128 % 32
    } else if offset == 5 {
        w / 64 % 32
    } else if offset == 6 {
        w / 32 % 32
    } else {
        w / 16 % 32
    }
}

/// The character of a five-bit value in the base32 alphabet.
pub open spec fn base32_char(v: nat) -> char {
    if v < 26 {
        (65 + v) as char
    } else {
        (24 + v) as char
    }
}

/// The base32 text of the bytes, without padding.
pub open spec fn base32_of(data: Seq<u8>) -> Seq<char> {
    Seq::new((data.len() * 8 + 4) / 5, |k: int| base32_char(five_bits(data, k)))
}

/// `data_encoding`'s `BASE32_NOPAD.encode` writes each group of five bits as one character
/// of the alphabet `A` to `Z`, `2` to `7`, the last group filled up with zero bits, without
/// padding. It panics on an input that is longer than the bound.
#[verifier::external_body]
pub(crate) fn base32(data: &[u8]) -> (r: String)
    requires
        data@.len() <= usize::MAX / 512,
    ensures
        r@ == base32_of(data@),
{
    data_encoding::BASE32_NOPAD.encode(data)
}

/// The lower-case hexadecimal text of the bytes, two digits for each.
pub open spec fn hex_of(data: Seq<u8>) -> Seq<char> {
    Seq::new(
        data.len() * 2,
        |k: int|
            if k % 2 == 0 {
                hex_char((data[k / 2] / 16) as nat)
            } else {
                hex_char((data[k / 2] % 16) as nat)
            },
    )
}

/// `hex::encode` writes each byte as two lower-case hexadecimal digits, the high one
/// first.
#[verifier::external_body]
pub(crate) fn hex(data: &[u8]) -> (r: String)
    ensures
        r@ == hex_of(data@),
{
    hex::encode(data)
}

/// What is left of two bytes when bits are cut off at either end.
proof fn lemma_cut(a: int, b: int, low: int, high: int, x: int, y: int)
    requires
        0 <= a < 256,
        0 <= b < 256,
        low > 0,
        high > 0,
        a * 256 + b == (x * high + y) * low + (a * 256 + b) % low,
        0 <= y < high,
        0 <= x,
    ensures
        (a * 256 + b) / low % high == y,
{
    let w = a * 256 + b;
    lemma_fundamental_div_mod(w, low);
    assert(w / low == x * high + y) by (nonlinear_arith)
        requires
            w == low * (w / low) + w % low,
            w == (x * high + y) * low + w % low,
            low > 0,
    ;
    lemma_mod_multiples_vanish(x, y, high);
    assert(high * x + y == x * high + y) by (nonlinear_arith);
    lemma_small_mod(y as nat, high as nat);
}

/// Four characters of base64 hold the bits of three bytes, most significant first.
pub proof fn law_base64_packs_three_bytes(data: Seq<u8>, g: int)
    requires
        0 <= g,
        3 * g + 2 < data.len(),
    ensures
        six_bits(data, 4 * g) * 0x4_0000 + six_bits(data, 4 * g + 1) * 0x1000 + six_bits(
            data,
            4 * g + 2,
        ) * 0x40 + six_bits(data, 4 * g + 3) == data[3 * g] * 0x1_0000 + data[3 * g + 1] * 0x100
            + data[3 * g + 2],
        six_bits(data, 4 * g) < 64,
        six_bits(data, 4 * g + 1) < 64,
        six_bits(data, 4 * g + 2) < 64,
        six_bits(data, 4 * g + 3) < 64,
{
    let a = data[3 * g] as int;
    let b = data[3 * g + 1] as int;
    let c = data[3 * g + 2] as int;
    let d = byte_or_zero(data, 3 * g + 3) as int;
    assert(6 * (4 * g) / 8 == 3 * g && 6 * (4 * g) % 8 == 0);
    assert(6 * (4 * g + 1) / 8 == 3 * g && 6 * (4 * g + 1) % 8 == 6);
    assert(6 * (4 * g + 2) / 8 == 3 * g + 1 && 6 * (4 * g + 2) % 8 == 4);
    assert(6 * (4 * g + 3) / 8 == 3 * g + 2 && 6 * (4 * g + 3) % 8 == 2);
    assert(six_bits(data, 4 * g) == a / 4) by {
        assert((a * 256 + b) / 1024 == a / 4);
    }
    assert(six_bits(data, 4 * g + 1) == a % 4 * 16 + b / 16) by {
        lemma_cut(a, b, 16, 64, a / 4, a % 4 * 16 + b / 16);
    }
    assert(six_bits(data, 4 * g + 2) == b % 16 * 4 + c / 64) by {
        lemma_cut(b, c, 64, 64, b / 16, b % 16 * 4 + c / 64);
    }
    assert(six_bits(data, 4 * g + 3) == c % 64) by {
        lemma_cut(c, d, 256, 64, c / 64, c % 64);
    }
}

/// The quintets that begin in the first two of five bytes.
proof fn lemma_first_quintets(data: Seq<u8>, g: int)
    requires
        0 <= g,
        5 * g + 4 < data.len(),
    ensures
        five_bits(data, 8 * g) == data[5 * g] / 8,
        five_bits(data, 8 * g + 1) == data[5 * g] % 8 * 4 + data[5 * g + 1] / 64,
        five_bits(data, 8 * g + 2) == data[5 * g + 1] / 2 % 32,
        five_bits(data, 8 * g + 3) == data[5 * g + 1] % 2 * 16 + data[5 * g + 2] / 16,
{
    let a = data[5 * g] as int;
    let b = data[5 * g + 1] as int;
    let c = data[5 * g + 2] as int;
    assert(5 * (8 * g) / 8 == 5 * g && 5 * (8 * g) % 8 == 0);
    assert(5 * (8 * g + 1) / 8 == 5 * g && 5 * (8 * g + 1) % 8 == 5);
    assert(5 * (8 * g + 2) / 8 == 5 * g + 1 && 5 * (8 * g + 2) % 8 == 2);
    assert(5 * (8 * g + 3) / 8 == 5 * g + 1 && 5 * (8 * g + 3) % 8 == 7);
    assert(five_bits(data, 8 * g) == a / 8) by {
        assert((a * 256 + b) / 2048 == a / 8);
    }
    assert(five_bits(data, 8 * g + 1) == a % 8 * 4 + b / 64) by {
        lemma_cut(a, b, 64, 32, a / 8, a % 8 * 4 + b / 64);
    }
    assert(five_bits(data, 8 * g + 2) == b / 2 % 32) by {
        lemma_cut(b, c, 512, 32, b / 64, b / 2 % 32);
    }
    assert(five_bits(data, 8 * g + 3) == b % 2 * 16 + c / 16) by {
        lemma_cut(b, c, 16, 32, b / 2, b % 2 * 16 + c / 16);
    }
}

/// The quintets that begin in the last three of five bytes.
proof fn lemma_last_quintets(data: Seq<u8>, g: int)
    requires
        0 <= g,
        5 * g + 4 < data.len(),
    ensures
        five_bits(data, 8 * g + 4) == data[5 * g + 2] % 16 * 2 + data[5 * g + 3] / 128,
        five_bits(data, 8 * g + 5) == data[5 * g + 3] / 4 % 32,
        five_bits(data, 8 * g + 6) == data[5 * g + 3] % 4 * 8 + data[5 * g + 4] / 32,
        five_bits(data, 8 * g + 7) == data[5 * g + 4] % 32,
{
    let c = data[5 * g + 2] as int;
    let d = data[5 * g + 3] as int;
    let e = data[5 * g + 4] as int;
    let f = byte_or_zero(data, 5 * g + 5) as int;
    assert(5 * (8 * g + 4) / 8 == 5 * g + 2 && 5 * (8 * g + 4) % 8 == 4);
    assert(5 * (8 * g + 5) / 8 == 5 * g + 3 && 5 * (8 * g + 5) % 8 == 1);
    assert(5 * (8 * g + 6) / 8 == 5 * g + 3 && 5 * (8 * g + 6) % 8 == 6);
    assert(5 * (8 * g + 7) / 8 == 5 * g + 4 && 5 * (8 * g + 7) % 8 == 3);
    assert(five_bits(data, 8 * g + 4) == c % 16 * 2 + d / 128) by {
        lemma_cut(c, d, 128, 32, c / 16, c % 16 * 2 + d / 128);
    }
    assert(five_bits(data, 8 * g + 5) == d / 4 % 32) by {
        lemma_cut(d, e, 1024, 32, d / 128, d / 4 % 32);
    }
    assert(five_bits(data, 8 * g + 6) == d % 4 * 8 + e / 32) by {
        lemma_cut(d, e, 32, 32, d / 4, d % 4 * 8 + e / 32);
    }
    assert(five_bits(data, 8 * g + 7) == e % 32) by {
        lemma_cut(e, f, 256, 32, e / 32, e % 32);
    }
}

/// Eight characters of base32 hold the bits of five bytes, most significant first: where a
/// character spans two bytes, the last bits of the one come before the first of the other.
pub proof fn law_base32_packs_five_bytes(data: Seq<u8>, g: int)
    requires
        0 <= g,
        5 * g + 4 < data.len(),
    ensures
        five_bits(data, 8 * g) == data[5 * g] / 8,
        five_bits(data, 8 * g + 1) == data[5 * g] % 8 * 4 + data[5 * g + 1] / 64,
        five_bits(data, 8 * g + 2) == data[5 * g + 1] / 2 % 32,
        five_bits(data, 8 * g + 3) == data[5 * g + 1] % 2 * 16 + data[5 * g + 2] / 16,
        five_bits(data, 8 * g + 4) == data[5 * g + 2] % 16 * 2 + data[5 * g + 3] / 128,
        five_bits(data, 8 * g + 5) == data[5 * g + 3] / 4 % 32,
        five_bits(data, 8 * g + 6) == data[5 * g + 3] % 4 * 8 + data[5 * g + 4] / 32,
        five_bits(data, 8 * g + 7) == data[5 * g + 4] % 32,
{
    lemma_first_quintets(data, g);
    lemma_last_quintets(data, g);
}

/// Every value has a character of its own, in either alphabet.
pub proof fn law_characters_tell_values_apart(v: nat, w: nat)
    requires
        v != w,
    ensures
        v < 64 && w < 64 ==> base64_char(v) != base64_char(w),
        v < 32 && w < 32 ==> base32_char(v) != base32_char(w),
{
}

/// A byte is written as its two hexadecimal digits, the high one first.
pub proof fn law_hex_holds_both_halves(data: Seq<u8>, i: int)
    requires
        0 <= i < data.len(),
    ensures
        hex_of(data).len() == 2 * data.len(),
        exists|h: nat, l: nat|
            {
                &&& h < 16 && l < 16
                &&& data[i] == h * 16 + l
                &&& hex_of(data)[2 * i] == #[trigger] hex_char(h)
                &&& hex_of(data)[2 * i + 1] == #[trigger] hex_char(l)
            },
{
    let h = (data[i] / 16) as nat;
    let l = (data[i] % 16) as nat;
    assert((2 * i) / 2 == i && (2 * i + 1) / 2 == i);
    assert(hex_of(data)[2 * i] == hex_char(h));
    assert(hex_of(data)[2 * i + 1] == hex_char(l));
}

} // verus!
