//! The checksums of a tarball and how they are written.

use base64::Engine;
use sha1::Digest;
use vstd::prelude::*;

verus! {

/// The SHA-1 hash of some bytes, as the `sha1` crate computes it.
pub uninterp spec fn sha1_hash(data: Seq<u8>) -> Seq<u8>;

/// The SHA-512 hash of some bytes, as the `sha2` crate computes it.
pub uninterp spec fn sha512_hash(data: Seq<u8>) -> Seq<u8>;

/// `sha1::Sha1::digest`: the hash of the bytes, which has 20 bytes.
#[verifier::external_body]
fn sha1_digest(data: &Vec<u8>) -> (r: Vec<u8>)
    ensures
        r@ == sha1_hash(data@),
        r@.len() == 20,
{
    sha1::Sha1::digest(data).to_vec()
}

/// `sha2::Sha512::digest`: the hash of the bytes, which has 64 bytes.
#[verifier::external_body]
fn sha512_digest(data: &Vec<u8>) -> (r: Vec<u8>)
    ensures
        r@ == sha512_hash(data@),
        r@.len() == 64,
{
    sha2::Sha512::digest(data).to_vec()
}

/// The upper-case hexadecimal digit of a number below 16.
pub open spec fn hex_digit(v: int) -> char {
    if v < 10 {
        (0x30 + v) as char
    } else {
        (0x37 + v) as char
    }
}

/// Bytes in upper-case hexadecimal, two digits each.
pub open spec fn hex(data: Seq<u8>) -> Seq<char> {
    Seq::new(
        2 * data.len(),
        |i: int|
            if i % 2 == 0 {
                hex_digit(data[i / 2] as int / 16)
            } else {
                hex_digit(data[i / 2] as int % 16)
            },
    )
}

/// The upper-case hexadecimal digit of a number below 16.
fn to_hex_digit(v: u8) -> (r: char)
    requires
        v < 16,
    ensures
        r == hex_digit(v as int),
{
    if v < 10 {
        (0x30 + v) as char
    } else {
        (0x37 + v) as char
    }
}

/// Bytes in upper-case hexadecimal, two digits each.
pub fn to_hex(data: &Vec<u8>) -> (r: String)
    ensures
        r@ == hex(data@),
{
    let mut r = String::new();
    let mut i: usize = 0;
    while i < data.len()
        invariant
            i <= data@.len(),
            r@ == hex(data@.take(i as int)),
        decreases data@.len() - i,
    {
        let b: u8 = data[i];
        r.push(to_hex_digit(b / 16));
        r.push(to_hex_digit(b % 16));
        assert(r@ =~= hex(data@.take(i + 1)));
        i = i + 1;
    }
    assert(data@.take(i as int) =~= data@);
    r
}

/// The character that stands for a number below 64 in base64.
pub open spec fn base64_char(v: int) -> char {
    if v < 26 {
        (0x41 + v) as char
    } else if v < 52 {
        (0x61 + v - 26) as char
    } else if v < 62 {
        (0x30 + v - 52) as char
    } else if v == 62 {
        '+'
    } else {
        '/'
    }
}

/// A byte, or zero past the end.
pub open spec fn byte_or_zero(data: Seq<u8>, i: int) -> int {
    if i < data.len() {
        data[i] as int
    } else {
        0
    }
}

/// The `i`-th group of six bits.
pub open spec fn sextet(data: Seq<u8>, i: int) -> int {
    let k = i / 4 * 3;
    if i % 4 == 0 {
        byte_or_zero(data, k) / 4
    } else if i % 4 == 1 {
        byte_or_zero(data, k) % 4 * 16 + byte_or_zero(data, k + 1) / 16
    } else if i % 4 == 2 {
        byte_or_zero(data, k + 1) % 16 * 4 + byte_or_zero(data, k + 2) / 64
    } else {
        byte_or_zero(data, k + 2) % 64
    }
}

/// Bytes in base64 with the standard alphabet, filled up to a multiple of four characters.
pub open spec fn base64_text(data: Seq<u8>) -> Seq<char> {
    Seq::new(
        ((data.len() + 2) / 3 * 4) as nat,
        |i: int|
            if i * 3 / 4 < data.len() {
                base64_char(sextet(data, i))
            } else {
                '='
            },
    )
}

/// `base64::Engine::encode` with `base64::prelude::BASE64_STANDARD`: the bytes in base64.
#[verifier::external_body]
pub(crate) fn to_base64(data: &Vec<u8>) -> (r: String)
    requires
        (data@.len() + 2) / 3 * 4 <= usize::MAX,
    ensures
        r@ == base64_text(data@),
{
    base64::prelude::BASE64_STANDARD.encode(data)
}

/// The SHA-1 hash of the bytes in upper-case hexadecimal.
pub fn sha1_hex(data: &Vec<u8>) -> (r: String)
    ensures
        r@ == hex(sha1_hash(data@)),
        r@.len() == 40,
{
    to_hex(&sha1_digest(data))
}

/// The SHA-512 hash of the bytes in base64.
pub fn sha512_base64(data: &Vec<u8>) -> (r: String)
    ensures
        r@ == base64_text(sha512_hash(data@)),
        r@.len() == 88,
{
    to_base64(&sha512_digest(data))
}

/// Each byte is written as two hexadecimal digits, the higher one first.
pub proof fn hex_is_hexadecimal(data: Seq<u8>, i: int)
    requires
        0 <= i < data.len(),
    ensures
        hex(data).len() == 2 * data.len(),
        hex(data)[2 * i] == "0123456789ABCDEF"@[data[i] as int / 16],
        hex(data)[2 * i + 1] == "0123456789ABCDEF"@[data[i] as int % 16],
{
    let b = data[i] as int;
    lemma_digit(b / 16);
    lemma_digit(b % 16);
}

/// The digits.
proof fn lemma_digit(v: int)
    requires
        0 <= v < 16,
    ensures
        hex_digit(v) == "0123456789ABCDEF"@[v],
{
    reveal_strlit("0123456789ABCDEF");
}

} // verus!
