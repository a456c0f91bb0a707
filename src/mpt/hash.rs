use std::collections::hash_map::DefaultHasher;
use std::hash::Hasher;
use vstd::prelude::*;
use vstd::std_specs::hash::DefaultHasherAdditionalSpecFns;
use crate::text::ascii_string;

verus! {

/// Byte `i` (counting from the least significant) of `x`.
pub open spec fn byte_of(x: u64, i: int) -> u8 {
    ((x >> ((8 * i) as u64)) & 0xff) as u8
}

/// The eight bytes of `x`, least significant first.
pub open spec fn le_bytes(x: u64) -> Seq<u8> {
    Seq::new(8, |i: int| byte_of(x, i))
}

/// The 32-byte digest made from the 64-bit hash `h`: its eight bytes, least
/// significant first, then 24 bytes, the one at position `i` being the low
/// byte of `h` shifted right by `(i - 8) % 8` bits.
pub open spec fn digest_of(h: u64) -> Seq<u8> {
    Seq::new(
        32,
        |i: int|
            if i < 8 {
                byte_of(h, i)
            } else {
                ((h >> (((i - 8) % 8) as u64)) & 0xff) as u8
            },
    )
}

/// The 64-bit hash of `data`: std's `DefaultHasher` fed the length of
/// `data` as eight little-endian bytes, then `data`.
pub open spec fn data_hash(data: Seq<u8>) -> u64 {
    DefaultHasher::spec_finish(seq![le_bytes(data.len() as u64), data])
}

/// A 32-byte digest of `data`: std's `DefaultHasher` over the length and
/// the bytes of `data`, spread over 32 bytes. It is deterministic for a
/// given build but is not Keccak-256.
pub fn keccak256(data: &[u8]) -> (r: [u8; 32])
    ensures
        r@ == digest_of(data_hash(data@)),
{
    let len = data.len() as u64;
    let mut prefix = [0u8; 8];
    let mut i: usize = 0;
    while i < 8
        invariant
            i <= 8,
            len == data@.len(),
            forall|j: int| 0 <= j < i ==> #[trigger] prefix@[j] == byte_of(len, j),
        decreases 8 - i,
    {
        prefix[i] = ((len >> (8 * i as u64)) & 0xff) as u8;
        i = i + 1;
    }
    assert(prefix@ =~= le_bytes(len));
    let mut hasher = DefaultHasher::new();
    hasher.write(prefix.as_slice());
    hasher.write(data);
    let h = hasher.finish();
    assert(hasher@ =~= seq![le_bytes(data@.len() as u64), data@]);
    hash_digest(h)
}

/// Spreads the 64-bit hash `h` over 32 bytes.
pub fn hash_digest(h: u64) -> (r: [u8; 32])
    ensures
        r@ == digest_of(h),
{
    let mut result = [0u8; 32];
    let mut i: usize = 0;
    while i < 32
        invariant
            i <= 32,
            forall|j: int| 0 <= j < i ==> #[trigger] result@[j] == digest_of(h)[j],
        decreases 32 - i,
    {
        if i < 8 {
            result[i] = ((h >> (8 * i as u64)) & 0xff) as u8;
        } else {
            result[i] = ((h >> ((i - 8) % 8) as u64) & 0xff) as u8;
        }
        i = i + 1;
    }
    assert(result@ =~= digest_of(h));
    result
}

/// The lower-case hex digit for `n < 16`.
pub open spec fn hex_digit(n: u8) -> u8 {
    if n < 10 {
        (48 + n) as u8
    } else {
        (87 + n) as u8
    }
}

/// Two lower-case hex digits per byte, high nibble first.
pub open spec fn hex_of(bytes: Seq<u8>) -> Seq<char> {
    Seq::new(
        2 * bytes.len(),
        |i: int|
            if i % 2 == 0 {
                hex_digit(bytes[i / 2] / 16) as char
            } else {
                hex_digit(bytes[i / 2] % 16) as char
            },
    )
}

/// Lower-case hex rendering of `hash`, two digits per byte.
pub fn hash_to_hex(hash: &[u8]) -> (r: String)
    requires
        hash@.len() * 2 <= usize::MAX,
    ensures
        r@ == hex_of(hash@),
{
    let mut digits: Vec<u8> = Vec::with_capacity(hash.len() * 2);
    let mut i: usize = 0;
    while i < hash.len()
        invariant
            i <= hash@.len(),
            digits@.len() == 2 * i,
            forall|j: int| 0 <= j < 2 * i ==> #[trigger] digits@[j] < 128,
            forall|j: int| 0 <= j < 2 * i ==> (#[trigger] digits@[j]) as char == hex_of(hash@)[j],
        decreases hash@.len() - i,
    {
        let b = hash[i];
        let hi = b / 16;
        let lo = b % 16;
        digits.push(if hi < 10 { 48 + hi } else { 87 + hi });
        digits.push(if lo < 10 { 48 + lo } else { 87 + lo });
        i = i + 1;
    }
    let r = ascii_string(digits);
    assert(r@ =~= hex_of(hash@));
    r
}

} // verus!
