use crate::bytes::slice_from;
use vstd::prelude::*;

verus! {

/// The nibbles of `bytes`, high nibble first: two per byte.
pub open spec fn nibbles_of(bytes: Seq<u8>) -> Seq<u8> {
    Seq::new(
        2 * bytes.len(),
        |i: int|
            if i % 2 == 0 {
                bytes[i / 2] / 16
            } else {
                bytes[i / 2] % 16
            },
    )
}

/// The byte with high nibble `hi` (shifted out of a byte) and `lo` or-ed in.
pub open spec fn pack_pair(hi: u8, lo: u8) -> u8 {
    (((hi as int * 16) % 256) as u8) | lo
}

/// `nibbles` packed two to a byte; an odd last nibble takes the high half
/// of a final byte.
pub open spec fn packed_of(nibbles: Seq<u8>) -> Seq<u8> {
    Seq::new(
        ((nibbles.len() + 1) / 2) as nat,
        |i: int|
            if 2 * i + 1 < nibbles.len() {
                pack_pair(nibbles[2 * i], nibbles[2 * i + 1])
            } else {
                pack_pair(nibbles[2 * i], 0)
            },
    )
}

/// Every element is a nibble.
pub open spec fn all_nibbles(s: Seq<u8>) -> bool {
    forall|i: int| 0 <= i < s.len() ==> #[trigger] s[i] < 16
}

/// Hex-prefix encoding of `nibbles`, with the leaf flag `is_leaf`.
pub open spec fn compact_of(nibbles: Seq<u8>, is_leaf: bool) -> Seq<u8> {
    let flag: u8 = if is_leaf {
        0x20
    } else {
        0
    };
    if nibbles.len() % 2 == 0 {
        seq![flag].add(packed_of(nibbles))
    } else {
        seq![(flag + 0x10 + nibbles[0]) as u8].add(packed_of(nibbles.drop_first()))
    }
}

/// Decoding of a hex-prefix encoded path: the nibbles and the leaf flag.
pub open spec fn decoded_of(encoded: Seq<u8>) -> (Seq<u8>, bool) {
    if encoded.len() == 0 {
        (Seq::empty(), false)
    } else {
        let first = encoded[0];
        let is_leaf = (first / 32) % 2 == 1;
        let rest = nibbles_of(encoded.drop_first());
        if (first / 16) % 2 == 1 {
            (seq![first % 16].add(rest), is_leaf)
        } else {
            (rest, is_leaf)
        }
    }
}

proof fn lemma_split_byte(b: u8)
    ensures
        b >> 4u8 == b / 16,
        b & 0x0fu8 == b % 16,
        b & 0x20u8 != 0 <==> (b / 32) % 2 == 1,
        b & 0x10u8 != 0 <==> (b / 16) % 2 == 1,
{
    assert(b >> 4u8 == b / 16) by (bit_vector);
    assert(b & 0x0fu8 == b % 16) by (bit_vector);
    assert(b & 0x20u8 != 0 <==> (b / 32) % 2 == 1) by (bit_vector);
    assert(b & 0x10u8 != 0 <==> (b / 16) % 2 == 1) by (bit_vector);
}

proof fn lemma_pack(hi: u8, lo: u8)
    ensures
        (hi << 4u8) | lo == pack_pair(hi, lo),
{
    assert((hi << 4u8) == ((hi as int * 16) % 256) as u8) by (bit_vector);
}

/// Splits each byte into its two nibbles, high nibble first.
pub fn bytes_to_nibbles(bytes: &[u8]) -> (r: Vec<u8>)
    requires
        bytes@.len() * 2 <= usize::MAX,
    ensures
        r@ == nibbles_of(bytes@),
{
    let mut nibbles: Vec<u8> = Vec::with_capacity(bytes.len() * 2);
    let mut i: usize = 0;
    while i < bytes.len()
        invariant
            i <= bytes@.len(),
            nibbles@ =~= nibbles_of(bytes@.subrange(0, i as int)),
        decreases bytes@.len() - i,
    {
        let b = bytes[i];
        proof {
            lemma_split_byte(b);
        }
        nibbles.push(b >> 4);
        nibbles.push(b & 0x0F);
        i = i + 1;
        assert(nibbles@ =~= nibbles_of(bytes@.subrange(0, i as int)));
    }
    assert(bytes@.subrange(0, i as int) =~= bytes@);
    nibbles
}

/// Packs nibbles two to a byte; an odd last nibble is padded with zero.
pub fn nibbles_to_bytes(nibbles: &[u8]) -> (r: Vec<u8>)
    ensures
        r@ == packed_of(nibbles@),
{
    let n = nibbles.len();
    let count = n / 2 + n % 2;
    let mut bytes: Vec<u8> = Vec::new();
    let mut k: usize = 0;
    while k < count
        invariant
            n == nibbles@.len(),
            count == (n + 1) / 2,
            k <= count,
            bytes@.len() == k,
            forall|j: int| 0 <= j < k ==> #[trigger] bytes@[j] == packed_of(nibbles@)[j],
        decreases count - k,
    {
        let i = 2 * k;
        if i + 1 < n {
            proof {
                lemma_pack(nibbles@[i as int], nibbles@[i + 1]);
            }
            bytes.push((nibbles[i] << 4) | nibbles[i + 1]);
            assert(packed_of(nibbles@)[k as int] == pack_pair(nibbles@[i as int], nibbles@[i + 1]));
        } else {
            proof {
                lemma_pack(nibbles@[i as int], 0);
            }
            bytes.push(nibbles[i] << 4);
            assert(packed_of(nibbles@)[k as int] == pack_pair(nibbles@[i as int], 0));
            assert((nibbles@[i as int] << 4u8) | 0u8 == nibbles@[i as int] << 4u8) by (bit_vector);
        }
        k = k + 1;
    }
    assert(bytes@ =~= packed_of(nibbles@));
    bytes
}

/// Hex-prefix (compact) encoding of a nibble path: a flag byte (0x20 for a
/// leaf, 0x10 for an odd length, holding the first nibble when odd),
/// followed by the remaining nibbles packed two to a byte.
pub fn compact_encode(nibbles: &[u8], is_leaf: bool) -> (r: Vec<u8>)
    requires
        all_nibbles(nibbles@),
    ensures
        r@ == compact_of(nibbles@, is_leaf),
{
    let mut encoded: Vec<u8> = Vec::new();
    let terminator: u8 = if is_leaf {
        0x20
    } else {
        0x00
    };
    if nibbles.len() % 2 == 0 {
        encoded.push(terminator);
        let mut packed = nibbles_to_bytes(nibbles);
        encoded.append(&mut packed);
    } else {
        encoded.push(terminator + 0x10 + nibbles[0]);
        let rest = slice_from(nibbles, 1);
        let mut packed = nibbles_to_bytes(rest.as_slice());
        assert(rest@ == nibbles@.drop_first());
        encoded.append(&mut packed);
    }
    assert(encoded@ =~= compact_of(nibbles@, is_leaf));
    encoded
}

/// Decodes a hex-prefix encoded path into its nibbles and leaf flag; an
/// empty input decodes to no nibbles and no leaf.
pub fn compact_decode(encoded: &[u8]) -> (r: (Vec<u8>, bool))
    requires
        encoded@.len() * 2 <= usize::MAX,
    ensures
        (r.0@, r.1) == decoded_of(encoded@),
{
    if encoded.len() == 0 {
        return (Vec::new(), false);
    }
    let first = encoded[0];
    proof {
        lemma_split_byte(first);
    }
    let is_leaf = (first & 0x20) != 0;
    let is_odd = (first & 0x10) != 0;
    let mut nibbles: Vec<u8> = Vec::new();
    let rest = slice_from(encoded, 1);
    assert(rest@ == encoded@.drop_first());
    let mut tail = bytes_to_nibbles(rest.as_slice());
    if is_odd {
        nibbles.push(first & 0x0F);
    }
    nibbles.append(&mut tail);
    assert(nibbles@ =~= decoded_of(encoded@).0);
    (nibbles, is_leaf)
}

/// Length of the longest common prefix of `a` and `b`.
pub fn common_prefix(a: &[u8], b: &[u8]) -> (r: usize)
    ensures
        r <= a@.len(),
        r <= b@.len(),
        a@.subrange(0, r as int) == b@.subrange(0, r as int),
        r < a@.len() && r < b@.len() ==> a@[r as int] != b@[r as int],
{
    let len = if a.len() < b.len() {
        a.len()
    } else {
        b.len()
    };
    let mut i: usize = 0;
    while i < len
        invariant
            i <= len,
            len <= a@.len(),
            len <= b@.len(),
            len == a@.len() || len == b@.len(),
            a@.subrange(0, i as int) =~= b@.subrange(0, i as int),
        decreases len - i,
    {
        if a[i] != b[i] {
            return i;
        }
        i = i + 1;
        assert(a@.subrange(0, i as int) =~= b@.subrange(0, i as int)) by {
            assert forall|j: int| 0 <= j < i implies a@[j] == b@[j] by {
                if j < i - 1 {
                    assert(a@.subrange(0, i - 1)[j] == b@.subrange(0, i - 1)[j]);
                }
            }
        }
    }
    i
}

} // verus!
