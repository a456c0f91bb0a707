//! Building strings from bytes and numbers.
use vstd::prelude::*;

verus! {

/// The chars of ASCII `bytes`, one per byte.
pub open spec fn ascii_chars(bytes: Seq<u8>) -> Seq<char> {
    bytes.map_values(|b: u8| b as char)
}

/// Relies on `String::from_utf8`: ASCII bytes are valid UTF-8, one char
/// per byte, so the call succeeds and the string holds exactly those chars.
#[verifier::external_body]
pub(crate) fn ascii_string(bytes: Vec<u8>) -> (r: String)
    requires
        forall|i: int| 0 <= i < bytes@.len() ==> #[trigger] bytes@[i] < 128,
    ensures
        r@ == ascii_chars(bytes@),
{
    String::from_utf8(bytes).unwrap()
}

/// Upper-case form of `s`, as std's `str::to_uppercase` gives it.
pub uninterp spec fn upper_of(s: Seq<char>) -> Seq<char>;

/// Relies on `str::to_uppercase`: the result depends on the chars of `s` alone.
#[verifier::external_body]
pub(crate) fn uppercase(s: &str) -> (r: String)
    ensures
        r@ == upper_of(s@),
{
    s.to_uppercase()
}

/// The ASCII decimal digits of `n`, most significant first, with no
/// leading zeros ("0" for zero).
pub open spec fn digit_bytes(n: nat) -> Seq<u8>
    decreases n,
{
    if n < 10 {
        seq![(48 + n) as u8]
    } else {
        digit_bytes(n / 10).push((48 + n % 10) as u8)
    }
}

/// The ASCII decimal rendering of `v`, with a leading '-' when negative.
pub open spec fn decimal_bytes(v: int) -> Seq<u8> {
    if v < 0 {
        seq![45u8] + digit_bytes((-v) as nat)
    } else {
        digit_bytes(v as nat)
    }
}

proof fn lemma_digits_ascii(n: nat)
    ensures
        forall|i: int| 0 <= i < digit_bytes(n).len() ==> #[trigger] digit_bytes(n)[i] < 128,
    decreases n,
{
    if n >= 10 {
        lemma_digits_ascii(n / 10);
        assert(forall|i: int| 0 <= i < digit_bytes(n / 10).len() ==> #[trigger] digit_bytes(n / 10)[i] < 128);
        assert forall|i: int| 0 <= i < digit_bytes(n).len() implies #[trigger] digit_bytes(n)[i] < 128 by {
            if i < digit_bytes(n / 10).len() {
                assert(digit_bytes(n)[i] == digit_bytes(n / 10)[i]);
            }
        }
    }
}

/// Appends the decimal digits of `n` to `out`.
fn push_digits(n: u64, out: &mut Vec<u8>)
    ensures
        final(out)@ == old(out)@ + digit_bytes(n as nat),
    decreases n,
{
    if n >= 10 {
        push_digits(n / 10, out);
    }
    out.push((48 + n % 10) as u8);
    assert(final(out)@ =~= old(out)@ + digit_bytes(n as nat)) by {
        if n >= 10 {
            assert(digit_bytes(n as nat) == digit_bytes((n / 10) as nat).push((48 + n % 10) as u8));
        }
    }
}

/// Decimal rendering of an `i32`, as `to_string` writes it.
pub fn i32_to_decimal(v: i32) -> (r: String)
    ensures
        r@ == ascii_chars(decimal_bytes(v as int)),
{
    let mut bytes: Vec<u8> = Vec::new();
    let n: u64 = if v < 0 {
        bytes.push(45u8);
        (-(v as i64)) as u64
    } else {
        v as u64
    };
    push_digits(n, &mut bytes);
    proof {
        lemma_digits_ascii(n as nat);
        assert(bytes@ =~= decimal_bytes(v as int));
    }
    ascii_string(bytes)
}

} // verus!
