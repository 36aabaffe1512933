//! The 128-bit identifier value and its 26-character base-32 payload.

use crate::radix::{digits_in_range, lemma_digits_of_value, lemma_digits_order, lemma_radix_value_bound, lemma_value_of_digits, place, radix_digits, radix_value};
use vstd::arithmetic::div_mod::*;
use vstd::arithmetic::power2::*;
use vstd::prelude::*;
use vstd::string::*;

verus! {

/// Number of characters in a payload.
pub const PAYLOAD_LEN: usize = 26;

/// Why a payload could not be decoded.
#[derive(Debug, Clone, Copy, PartialEq, Eq, Hash)]
pub enum DecodeError {
    /// The payload is not 26 characters long.
    InvalidLength,
    /// A character lies outside the base-32 alphabet.
    InvalidCharacter,
    /// The digits denote a number that needs more than 128 bits.
    Overflow,
}

/// The lowercase character of base-32 digit `d` (`0..32`): the digits and the
/// letters without `i`, `l`, `o` and `u`.
pub open spec fn digit_char(d: int) -> char {
    let code: int = if d < 10 {
        48 + d
    } else if d < 18 {
        87 + d
    } else if d < 20 {
        88 + d
    } else if d < 22 {
        89 + d
    } else if d < 27 {
        90 + d
    } else {
        91 + d
    };
    (code as u32) as char
}

/// The uppercase character of base-32 digit `d`.
pub open spec fn upper_digit_char(d: int) -> char {
    if d < 10 {
        digit_char(d)
    } else {
        ((digit_char(d) as u32 - 32) as u32) as char
    }
}

/// The digit of a lowercase letter, counted from `a`; -1 for `i`, `l`, `o`, `u`.
pub open spec fn letter_value(k: int) -> int {
    if k < 8 {
        k + 10
    } else if k == 8 {
        -1
    } else if k < 11 {
        k + 9
    } else if k == 11 {
        -1
    } else if k < 14 {
        k + 8
    } else if k == 14 {
        -1
    } else if k < 20 {
        k + 7
    } else if k == 20 {
        -1
    } else {
        k + 6
    }
}

/// The digit that `c` stands for, in either case; -1 outside the alphabet.
pub open spec fn digit_value(c: char) -> int {
    let u = c as int;
    if 48 <= u <= 57 {
        u - 48
    } else if 65 <= u <= 90 {
        letter_value(u - 65)
    } else if 97 <= u <= 122 {
        letter_value(u - 97)
    } else {
        -1
    }
}

/// ASCII lowercasing of one character.
pub open spec fn lower_ascii(c: char) -> char {
    if 'A' <= c <= 'Z' {
        ((c as u32 + 32) as u32) as char
    } else {
        c
    }
}

/// Every character of `s` is a base-32 digit.
pub open spec fn is_digit_text(s: Seq<char>) -> bool {
    forall|i: int| 0 <= i < s.len() ==> 0 <= digit_value(#[trigger] s[i])
}

/// The digits that the characters of `s` stand for.
pub open spec fn digits_of(s: Seq<char>) -> Seq<int> {
    s.map_values(|c: char| digit_value(c))
}

/// The number that a text of base-32 digits denotes.
pub open spec fn text_value(s: Seq<char>) -> int {
    radix_value(digits_of(s), 5)
}

/// The payload of `v`: its 26 base-32 digits in lowercase, most significant first.
pub open spec fn payload_of(v: u128) -> Seq<char> {
    radix_digits(v as int, 5, 26).map_values(|d: int| digit_char(d))
}

/// The payload of `v` in uppercase.
pub open spec fn upper_payload_of(v: u128) -> Seq<char> {
    radix_digits(v as int, 5, 26).map_values(|d: int| upper_digit_char(d))
}

/// What decoding `s` gives.
pub open spec fn decoded(s: Seq<char>) -> Result<u128, DecodeError> {
    if s.len() != PAYLOAD_LEN {
        Err(DecodeError::InvalidLength)
    } else if !is_digit_text(s) {
        Err(DecodeError::InvalidCharacter)
    } else if text_value(s) > u128::MAX {
        Err(DecodeError::Overflow)
    } else {
        Ok(text_value(s) as u128)
    }
}

/// The millisecond timestamp held in the high 48 bits of `v`.
pub open spec fn timestamp_of(v: u128) -> int {
    v as int / pow2(80) as int
}

/// `a` sorts strictly before `b`, character by character.
pub open spec fn sorts_before(a: Seq<char>, b: Seq<char>) -> bool {
    ||| exists|j: int|
        0 <= j < a.len() && j < b.len() && a.take(j) == b.take(j) && (a[j] as u32) < (#[trigger] b[j] as u32)
    ||| a.len() < b.len() && a == b.take(a.len() as int)
}

/// Relies on ulid::Ulid::new: the current time in milliseconds in the high 48
/// bits and random bits below. Nothing is known of the value in advance.
#[verifier::external_body]
pub(crate) fn fresh_value() -> (r: u128) {
    ulid::Ulid::new().0
}

/// Relies on ulid::Ulid::to_string: the 26 base-32 digits of the value in
/// uppercase, most significant first.
#[verifier::external_body]
fn upper_text(value: u128) -> (r: String)
    ensures
        r@ == upper_payload_of(value),
{
    ulid::Ulid(value).to_string()
}

/// Relies on str::to_ascii_lowercase: `A` to `Z` become `a` to `z`, every other
/// character stays.
#[verifier::external_body]
fn ascii_lowercase(s: &str) -> (r: String)
    ensures
        r@ == s@.map_values(|c: char| lower_ascii(c)),
{
    s.to_ascii_lowercase()
}

/// Relies on ulid::Ulid::from_string: a length other than 26 is refused first,
/// then a character outside the alphabet; otherwise the digits are shifted in
/// five bits at a time, and bits beyond 128 fall off.
#[verifier::external_body]
fn ulid_decode(s: &str) -> (r: Result<u128, DecodeError>)
    requires
        is_ascii(s),
    ensures
        r == (if s@.len() != PAYLOAD_LEN {
            Err(DecodeError::InvalidLength)
        } else if !is_digit_text(s@) {
            Err(DecodeError::InvalidCharacter)
        } else {
            Ok((text_value(s@) % (u128::MAX as int + 1)) as u128)
        }),
{
    match ulid::Ulid::from_string(s) {
        Ok(u) => Ok(u.0),
        Err(ulid::DecodeError::InvalidLength) => Err(DecodeError::InvalidLength),
        Err(ulid::DecodeError::InvalidChar) => Err(DecodeError::InvalidCharacter),
    }
}

/// Facts on the alphabet: each digit's character is read back as that digit,
/// lowercasing the uppercase character gives the lowercase one, and the
/// characters rise with the digits.
pub proof fn lemma_alphabet()
    ensures
        forall|d: int| 0 <= d < 32 ==> #[trigger] digit_value(digit_char(d)) == d,
        forall|d: int| 0 <= d < 32 ==> #[trigger] lower_ascii(upper_digit_char(d)) == digit_char(d),
        forall|d1: int, d2: int|
            0 <= d1 < d2 < 32 ==> (#[trigger] digit_char(d1) as u32) < (#[trigger] digit_char(d2) as u32),
{
}

/// The sizes involved: 25 digits after the first one weigh `2^125`, and eight
/// times that is the first number beyond `u128`.
proof fn lemma_value_space()
    ensures
        place(5, 25) * 8 == u128::MAX as int + 1,
        place(5, 26) == place(5, 25) * 32,
        place(5, 25) > 0,
        pow2(80) > 0,
{
    lemma2_to64();
    lemma_pow2_adds(64, 64);
    lemma_pow2_adds(125, 3);
    lemma_pow2_adds(125, 5);
    lemma_pow2_pos(125);
    lemma_pow2_pos(80);
    assert((5 * 25int) as nat == 125nat);
    assert((5 * 26int) as nat == 130nat);
}

/// The digits of a value, in range, with the value they denote.
pub proof fn lemma_payload_digits(v: u128)
    ensures
        digits_in_range(radix_digits(v as int, 5, 26), 5),
        radix_value(radix_digits(v as int, 5, 26), 5) == v,
        digits_of(payload_of(v)) == radix_digits(v as int, 5, 26),
        payload_of(v).len() == PAYLOAD_LEN,
        is_digit_text(payload_of(v)),
{
    lemma_value_space();
    lemma_value_of_digits(v as int, 5, 26);
    lemma_alphabet();
    lemma2_to64();
    let ds = radix_digits(v as int, 5, 26);
    assert(digits_of(payload_of(v)) =~= ds);
    assert forall|i: int| 0 <= i < payload_of(v).len() implies 0 <= digit_value(#[trigger] payload_of(v)[i]) by {
        assert(digit_value(payload_of(v)[i]) == ds[i]);
    }
}

/// Decoding the payload of a value gives that value back.
pub proof fn lemma_round_trip(v: u128)
    ensures
        decoded(payload_of(v)) == Ok::<u128, DecodeError>(v),
{
    lemma_payload_digits(v);
}

/// The numeric order of values is the order of their payloads.
pub proof fn lemma_payload_order(v1: u128, v2: u128)
    requires
        v1 < v2,
    ensures
        sorts_before(payload_of(v1), payload_of(v2)),
{
    lemma_value_space();
    lemma_alphabet();
    lemma2_to64();
    let j = lemma_digits_order(v1 as int, v2 as int, 5, 26);
    lemma_value_of_digits(v1 as int, 5, 26);
    lemma_value_of_digits(v2 as int, 5, 26);
    let d1 = radix_digits(v1 as int, 5, 26);
    let d2 = radix_digits(v2 as int, 5, 26);
    let a = payload_of(v1);
    let b = payload_of(v2);
    assert(a.take(j) =~= b.take(j)) by {
        assert forall|i: int| 0 <= i < j implies a.take(j)[i] == b.take(j)[i] by {
            assert(d1.take(j)[i] == d2.take(j)[i]);
        }
    }
    assert((a[j] as u32) < (b[j] as u32));
}

/// A value stamped at an earlier millisecond is smaller, and so is its payload.
pub proof fn lemma_timestamp_order(v1: u128, v2: u128)
    requires
        timestamp_of(v1) < timestamp_of(v2),
    ensures
        v1 < v2,
        sorts_before(payload_of(v1), payload_of(v2)),
{
    lemma_value_space();
    if v1 >= v2 {
        lemma_div_is_ordered(v2 as int, v1 as int, pow2(80) as int);
    }
    lemma_payload_order(v1, v2);
}

/// Renders `value` as its payload: 26 lowercase base-32 digits, most
/// significant first.
pub fn encode(value: u128) -> (r: String)
    ensures
        r@ == payload_of(value),
{
    let upper = upper_text(value);
    let r = ascii_lowercase(upper.as_str());
    proof {
        lemma_payload_digits(value);
        lemma_alphabet();
        lemma2_to64();
        assert(r@ =~= payload_of(value));
    }
    r
}

/// Reads a payload back into its value, in either case.
pub fn decode(payload: &str) -> (r: Result<u128, DecodeError>)
    ensures
        r == decoded(payload@),
{
    if payload.unicode_len() != PAYLOAD_LEN {
        return Err(DecodeError::InvalidLength);
    }
    if !payload.is_ascii() {
        proof {
            let i = choose|i: int| 0 <= i < payload@.len() && !('\0' <= #[trigger] payload@[i] <= '\u{7f}');
            assert(digit_value(payload@[i]) < 0);
        }
        return Err(DecodeError::InvalidCharacter);
    }
    match ulid_decode(payload) {
        Err(e) => Err(e),
        Ok(v) => {
            let first = payload.get_char(0);
            proof {
                let s = payload@;
                let ds = digits_of(s);
                let t = text_value(s);
                lemma_value_space();
                lemma2_to64();
                assert(digits_in_range(ds, 5)) by {
                    assert forall|i: int| 0 <= i < ds.len() implies 0 <= #[trigger] ds[i] < pow2(5) by {
                        assert(0 <= digit_value(s[i]));
                    }
                }
                lemma_digits_of_value(ds, 5);
                lemma_radix_value_bound(ds, 5);
                assert(ds[0] == radix_digits(t, 5, 26)[0]);
                let p = place(5, 25);
                lemma_fundamental_div_mod(t, p);
                lemma_mod_bound(t, p);
                lemma_div_pos_is_pos(t, p);
                lemma_multiply_divide_lt(t, p, 32);
                lemma_small_mod((t / p) as nat, 32);
                assert(ds[0] == t / p);
                assert(ds[0] == digit_value(first));
                if t <= u128::MAX {
                    lemma_small_mod(t as nat, u128::MAX as nat + 1);
                    lemma_multiply_divide_lt(t, p, 8);
                    assert(first <= '7');
                } else {
                    let q = t / p;
                    assert(q >= 8) by {
                        if q < 8 {
                            assert(p * q + t % p < p * 8) by (nonlinear_arith)
                                requires
                                    q < 8,
                                    0 <= t % p < p,
                            ;
                        }
                    }
                    assert(!(first <= '7'));
                }
            }
            if first <= '7' {
                Ok(v)
            } else {
                Err(DecodeError::Overflow)
            }
        }
    }
}

} // verus!
