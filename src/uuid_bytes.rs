//! The value as 16 big-endian bytes, the layout of a UUID.

use crate::radix::{lemma_digits_of_value, lemma_value_of_digits, place, radix_digits, radix_value};
use vstd::arithmetic::power2::*;
use vstd::prelude::*;

verus! {

/// The number that `b` denotes, most significant byte first.
pub open spec fn be_value(b: Seq<u8>) -> int {
    radix_value(b.map_values(|x: u8| x as int), 8)
}

/// The 16 bytes of `v`, most significant first.
pub open spec fn be_bytes(v: u128) -> Seq<u8> {
    radix_digits(v as int, 8, 16).map_values(|d: int| d as u8)
}

/// Relies on uuid::Uuid::from_bytes and on ulid's `From<Uuid> for Ulid`, which
/// takes `Uuid::as_u128`: the bytes read as a big-endian number.
#[verifier::external_body]
pub(crate) fn value_from_uuid_bytes(bytes: [u8; 16]) -> (r: u128)
    ensures
        r == be_value(bytes@),
{
    ulid::Ulid::from(uuid::Uuid::from_bytes(bytes)).0
}

/// Relies on ulid's `From<Ulid> for Uuid`, which is `Uuid::from_u128`, and on
/// uuid::Uuid::into_bytes: the value's bytes, most significant first.
#[verifier::external_body]
pub(crate) fn uuid_bytes_of_value(value: u128) -> (r: [u8; 16])
    ensures
        r@ == be_bytes(value),
{
    uuid::Uuid::from(ulid::Ulid(value)).into_bytes()
}

proof fn lemma_byte_space()
    ensures
        place(8, 16) == u128::MAX as int + 1,
        pow2(8) == 256,
{
    lemma2_to64();
    lemma_pow2_adds(64, 64);
    assert((8 * 16int) as nat == 128nat);
}

/// Reading the bytes of a value gives the value back.
pub proof fn lemma_bytes_round_trip(v: u128)
    ensures
        be_bytes(v).len() == 16,
        be_value(be_bytes(v)) == v,
{
    lemma_byte_space();
    lemma_value_of_digits(v as int, 8, 16);
    let ds = radix_digits(v as int, 8, 16);
    assert(be_bytes(v).map_values(|x: u8| x as int) =~= ds);
}

/// Sixteen bytes are the bytes of the value they denote.
pub proof fn lemma_value_round_trip(b: Seq<u8>)
    requires
        b.len() == 16,
    ensures
        0 <= be_value(b) <= u128::MAX,
        be_bytes(be_value(b) as u128) == b,
{
    lemma_byte_space();
    let ds = b.map_values(|x: u8| x as int);
    assert forall|i: int| 0 <= i < ds.len() implies 0 <= #[trigger] ds[i] < pow2(8) by {}
    crate::radix::lemma_radix_value_bound(ds, 8);
    lemma_digits_of_value(ds, 8);
    assert(be_bytes(be_value(b) as u128) =~= b);
}

} // verus!
