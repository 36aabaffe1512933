//! Identifiers of one kind: a value plus the kind's fixed prefix.

use core::marker::PhantomData;

use crate::codec::{
    decode, decoded, encode, fresh_value, is_digit_text, lemma_payload_digits, lemma_timestamp_order,
    payload_of, sorts_before, timestamp_of, DecodeError,
};
use crate::prefix::{last_segment, lemma_last_segment_after, unprefix_id, DELIMITER};
use crate::uuid_bytes::{
    be_bytes, be_value, lemma_bytes_round_trip, lemma_value_round_trip, uuid_bytes_of_value,
    value_from_uuid_bytes,
};
use vstd::prelude::*;
use vstd::string::*;

verus! {

/// The prefix of a kind whose configuration names none.
pub const DEFAULT_PREFIX: &'static str = "entity";

/// A kind of identifier, which fixes the prefix that its identifiers are
/// written with.
pub trait EntityId {
    /// The prefix written before the payload.
    const PREFIX: &'static str;
}

/// A kind whose identifiers convert to and from UUIDs.
pub trait UuidBridge: EntityId {}

/// An identifier of kind `K`. Equality, order and hashing go by the value
/// alone; the prefix belongs to the kind.
#[derive(Debug, PartialEq, Eq, PartialOrd, Ord, Hash)]
pub struct TypedId<K> {
    value: u128,
    kind: PhantomData<K>,
}

impl<K> Clone for TypedId<K> {
    fn clone(&self) -> (r: Self)
        ensures
            r@ == self@,
    {
        TypedId { value: self.value, kind: PhantomData }
    }
}

impl<K> Copy for TypedId<K> {}

impl<K> TypedId<K> {
    /// The identifier with value `value`.
    pub closed spec fn with_value(value: u128) -> Self {
        TypedId { value, kind: PhantomData }
    }

    /// An identifier is determined by its value.
    pub proof fn lemma_with_value(value: u128)
        ensures
            Self::with_value(value)@ == value,
            forall|id: Self| #[trigger] Self::with_value(id@) == id,
    {
    }
}

impl<K> View for TypedId<K> {
    type V = u128;

    closed spec fn view(&self) -> u128 {
        self.value
    }
}

/// The text of an identifier: the prefix, the delimiter, then the payload.
pub open spec fn id_text(prefix: Seq<char>, value: u128) -> Seq<char> {
    prefix + seq![DELIMITER] + payload_of(value)
}

/// What reading `s` as an identifier gives.
pub open spec fn parsed<K>(s: Seq<char>) -> Result<TypedId<K>, DecodeError> {
    match decoded(last_segment(s)) {
        Ok(value) => Ok(TypedId::<K>::with_value(value)),
        Err(e) => Err(e),
    }
}

impl<K: EntityId> TypedId<K> {
    /// A fresh identifier: the current millisecond in the high 48 bits of its
    /// value, random bits below.
    pub fn new() -> (r: Self) {
        TypedId { value: fresh_value(), kind: PhantomData }
    }

    /// The identifier with the given value.
    pub fn from_value(value: u128) -> (r: Self)
        ensures
            r@ == value,
    {
        TypedId { value, kind: PhantomData }
    }

    /// The identifier's value.
    pub fn value(&self) -> (r: u128)
        ensures
            r == self@,
    {
        self.value
    }

    /// The prefix of kind `K`.
    pub fn prefix() -> (r: &'static str)
        ensures
            r@ == K::PREFIX@,
    {
        K::PREFIX
    }

    /// The payload alone, without prefix.
    pub fn unprefixed(&self) -> (r: String)
        ensures
            r@ == payload_of(self@),
    {
        encode(self.value)
    }

    /// The full text `{prefix}_{payload}`, with the prefix of kind `K`.
    pub fn to_string(&self) -> (r: String)
        ensures
            r@ == id_text(K::PREFIX@, self@),
    {
        self.with_prefix(K::PREFIX)
    }

    /// The text `{prefix}_{payload}` with the given prefix.
    pub fn with_prefix(&self, prefix: &str) -> (r: String)
        ensures
            r@ == id_text(prefix@, self@),
    {
        let mut text = String::from_str(prefix);
        let delimiter = "_";
        proof {
            reveal_strlit("_");
        }
        text.append(delimiter);
        let payload = encode(self.value);
        text.append(payload.as_str());
        text
    }

    /// Reads an identifier from text: the part after the last `_` is decoded,
    /// and whatever stands before it is not checked against the prefix.
    pub fn parse(s: &str) -> (r: Result<Self, DecodeError>)
        ensures
            r == parsed::<K>(s@),
    {
        match decode(unprefix_id(s)) {
            Ok(value) => Ok(TypedId { value, kind: PhantomData }),
            Err(e) => Err(e),
        }
    }
}

impl<K: EntityId> core::str::FromStr for TypedId<K> {
    type Err = DecodeError;

    fn from_str(s: &str) -> (r: Result<Self, DecodeError>)
        ensures
            r == parsed::<K>(s@),
    {
        Self::parse(s)
    }
}

impl<'a, K: EntityId> TryFrom<&'a str> for TypedId<K> {
    type Error = DecodeError;

    fn try_from(value: &'a str) -> Result<Self, DecodeError> {
        Self::parse(value)
    }
}

impl<'a, K: EntityId> vstd::std_specs::convert::TryFromSpecImpl<&'a str> for TypedId<K> {
    open spec fn obeys_try_from_spec() -> bool {
        true
    }

    open spec fn try_from_spec(v: &'a str) -> Result<Self, DecodeError> {
        parsed::<K>(v@)
    }
}

impl<K: EntityId> vstd::std_specs::convert::TryFromSpecImpl<String> for TypedId<K> {
    open spec fn obeys_try_from_spec() -> bool {
        true
    }

    open spec fn try_from_spec(v: String) -> Result<Self, DecodeError> {
        parsed::<K>(v@)
    }
}

impl<K: EntityId> TryFrom<String> for TypedId<K> {
    type Error = DecodeError;

    fn try_from(value: String) -> Result<Self, DecodeError> {
        Self::parse(value.as_str())
    }
}

impl<K: UuidBridge> TypedId<K> {
    /// The identifier whose value has the given UUID bytes, most significant
    /// first.
    pub fn from_uuid(bytes: [u8; 16]) -> (r: Self)
        ensures
            r@ == be_value(bytes@),
    {
        TypedId { value: value_from_uuid_bytes(bytes), kind: PhantomData }
    }

    /// The identifier's value as UUID bytes, most significant first.
    pub fn to_uuid(&self) -> (r: [u8; 16])
        ensures
            r@ == be_bytes(self@),
    {
        uuid_bytes_of_value(self.value)
    }
}

/// Parsing the text of an identifier gives the identifier back, whatever the
/// prefix, underscores in it included.
pub proof fn lemma_text_round_trip<K>(prefix: Seq<char>, id: TypedId<K>)
    ensures
        parsed::<K>(id_text(prefix, id@)) == Ok::<TypedId<K>, DecodeError>(id),
{
    let value = id@;
    TypedId::<K>::lemma_with_value(value);
    crate::codec::lemma_round_trip(value);
    let p = payload_of(value);
    assert(!p.contains(DELIMITER)) by {
        if p.contains(DELIMITER) {
            let i = choose|i: int| 0 <= i < p.len() && p[i] == DELIMITER;
            assert(is_digit_text(p));
            assert(0 <= crate::codec::digit_value(p[i]));
        }
    }
    lemma_last_segment_after(prefix, p);
}

/// Taking an identifier to UUID bytes and back gives the identifier; taking
/// UUID bytes to an identifier and back gives the bytes.
pub proof fn lemma_uuid_round_trip<K>(id: TypedId<K>, bytes: Seq<u8>)
    requires
        bytes.len() == 16,
    ensures
        TypedId::<K>::with_value(be_value(be_bytes(id@)) as u128) == id,
        be_bytes(TypedId::<K>::with_value(be_value(bytes) as u128)@) == bytes,
{
    TypedId::<K>::lemma_with_value(id@);
    TypedId::<K>::lemma_with_value(be_value(bytes) as u128);
    lemma_bytes_round_trip(id@);
    lemma_value_round_trip(bytes);
}

/// Identifiers of one kind stamped at an earlier millisecond have texts that
/// sort first.
pub proof fn lemma_text_order(prefix: Seq<char>, v1: u128, v2: u128)
    requires
        timestamp_of(v1) < timestamp_of(v2),
    ensures
        sorts_before(id_text(prefix, v1), id_text(prefix, v2)),
{
    lemma_timestamp_order(v1, v2);
    lemma_payload_digits(v1);
    lemma_payload_digits(v2);
    let a = payload_of(v1);
    let b = payload_of(v2);
    let head = prefix + seq![DELIMITER];
    let j = choose|j: int|
        0 <= j < a.len() && j < b.len() && a.take(j) == b.take(j) && (a[j] as u32) < (#[trigger] b[j] as u32);
    let ta = id_text(prefix, v1);
    let tb = id_text(prefix, v2);
    let k = head.len() + j;
    assert(ta.take(k) =~= head + a.take(j));
    assert(tb.take(k) =~= head + b.take(j));
    assert(ta[k] == a[j]);
    assert(tb[k] == b[j]);
}

} // verus!
