//! Migration identifiers and their durable byte form.
use vstd::arithmetic::power2::pow2;
use vstd::prelude::*;

verus! {

/// A migration identifier: a 128-bit value, unique over every migration ever
/// written.
pub type MigrationId = u128;

/// The big-endian bytes of `v`, most significant byte first.
pub open spec fn be_bytes(v: u128) -> Seq<u8> {
    Seq::new(16, |i: int| ((v as int / pow2((8 * (15 - i)) as nat) as int) % 256) as u8)
}

/// The number that `s` spells in big-endian order.
pub open spec fn be_value(s: Seq<u8>) -> nat
    decreases s.len(),
{
    if s.len() == 0 {
        0
    } else {
        be_value(s.drop_last()) * 256 + s.last() as nat
    }
}

/// The identifier that a stored record holds, if the record has the length of
/// one.
pub open spec fn decoded_id(b: Seq<u8>) -> Option<MigrationId> {
    if b.len() == 16 {
        Some(be_value(b) as u128)
    } else {
        None
    }
}

/// Relies on `uuid::Uuid::from_u128` and `Uuid::as_bytes`: the identifier's
/// sixteen bytes, big-endian.
#[verifier::external_body]
fn uuid_bytes(id: u128) -> (r: Vec<u8>)
    ensures
        r@ == be_bytes(id),
{
    uuid::Uuid::from_u128(id).as_bytes().to_vec()
}

/// Relies on `uuid::Uuid::from_slice` and `Uuid::as_u128`: a slice of exactly
/// sixteen bytes is read big-endian, any other length is refused.
#[verifier::external_body]
fn uuid_from_bytes(b: &[u8]) -> (r: Option<u128>)
    ensures
        r == decoded_id(b@),
{
    uuid::Uuid::from_slice(b).ok().map(|u| u.as_u128())
}

/// The form in which an identifier is recorded in the store's applied-set
/// table.
pub fn id_to_record(id: MigrationId) -> (r: Vec<u8>)
    ensures
        r@ == be_bytes(id),
        r@.len() == 16,
{
    uuid_bytes(id)
}

/// Reads an identifier back from its recorded form; `None` where the record
/// does not have the length of an identifier.
pub fn id_from_record(b: &[u8]) -> (r: Option<MigrationId>)
    ensures
        r == decoded_id(b@),
        r.is_some() <==> b@.len() == 16,
{
    uuid_from_bytes(b)
}

} // verus!
