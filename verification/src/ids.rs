//! Identifiers of users and games: 128-bit values, drawn at random when new.
use vstd::prelude::*;

verus! {

/// A random version-4 UUID as a number: bits 76 to 79 (the version) hold 4, and bits 62 and
/// 63 (the variant) hold the pattern `10` of RFC 4122.
pub open spec fn is_random_uuid(value: u128) -> bool {
    &&& (value >> 76u128) & 0xfu128 == 4u128
    &&& (value >> 62u128) & 3u128 == 2u128
}

/// A fresh random 128-bit identifier.
///
/// Calls `uuid::Uuid::new_v4` and returns the identifier as a number (`Uuid::as_u128`, which
/// reads the sixteen bytes most significant first). `new_v4` fills the bytes from the operating
/// system's random source, then sets the version nibble of byte 6 to 4 and the top two bits of
/// byte 8 to `10`; that much is stated, and the other bits are random.
#[verifier::external_body]
fn random_id() -> (r: u128)
    ensures
        is_random_uuid(r),
{
    uuid::Uuid::new_v4().as_u128()
}

#[derive(Clone, Copy, Debug, PartialEq, Eq, Hash, Structural)]
pub struct UserId {
    pub value: u128,
}

impl UserId {
    /// A fresh random identifier: a version-4 UUID.
    pub fn new() -> (r: UserId)
        ensures
            is_random_uuid(r.value),
    {
        UserId { value: random_id() }
    }

    /// The identifier that belongs to nobody.
    pub fn null() -> (r: UserId)
        ensures
            r.value == 0,
    {
        UserId { value: 0 }
    }
}

#[derive(Clone, Copy, Debug, PartialEq, Eq, Hash, Structural)]
pub struct GameId {
    pub value: u128,
}

impl GameId {
    /// A fresh random identifier: a version-4 UUID.
    pub fn new() -> (r: GameId)
        ensures
            is_random_uuid(r.value),
    {
        GameId { value: random_id() }
    }
}

} // verus!
