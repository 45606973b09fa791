//! Time-ordered 128-bit identifiers for events and questions.
//!
//! An identifier is an opaque 128-bit value whose top 48 bits hold the
//! creation time in milliseconds since the Unix epoch; the remaining 80 bits
//! are random. The textual form is 26 characters of Crockford base32.
//! Generation, parsing and printing go through the `ulid` crate; the
//! embedded timestamp is read out arithmetically.

use vstd::prelude::*;

verus! {

/// What `ulid::Ulid::from_string` yields on a given string: `Some` of the
/// decoded 128-bit value for a well-formed encoding, `None` otherwise.
pub uninterp spec fn ulid_decoded(s: Seq<char>) -> Option<u128>;

/// What `ulid::Ulid::to_string` yields on a given 128-bit value.
pub uninterp spec fn ulid_encoded(bits: u128) -> Seq<char>;

/// A time-ordered identifier for an event or a question.
#[derive(Debug, Clone, Copy, PartialEq, Eq, Structural)]
pub struct Id {
    pub bits: u128,
}

/// The creation time embedded in an identifier, in milliseconds since the
/// Unix epoch: the top 48 of its 128 bits.
pub open spec fn id_timestamp_ms(bits: u128) -> u64 {
    (bits >> 80) as u64
}

impl Id {
    /// Relies on `ulid::Ulid::new`: a fresh identifier drawn from the clock
    /// and a random source. Nothing is promised of its value.
    #[verifier::external_body]
    pub fn generate() -> Id {
        Id { bits: ulid::Ulid::new().0 }
    }

    /// Relies on `ulid::Ulid::from_string`: Crockford base32 decoding, which
    /// succeeds or fails as a function of the characters alone.
    #[verifier::external_body]
    pub fn parse(s: &str) -> (r: Option<Id>)
        ensures
            r is Some <==> ulid_decoded(s@) is Some,
            r matches Some(id) ==> ulid_decoded(s@) == Some(id.bits),
    {
        match ulid::Ulid::from_string(s) {
            Ok(u) => Some(Id { bits: u.0 }),
            Err(_) => None,
        }
    }

    /// Relies on `ulid::Ulid::to_string`: always 26 Crockford base32
    /// characters, and `ulid::Ulid::from_string` decodes them back to the
    /// same value (the encoding is lossless).
    #[verifier::external_body]
    pub fn encode(&self) -> (r: String)
        ensures
            r@ == ulid_encoded(self.bits),
            r@.len() == 26,
            ulid_decoded(r@) == Some(self.bits),
    {
        ulid::Ulid(self.bits).to_string()
    }

    /// The creation time embedded in this identifier, in milliseconds since
    /// the Unix epoch.
    pub fn timestamp_ms(&self) -> (r: u64)
        ensures
            r == id_timestamp_ms(self.bits),
    {
        (self.bits >> 80) as u64
    }
}

} // verus!
