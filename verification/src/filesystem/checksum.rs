//! Checksum algorithms that the header can name for entry names.
//!
//! The algorithms themselves live in outside crates; each is reached
//! through one trusted wrapper whose result is given a name, and
//! [`Checksum::checksum`] is specified exactly in terms of those names.

use vstd::prelude::*;
use std::hash::Hasher;

verus! {

/// The checksum a `u8` slice hashes to under `seahash`.
pub uninterp spec fn seahash_of(data: Seq<u8>) -> u64;

/// The checksum a `u8` slice hashes to under an unkeyed SipHash.
pub uninterp spec fn siphash_of(data: Seq<u8>) -> u64;

/// The checksum a `u8` slice hashes to under XXH3.
pub uninterp spec fn xxh3_of(data: Seq<u8>) -> u64;

/// Relies on `seahash::SeaHasher::new`, `Hasher::write` and
/// `Hasher::finish`: the streaming seahash of the bytes under the
/// crate's fixed default seeds, a function of the bytes alone.
#[verifier::external_body]
fn seahash_checksum(data: &[u8]) -> (r: u64)
    ensures
        r == seahash_of(data@),
{
    let mut hasher = seahash::SeaHasher::new();
    hasher.write(data);
    hasher.finish()
}

/// Relies on `siphasher::sip::SipHasher::new` and `SipHasher::hash`: a
/// SipHash with the all-zero key, a function of the bytes alone.
#[verifier::external_body]
fn siphash_checksum(data: &[u8]) -> (r: u64)
    ensures
        r == siphash_of(data@),
{
    siphasher::sip::SipHasher::new().hash(data)
}

/// Relies on `xxhash_rust::xxh3::Xxh3::new`, `Hasher::write` and
/// `Hasher::finish`: an unseeded XXH3 of the bytes, a function of the
/// bytes alone.
#[verifier::external_body]
fn xxh3_checksum(data: &[u8]) -> (r: u64)
    ensures
        r == xxh3_of(data@),
{
    let mut hasher = xxhash_rust::xxh3::Xxh3::new();
    hasher.write(data);
    hasher.finish()
}

#[derive(Debug, Clone, Copy, PartialEq, Eq, Hash, Structural)]
/// Which checksum the store applies to entry names.
pub enum Checksum {
    Off,
    Seahash,
    Siphash,
    Xxh3,
}

impl Checksum {
    /// Checksum of `data` under the selected algorithm; `Checksum::Off`
    /// checks nothing and yields 0.
    pub fn checksum(&self, data: &[u8]) -> (r: u64)
        ensures
            r == match *self {
                Checksum::Off => 0u64,
                Checksum::Seahash => seahash_of(data@),
                Checksum::Siphash => siphash_of(data@),
                Checksum::Xxh3 => xxh3_of(data@),
            },
    {
        match self {
            Checksum::Off => 0,
            Checksum::Seahash => seahash_checksum(data),
            Checksum::Siphash => siphash_checksum(data),
            Checksum::Xxh3 => xxh3_checksum(data),
        }
    }
}

} // verus!
