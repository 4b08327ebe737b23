use vstd::prelude::*;
use std::collections::hash_map::DefaultHasher;
use std::hash::Hasher;
use vstd::std_specs::hash::DefaultHasherAdditionalSpecFns;

verus! {

/// An identifier of a block, a connection or a wire segment.
///
/// It stores a pre-hashed random UUID so that table lookups stay cheap.
#[derive(Debug, Default, Copy, Clone, PartialEq, Eq, Structural, PartialOrd, Ord, Hash)]
pub struct Id(pub u64);

/// The bytes of a freshly generated random (version 4) UUID.
///
/// Calls `uuid::Uuid::new_v4` and returns its 16 bytes (`into_bytes`). The
/// bytes are random; the contract claims only what `new_v4` fixes: the high
/// nibble of byte 6 is the version (4) and the two top bits of byte 8 are
/// the RFC 4122 variant (`0b10`).
#[verifier::external_body]
fn random_uuid_bytes() -> (bytes: [u8; 16])
    ensures
        bytes@[6] / 16 == 4,
        bytes@[8] / 64 == 2,
{
    uuid::Uuid::new_v4().into_bytes()
}

/// The identifiers that `Id::new` can produce: the hash of the bytes of one
/// version 4 UUID.
pub open spec fn is_hashed_uuid(value: u64) -> bool {
    exists|bytes: Seq<u8>|
        {
            &&& bytes.len() == 16
            &&& bytes[6] / 16 == 4
            &&& bytes[8] / 64 == 2
            &&& value == DefaultHasher::spec_finish(seq![bytes])
        }
}

impl Id {
    /// A new random identifier: the default hash of a random UUID.
    pub fn new() -> (id: Self)
        ensures
            is_hashed_uuid(id.0),
    {
        let bytes = random_uuid_bytes();
        let mut hasher = DefaultHasher::new();
        let slice = bytes.as_slice();
        hasher.write(slice);
        let value = hasher.finish();
        proof {
            assert(slice@ == bytes@);
            assert(seq![bytes@] =~= Seq::<Seq<u8>>::empty().push(slice@));
            assert(bytes@.len() == 16);
            assert(is_hashed_uuid(value)) by {
                let b = bytes@;
                assert(b.len() == 16 && b[6] / 16 == 4 && b[8] / 64 == 2 && value
                    == DefaultHasher::spec_finish(seq![b]));
            }
        }
        Id(value)
    }

    /// The identifier that refers to nothing.
    pub fn empty() -> (id: Self)
        ensures
            id.0 == 0,
    {
        Id(0)
    }

    /// The raw value.
    pub fn value(&self) -> (v: u64)
        ensures
            v == self.0,
    {
        self.0
    }
}

} // verus!
