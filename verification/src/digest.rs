//! Content digests: 32 bytes of Keccak-256.

use vstd::prelude::*;

verus! {

broadcast use vstd::array::group_array_axioms;

/// A 32-byte content digest.
#[derive(Clone, Copy, Debug, Hash)]
pub struct Digest(pub [u8; 32]);

impl Digest {
    /// The digest whose 32 bytes all equal `byte`.
    pub fn repeat_byte(byte: u8) -> (r: Digest)
        ensures
            r.0@ == Seq::new(32, |i: int| byte),
    {
        let r = Digest([byte; 32]);
        assert(r.0@ =~= Seq::new(32, |i: int| byte));
        r
    }

    /// The all-zero digest.
    pub fn zero() -> (r: Digest)
        ensures
            r.0@ == Seq::new(32, |i: int| 0u8),
    {
        Digest::repeat_byte(0)
    }
}

impl PartialEq for Digest {
    fn eq(&self, other: &Digest) -> (r: bool) {
        let mut i: usize = 0;
        while i < 32
            invariant
                i <= 32,
                forall|j: int| 0 <= j < i ==> self.0@[j] == other.0@[j],
            decreases 32 - i,
        {
            if self.0[i] != other.0[i] {
                return false;
            }
            i = i + 1;
        }
        assert(self.0@ =~= other.0@);
        assert(self.0 =~= other.0);
        true
    }
}

impl vstd::std_specs::cmp::PartialEqSpecImpl for Digest {
    open spec fn obeys_eq_spec() -> bool {
        true
    }

    open spec fn eq_spec(&self, other: &Digest) -> bool {
        *self == *other
    }
}

impl Eq for Digest {
}

/// What Keccak-256 gives for `data`.
pub uninterp spec fn keccak256_of(data: Seq<u8>) -> Seq<u8>;

/// `alloy_primitives::keccak256`: the 32-byte Keccak-256 hash of `data`, taken
/// here as the named function `keccak256_of` of the bytes (the hash itself is
/// not restated).
#[verifier::external_body]
pub(crate) fn keccak256(data: &[u8]) -> (r: Digest)
    ensures
        r.0@ == keccak256_of(data@),
{
    Digest(alloy_primitives::keccak256(data).0)
}

} // verus!
