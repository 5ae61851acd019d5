//! The fixed-size digest value that every node of the accumulator holds.

use vstd::prelude::*;

verus! {

/// A fixed-length opaque byte value: the output of one of the supported hash
/// algorithms. Equality is byte-wise; a digest carries no further structure.
#[derive(Clone, Copy, Debug)]
pub struct Digest {
    bytes: [u8; 32],
}

impl View for Digest {
    type V = Seq<u8>;

    closed spec fn view(&self) -> Seq<u8> {
        self.bytes@
    }
}

impl Digest {
    /// Wraps raw bytes as a digest value.
    pub fn from_bytes(bytes: [u8; 32]) -> (d: Digest)
        ensures
            d@ == bytes@,
    {
        Digest { bytes }
    }

    /// The raw bytes of the digest.
    pub fn as_bytes(&self) -> (b: &[u8; 32])
        ensures
            b@ == self@,
    {
        &self.bytes
    }

    /// Byte-wise equality of two digests.
    pub fn equals(&self, other: &Digest) -> (r: bool)
        ensures
            r <==> self@ == other@,
    {
        let mut i: usize = 0;
        while i < 32
            invariant
                i <= 32,
                forall|j: int| 0 <= j < i ==> self.bytes@[j] == other.bytes@[j],
            decreases 32 - i,
        {
            if self.bytes[i] != other.bytes[i] {
                return false;
            }
            i += 1;
        }
        proof {
            assert(self.bytes@ =~= other.bytes@);
        }
        true
    }
}

impl PartialEq for Digest {
    fn eq(&self, other: &Digest) -> (r: bool) {
        self.equals(other)
    }
}

impl Eq for Digest {
}

impl vstd::std_specs::cmp::PartialEqSpecImpl for Digest {
    open spec fn obeys_eq_spec() -> bool {
        true
    }

    open spec fn eq_spec(&self, other: &Digest) -> bool {
        self@ == other@
    }
}

/// Every digest views as exactly 32 bytes; both supported algorithms
/// produce digests of that size.
pub broadcast proof fn lemma_digest_len(d: Digest)
    ensures
        #[trigger] d@.len() == 32,
{
}

/// The views of a sequence of digests, as plain byte sequences.
pub open spec fn digests_view(ds: Seq<Digest>) -> Seq<Seq<u8>> {
    ds.map_values(|d: Digest| d@)
}

} // verus!
