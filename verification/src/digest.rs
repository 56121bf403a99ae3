use vstd::prelude::*;
use crate::key::same_bytes;

verus! {

/// The BLAKE2b digest of 32 bytes of a byte string.
pub uninterp spec fn blake2b_256(data: Seq<u8>) -> Seq<u8>;

/// Calls `blake2::Blake2b256::digest`: the 32-byte BLAKE2b digest of the
/// data, a function of the data alone.
#[verifier::external_body]
fn blake2b(data: &[u8]) -> (out: [u8; 32])
    ensures
        out@ == blake2b_256(data@),
{
    <blake2::Blake2b256 as blake2::Digest>::digest(data).into()
}

/// A 32-byte digest: the name of a trie node and of a state root.
#[derive(Debug, Clone, Copy)]
pub struct Digest {
    pub bytes: [u8; 32],
}

impl View for Digest {
    type V = Seq<u8>;

    open spec fn view(&self) -> Seq<u8> {
        self.bytes@
    }
}

impl Digest {
    /// The digest of a byte string.
    pub open spec fn spec_of(data: Seq<u8>) -> Digest {
        choose|d: Digest| d@ == blake2b_256(data)
    }

    /// The digest of a byte string.
    pub fn of(data: &Vec<u8>) -> (r: Digest)
        ensures
            r@ == blake2b_256(data@),
            r == Self::spec_of(data@),
    {
        let r = Digest { bytes: blake2b(data.as_slice()) };
        proof {
            Self::spec_of(data@).lemma_view_injective(r);
        }
        r
    }

    /// Two digests are the same exactly when their bytes are.
    pub proof fn lemma_view_injective(self, other: Digest)
        ensures
            (self@ == other@) <==> (self == other),
    {
        if self@ == other@ {
            assert(self.bytes =~= other.bytes);
        }
    }
}

impl PartialEq for Digest {
    fn eq(&self, other: &Digest) -> (r: bool) {
        same_bytes(&self.bytes, &other.bytes)
    }
}

impl Eq for Digest {

}

impl vstd::std_specs::cmp::PartialEqSpecImpl for Digest {
    open spec fn obeys_eq_spec() -> bool {
        true
    }

    open spec fn eq_spec(&self, other: &Digest) -> bool {
        *self == *other
    }
}

} // verus!
