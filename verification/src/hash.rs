//! The fixed-width block hash carried by a block-locator summary. The codec
//! never looks inside a hash: it only copies its bytes onto and off the wire.

use vstd::prelude::*;

verus! {

/// Number of bytes in a block hash.
pub const HASH_WIDTH: usize = 32;

/// A block hash: an opaque value of exactly `HASH_WIDTH` bytes.
#[derive(Clone, Debug)]
pub struct BlockHash {
    bytes: Vec<u8>,
}

impl View for BlockHash {
    type V = Seq<u8>;

    closed spec fn view(&self) -> Seq<u8> {
        self.bytes@
    }
}

impl BlockHash {
    /// Well-formed: exactly `HASH_WIDTH` bytes.
    pub open spec fn wf(self) -> bool {
        self@.len() == HASH_WIDTH
    }

    /// Builds a hash from exactly `HASH_WIDTH` bytes; any other length is
    /// rejected.
    pub fn from_bytes(bytes: Vec<u8>) -> (r: Option<BlockHash>)
        ensures
            bytes@.len() == HASH_WIDTH ==> (r matches Some(h) && h@ == bytes@ && h.wf()),
            bytes@.len() != HASH_WIDTH ==> r is None,
    {
        if bytes.len() == HASH_WIDTH {
            Some(BlockHash { bytes })
        } else {
            None
        }
    }

    /// The bytes of the hash.
    pub fn as_slice(&self) -> (r: &[u8])
        ensures
            r@ == self@,
    {
        self.bytes.as_slice()
    }
}

impl PartialEq for BlockHash {
    /// Two hashes are equal exactly when their bytes are.
    fn eq(&self, other: &BlockHash) -> (r: bool) {
        if self.bytes.len() != other.bytes.len() {
            return false;
        }
        let n = self.bytes.len();
        let mut i: usize = 0;
        while i < n
            invariant
                i <= n,
                n == self.bytes@.len(),
                n == other.bytes@.len(),
                forall|j: int| 0 <= j < i ==> self.bytes@[j] == other.bytes@[j],
            decreases n - i,
        {
            if self.bytes[i] != other.bytes[i] {
                return false;
            }
            i += 1;
        }
        proof {
            assert(self.bytes@ =~= other.bytes@);
        }
        true
    }
}

impl vstd::std_specs::cmp::PartialEqSpecImpl for BlockHash {
    open spec fn obeys_eq_spec() -> bool {
        true
    }

    open spec fn eq_spec(&self, other: &BlockHash) -> bool {
        self@ == other@
    }
}

impl Eq for BlockHash {

}

} // verus!
