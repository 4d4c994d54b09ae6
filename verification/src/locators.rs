//! The block-locator summary: two insertion-ordered height-to-hash tables,
//! "recent" blocks and sparse "checkpoint" blocks.

use crate::hash::BlockHash;
use crate::ordered_map::{imap_entries, imap_get_index, imap_len, Entries};
use vstd::prelude::*;

verus! {

/// A compact summary of the sender's view of its chain.
pub struct BlockLocators {
    /// Dense, short-horizon entries, in insertion order.
    pub recents: indexmap::IndexMap<u32, BlockHash>,
    /// Sparse, long-horizon anchor entries, in insertion order.
    pub checkpoints: indexmap::IndexMap<u32, BlockHash>,
}

/// The model of a summary: both tables as entry sequences.
#[verifier::ext_equal]
pub struct LocatorsModel {
    pub recents: Entries,
    pub checkpoints: Entries,
}

impl View for BlockLocators {
    type V = LocatorsModel;

    open spec fn view(&self) -> LocatorsModel {
        LocatorsModel { recents: imap_entries(self.recents), checkpoints: imap_entries(self.checkpoints) }
    }
}

/// Whether the two tables hold the same entries in the same order.
fn imaps_equal(a: &indexmap::IndexMap<u32, BlockHash>, b: &indexmap::IndexMap<u32, BlockHash>) -> (r:
    bool)
    ensures
        r == (imap_entries(*a) == imap_entries(*b)),
{
    let ghost ea = imap_entries(*a);
    let ghost eb = imap_entries(*b);
    let n = imap_len(a);
    if imap_len(b) != n {
        proof {
            assert(ea != eb);
        }
        return false;
    }
    let mut i: usize = 0;
    while i < n
        invariant
            i <= n,
            n == ea.len(),
            n == eb.len(),
            ea == imap_entries(*a),
            eb == imap_entries(*b),
            forall|j: int| 0 <= j < i ==> ea[j].0 == eb[j].0 && ea[j].1 =~= eb[j].1,
        decreases n - i,
    {
        let (ka, ha) = imap_get_index(a, i);
        let (kb, hb) = imap_get_index(b, i);
        if ka != kb {
            proof {
                assert(ea[i as int].0 != eb[i as int].0);
            }
            return false;
        }
        if !(ha == hb) {
            proof {
                assert(ea[i as int].1 != eb[i as int].1);
            }
            return false;
        }
        i += 1;
    }
    proof {
        assert(ea =~~= eb);
    }
    true
}

impl PartialEq for BlockLocators {
    /// Two summaries are equal exactly when both tables hold the same
    /// entries in the same order.
    fn eq(&self, other: &BlockLocators) -> (r: bool) {
        let r1 = imaps_equal(&self.recents, &other.recents);
        let r2 = imaps_equal(&self.checkpoints, &other.checkpoints);
        r1 && r2
    }
}

impl vstd::std_specs::cmp::PartialEqSpecImpl for BlockLocators {
    open spec fn obeys_eq_spec() -> bool {
        true
    }

    open spec fn eq_spec(&self, other: &BlockLocators) -> bool {
        self@ == other@
    }
}

impl Eq for BlockLocators {

}

} // verus!
