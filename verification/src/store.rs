//! The raw block store: a mapping from block identifier to block metadata
//! (slot number plus a fixed-size skip-pointer array), and the mathematical
//! model of ancestry over it.
//!
//! The chain is modeled by the immediate-parent pointer (skip entry 0):
//! `anc_back(s, id, k)` is the identifier reached from `id` by following `k`
//! parent pointers. A store is coherent (`store_ok`) when every block's skip
//! entry `i` points to the ancestor exactly `2^i` slots behind it, parents sit
//! exactly one slot behind their child, and a genesis block (slot 0) carries a
//! self-referential parent entry that terminates every traversal.
//!
//! A consequence of "exactly `2^i` (and exactly one) slot behind" is that a
//! coherent chain is slot-contiguous: every slot below a stored block down to
//! its genesis carries a block. An ancestor query over a coherent store can
//! therefore miss only for an identifier the store does not know, or for a
//! target slot at or above the start block's own.

use vstd::prelude::*;
use vstd::arithmetic::power2::pow2;

verus! {

/// Number of ancestor skip pointers carried by every block.
pub const SKIP_LIST_LEN: usize = 16;

/// Ordinal position of a block in the chain's canonical time ordering.
pub type Slot = u64;

/// Ordinal depth within the compacted fork-choice tree, distinct from `Slot`.
pub type Height = usize;

/// Block identifier.
pub type BlockId = u64;

/// Raw chain record. Entry `i` of the skip list holds the identifier of the
/// ancestor exactly `2^i` slots behind this block; the last entry doubles as
/// the far jump taken when a requested backward distance exceeds the directly
/// addressable range.
pub struct Block {
    pub slot: Slot,
    pub ancestor_skip_list: [BlockId; SKIP_LIST_LEN],
}

/// The raw block store, populated by the surrounding client before any tree
/// operation references an identifier.
pub type Store = std::collections::HashMap<BlockId, Block>;

/// The ancestor of `id` reached by following `k` immediate-parent pointers.
pub open spec fn anc_back(s: Map<BlockId, Block>, id: BlockId, k: nat) -> BlockId
    decreases k,
{
    if k == 0 {
        id
    } else {
        anc_back(s, s[id].ancestor_skip_list@[0], (k - 1) as nat)
    }
}

/// One block's skip pointers are coherent within the store `s`.
pub open spec fn block_linked(s: Map<BlockId, Block>, id: BlockId) -> bool {
    let b = s[id];
    let parent = b.ancestor_skip_list@[0];
    &&& (b.slot > 0 ==> s.contains_key(parent) && s[parent].slot == b.slot - 1)
    &&& (b.slot == 0 ==> parent == id)
    &&& forall|i: int|
        0 <= i < SKIP_LIST_LEN && pow2(i as nat) <= b.slot ==> b.ancestor_skip_list@[i]
            == anc_back(s, id, pow2(i as nat))
}

/// Every block present in the store is coherent.
pub open spec fn store_ok(s: Map<BlockId, Block>) -> bool {
    forall|id: BlockId| s.contains_key(id) ==> #[trigger] block_linked(s, id)
}

/// In a coherent store, the parent chain of a present block stays in the
/// store and loses exactly one slot per step.
pub proof fn lemma_chain(s: Map<BlockId, Block>, id: BlockId, k: nat)
    requires
        store_ok(s),
        s.contains_key(id),
        k <= s[id].slot,
    ensures
        s.contains_key(anc_back(s, id, k)),
        s[anc_back(s, id, k)].slot == s[id].slot - k,
    decreases k,
{
    if k > 0 {
        assert(block_linked(s, id));
        let parent = s[id].ancestor_skip_list@[0];
        lemma_chain(s, parent, (k - 1) as nat);
    }
}

/// Following one parent pointer lands on skip entry 0.
pub proof fn lemma_anc_back_one(s: Map<BlockId, Block>, id: BlockId)
    ensures
        anc_back(s, id, 1) == s[id].ancestor_skip_list@[0],
{
    let parent = s[id].ancestor_skip_list@[0];
    assert(anc_back(s, parent, 0) == parent);
}

/// Following `j + k` parent pointers is following `j`, then `k`.
pub proof fn lemma_anc_back_add(s: Map<BlockId, Block>, id: BlockId, j: nat, k: nat)
    ensures
        anc_back(s, id, j + k) == anc_back(s, anc_back(s, id, j), k),
    decreases j,
{
    if j > 0 {
        let parent = s[id].ancestor_skip_list@[0];
        lemma_anc_back_add(s, parent, (j - 1) as nat, k);
    }
}

/// Adding a fresh block leaves the parent chains of the blocks already
/// present untouched.
pub proof fn lemma_anc_back_extend(
    s: Map<BlockId, Block>,
    nid: BlockId,
    b: Block,
    id: BlockId,
    k: nat,
)
    requires
        store_ok(s),
        !s.contains_key(nid),
        s.contains_key(id),
        k <= s[id].slot,
    ensures
        anc_back(s.insert(nid, b), id, k) == anc_back(s, id, k),
    decreases k,
{
    if k > 0 {
        assert(block_linked(s, id));
        let parent = s[id].ancestor_skip_list@[0];
        lemma_anc_back_extend(s, nid, b, parent, (k - 1) as nat);
    }
}

/// A coherent store extended with one coherent fresh block stays coherent.
pub proof fn lemma_store_extend(s: Map<BlockId, Block>, nid: BlockId, b: Block)
    requires
        store_ok(s),
        !s.contains_key(nid),
        block_linked(s.insert(nid, b), nid),
    ensures
        store_ok(s.insert(nid, b)),
{
    let s2 = s.insert(nid, b);
    assert forall|id: BlockId| s2.contains_key(id) implies #[trigger] block_linked(s2, id) by {
        if id != nid {
            assert(block_linked(s, id));
            assert forall|i: int|
                0 <= i < SKIP_LIST_LEN && pow2(i as nat) <= s2[id].slot implies s2[id].ancestor_skip_list@[i]
                == anc_back(s2, id, pow2(i as nat)) by {
                lemma_anc_back_extend(s, nid, b, id, pow2(i as nat));
            }
        }
    }
}

} // verus!
