//! The condensed fork-choice tree: a mapping from block identifier to
//! materialized tree node, the root, and the height index. `add_node` locates
//! the attachment point of a newly observed block by binary search over the
//! registered heights, consults the least-common-ancestor search to detect
//! real branch points, and materializes nodes only for the root, branch
//! points and leaves.

use vstd::prelude::*;
use std::collections::HashMap;
use crate::sorted::SortedList;
use crate::store::Block;
use crate::store::BlockId;
use crate::store::Height;
use crate::store::Slot;
use crate::store::Store;
use crate::store::block_linked;
use crate::store::store_ok;
use crate::store::lemma_chain;
use crate::store::lemma_store_extend;
use crate::ancestor::ancestor_at_slot_spec;
use crate::ancestor::lca_spec;
use crate::ancestor::lemma_meet_some;
use crate::ancestor::get_ancestor_hash_at_slot;
use crate::ancestor::find_least_common_ancestor;
use crate::ancestor::meet_below;
use crate::ancestor::min_slot;
use vstd::arithmetic::power2::pow2;
use vstd::arithmetic::power2::lemma2_to64;
use vstd::arithmetic::power2::lemma_pow2_unfold;
use vstd::arithmetic::power2::lemma_pow2_strictly_increases;
use crate::store::anc_back;
use crate::store::SKIP_LIST_LEN;

verus! {

broadcast use vstd::std_specs::hash::group_hash_axioms;

/// A tree-materialized record. The key under which a node is stored is the
/// identifier used for ancestry lookups; `block_hash` carries the identifier
/// of the underlying raw block the node represents, and `score` is opaque
/// storage for the surrounding fork-choice rule.
pub struct Node {
    pub parent_hash: Option<BlockId>,
    pub children: Vec<BlockId>,
    pub score: u64,
    pub height: Height,
    pub block_hash: BlockId,
}

impl Node {
    pub fn does_not_have_children(&self) -> (r: bool)
        ensures
            r == (self.children@.len() == 0),
    {
        self.children.len() == 0
    }
}

/// Copies a list of identifiers.
fn copy_ids(v: &Vec<BlockId>) -> (r: Vec<BlockId>)
    ensures
        r@ == v@,
{
    let mut r: Vec<BlockId> = Vec::new();
    let mut i: usize = 0;
    while i < v.len()
        invariant
            i <= v@.len(),
            r@ == v@.subrange(0, i as int),
        decreases v@.len() - i,
    {
        r.push(v[i]);
        assert(r@ =~= v@.subrange(0, i + 1 as int));
        i = i + 1;
    }
    assert(r@ =~= v@);
    r
}

/// Linear membership test over a list of identifiers.
fn contains_id(v: &Vec<BlockId>, x: BlockId) -> (r: bool)
    ensures
        r == v@.contains(x),
{
    let mut i: usize = 0;
    while i < v.len()
        invariant
            i <= v@.len(),
            forall|j: int| 0 <= j < i ==> v@[j] != x,
        decreases v@.len() - i,
    {
        if v[i] == x {
            return true;
        }
        i = i + 1;
    }
    false
}

pub struct Tree {
    store: Store,
    nodes: HashMap<BlockId, Node>,
    root: BlockId,
    slots_at_height: SortedList,
    blocks_at_height: HashMap<Slot, Vec<BlockId>>,
}

impl Tree {
    /// The raw block store owned by the tree.
    pub closed spec fn store_map(&self) -> Map<BlockId, Block> {
        self.store@
    }

    /// The materialized nodes, keyed by block identifier.
    pub closed spec fn node_map(&self) -> Map<BlockId, Node> {
        self.nodes@
    }

    /// The root identifier.
    pub closed spec fn root_id(&self) -> BlockId {
        self.root
    }

    /// The registered heights: the distinct slot values materialized in the
    /// tree, in ascending order.
    pub closed spec fn heights(&self) -> Seq<Slot> {
        self.slots_at_height@
    }

    /// The identifiers materialized at each registered slot.
    pub closed spec fn blocks_at(&self) -> Map<Slot, Vec<BlockId>> {
        self.blocks_at_height@
    }

    /// Well-formedness: the store is coherent; the root is a node without a
    /// parent and every other node's parent resolves to a node; the height
    /// index is strictly sorted; its two halves key the same slots; and every
    /// identifier it lists is a materialized node.
    pub open spec fn wf(&self) -> bool {
        &&& store_ok(self.store_map())
        &&& self.node_map().contains_key(self.root_id())
        &&& forall|k: BlockId|
            self.node_map().contains_key(k) ==> ((#[trigger] self.node_map()[k].parent_hash)
                is None <==> k == self.root_id())
        &&& forall|k: BlockId|
            self.node_map().contains_key(k) ==> match #[trigger] self.node_map()[k].parent_hash {
                Some(p) => self.node_map().contains_key(p),
                None => true,
            }
        &&& forall|i: int, j: int|
            0 <= i < j < self.heights().len() ==> self.heights()[i] < self.heights()[j]
        &&& forall|t: Slot| #[trigger]
            self.heights().contains(t) <==> self.blocks_at().contains_key(t)
        &&& forall|t: Slot, i: int|
            self.blocks_at().contains_key(t) && 0 <= i < self.blocks_at()[t]@.len()
                ==> self.node_map().contains_key(#[trigger] self.blocks_at()[t]@[i])
    }

    /// The new block's ancestor at the slot registered for height ordinal `h`
    /// is itself materialized at that height.
    pub open spec fn present_at_height(&self, hash: BlockId, h: int) -> bool {
        &&& 0 <= h < self.heights().len()
        &&& {
            let sl = self.heights()[h];
            match ancestor_at_slot_spec(self.store_map(), hash, sl) {
                Some(a) => self.blocks_at().contains_key(sl) && self.blocks_at()[sl]@.contains(a),
                None => false,
            }
        }
    }

    /// What the binary search over the height index returns: the ancestor of
    /// `hash` at a boundary height — one where the ancestor is materialized
    /// while it is not at the next height up. The recursion is the search's
    /// own probe order; `find_prev_in_tree` additionally certifies the
    /// boundary property of any hit.
    pub open spec fn find_prev_spec(&self, hash: BlockId, lo: int, hi: int) -> Option<BlockId>
        decreases hi - lo,
    {
        if lo >= hi || hi > self.heights().len() || lo < 0 {
            None
        } else {
            let mid = lo + (hi - lo) / 2;
            if self.present_at_height(hash, mid) {
                if !self.present_at_height(hash, mid + 1) {
                    ancestor_at_slot_spec(self.store_map(), hash, self.heights()[mid])
                } else {
                    self.find_prev_spec(hash, mid + 1, hi)
                }
            } else {
                self.find_prev_spec(hash, lo, mid)
            }
        }
    }

    /// A successful search certifies that the inserted block is known to the
    /// store.
    proof fn lemma_find_prev_some(&self, hash: BlockId, lo: int, hi: int)
        requires
            self.find_prev_spec(hash, lo, hi) is Some,
        ensures
            self.store_map().contains_key(hash),
        decreases hi - lo,
    {
        let mid = lo + (hi - lo) / 2;
        if self.present_at_height(hash, mid) {
            if !self.present_at_height(hash, mid + 1) {
            } else {
                self.lemma_find_prev_some(hash, mid + 1, hi);
            }
        } else {
            self.lemma_find_prev_some(hash, lo, mid);
        }
    }

    /// A least common ancestor returned over a coherent store is itself a
    /// stored block.
    proof fn lemma_lca_in_store(s: Map<BlockId, Block>, x: BlockId, y: BlockId)
        requires
            store_ok(s),
        ensures
            match lca_spec(s, x, y) {
                Some(a) => s.contains_key(a),
                None => true,
            },
    {
        if s.contains_key(x) && s.contains_key(y) {
            let m = min_slot(s, x, y);
            match meet_below(s, x, y, m) {
                None => {},
                Some(t) => {
                    lemma_meet_some(s, x, y, m, t);
                    let rs = if m == 0 {
                        0
                    } else if t < m {
                        t
                    } else {
                        (m - 1) as u64
                    };
                    lemma_chain(s, x, (s[x].slot - rs) as nat);
                },
            }
        }
    }

    /// Well-formedness survives any update that keeps the store coherent,
    /// leaves the height index alone, and only grows the node mapping while
    /// keeping every parent link resolved.
    proof fn lemma_wf_update(pre: Tree, post: Tree)
        requires
            pre.wf(),
            store_ok(post.store_map()),
            post.root_id() == pre.root_id(),
            post.heights() == pre.heights(),
            post.blocks_at() == pre.blocks_at(),
            post.node_map().contains_key(post.root_id()),
            forall|k: BlockId|
                pre.node_map().contains_key(k) ==> #[trigger] post.node_map().contains_key(k),
            forall|k: BlockId|
                post.node_map().contains_key(k) ==> ((#[trigger] post.node_map()[k].parent_hash)
                    is None <==> k == post.root_id()),
            forall|k: BlockId|
                post.node_map().contains_key(k) ==> match #[trigger] post.node_map()[k].parent_hash {
                    Some(p) => post.node_map().contains_key(p),
                    None => true,
                },
        ensures
            post.wf(),
    {
        assert forall|i: int, j: int|
            0 <= i < j < post.heights().len() implies post.heights()[i] < post.heights()[j] by {
            assert(pre.heights()[i] < pre.heights()[j]);
        }
        assert forall|t: Slot, i: int|
            post.blocks_at().contains_key(t) && 0 <= i < post.blocks_at()[t]@.len()
            implies post.node_map().contains_key(#[trigger] post.blocks_at()[t]@[i]) by {
            assert(pre.node_map().contains_key(pre.blocks_at()[t]@[i]));
        }
    }

    /// Initializes a tree holding exactly one node — the root, with no
    /// parent — and registers the root's slot in the height index.
    pub fn new(root: BlockId, slot: Slot) -> (t: Tree)
        ensures
            t.wf(),
            t.root_id() == root,
            forall|k: BlockId| #[trigger] t.node_map().contains_key(k) <==> k == root,
            t.node_map()[root].parent_hash is None,
            t.node_map()[root].children@.len() == 0,
            t.node_map()[root].block_hash == root,
            t.node_map()[root].height == 0,
            t.node_map()[root].score == 0,
            t.node_map().len() == 1,
            t.store_map() =~= Map::<BlockId, Block>::empty(),
            t.heights() =~= seq![slot],
            forall|s: Slot| #[trigger] t.blocks_at().contains_key(s) <==> s == slot,
            t.blocks_at()[slot]@ =~= seq![root],
    {
        let mut nodes: HashMap<BlockId, Node> = HashMap::new();
        nodes.insert(
            root,
            Node {
                parent_hash: None,
                children: Vec::new(),
                score: 0,
                height: 0,
                block_hash: root,
            },
        );
        let mut blocks_at_height: HashMap<Slot, Vec<BlockId>> = HashMap::new();
        let mut root_list: Vec<BlockId> = Vec::new();
        root_list.push(root);
        blocks_at_height.insert(slot, root_list);
        let mut slots_at_height = SortedList::new();
        slots_at_height.insert(slot);
        let t = Tree { store: HashMap::new(), nodes, root, slots_at_height, blocks_at_height };
        proof {
            assert(t.node_map().dom() =~= Set::empty().insert(root));
            assert(t.node_map().dom().len() == 1);
            assert(t.heights().contains(slot));
            assert(t.heights().len() == 1);
            assert(t.heights()[0] == slot) by {
                let i = choose|i: int| 0 <= i < t.heights().len() && t.heights()[i] == slot;
                assert(i == 0);
            }
            assert(t.heights() =~= seq![slot]);
            assert forall|s: Slot| #[trigger] t.heights().contains(s) implies s == slot by {
                let i = choose|i: int| 0 <= i < t.heights().len() && t.heights()[i] == s;
                assert(i == 0);
            }
        }
        t
    }

    /// Registers a raw block under `hash`; the store is append-only. The
    /// surrounding client must hand over a block whose skip pointers are
    /// fully and correctly populated: each entry `i` resolves, within the
    /// extended store, to the ancestor exactly `2^i` slots behind the block.
    pub fn insert_block(&mut self, hash: BlockId, block: Block)
        requires
            old(self).wf(),
            !old(self).store_map().contains_key(hash),
            block_linked(old(self).store_map().insert(hash, block), hash),
        ensures
            final(self).wf(),
            final(self).store_map() == old(self).store_map().insert(hash, block),
            final(self).node_map() == old(self).node_map(),
            final(self).root_id() == old(self).root_id(),
            final(self).heights() == old(self).heights(),
            final(self).blocks_at() == old(self).blocks_at(),
    {
        proof {
            lemma_store_extend(old(self).store_map(), hash, block);
        }
        self.store.insert(hash, block);
        proof {
            assert(self.store_map() == old(self).store_map().insert(hash, block));
            assert(store_ok(self.store_map()));
            assert(self.node_map() == old(self).node_map());
            assert(self.heights() == old(self).heights());
            assert(self.blocks_at() == old(self).blocks_at());
            Self::lemma_wf_update(*old(self), *self);
        }
    }

    /// Executable check of the client's skip-pointer obligation: whether
    /// `block`, stored under `hash`, would be coherent with the store
    /// (`block_linked`): a genesis block is self-parented, any other block's
    /// parent is stored one slot behind it, and every in-range skip entry
    /// resolves to the chain ancestor exactly its power of two behind.
    pub fn block_coheres(&self, hash: BlockId, block: &Block) -> (r: bool)
        requires
            self.wf(),
            !self.store_map().contains_key(hash),
        ensures
            r == block_linked(self.store_map().insert(hash, *block), hash),
    {
        let ghost s2 = self.store_map().insert(hash, *block);
        proof {
            lemma2_to64();
        }
        if block.slot == 0 {
            return block.ancestor_skip_list[0] == hash;
        }
        let parent = block.ancestor_skip_list[0];
        let parent_ok = match self.store.get(&parent) {
            None => false,
            Some(pb) => pb.slot == block.slot - 1,
        };
        if !parent_ok {
            return false;
        }
        proof {
            assert(anc_back(s2, hash, 1) == parent) by {
                crate::store::lemma_anc_back_one(s2, hash);
            }
        }
        let mut i: usize = 1;
        let mut d: u64 = 2;
        while i < SKIP_LIST_LEN
            invariant
                self.wf(),
                1 <= i <= SKIP_LIST_LEN,
                d == pow2(i as nat),
                s2 == self.store_map().insert(hash, *block),
                !self.store_map().contains_key(hash),
                block.slot > 0,
                parent == block.ancestor_skip_list@[0],
                self.store_map().contains_key(parent),
                self.store_map()[parent].slot == block.slot - 1,
                forall|j: int|
                    1 <= j < i && pow2(j as nat) <= block.slot
                        ==> block.ancestor_skip_list@[j] == anc_back(s2, hash, pow2(j as nat)),
            decreases SKIP_LIST_LEN - i,
        {
            if d <= block.slot {
                let target = block.slot - d;
                proof {
                    lemma2_to64();
                    if i > 1 {
                        lemma_pow2_strictly_increases(1, i as nat);
                    }
                    assert(d >= 2);
                }
                let expected = match get_ancestor_hash_at_slot(target, parent, &self.store) {
                    None => {
                        return false;
                    },
                    Some(e) => e,
                };
                proof {
                    assert(expected == anc_back(self.store_map(), parent, (d - 1) as nat));
                    crate::store::lemma_anc_back_extend(
                        self.store_map(),
                        hash,
                        *block,
                        parent,
                        (d - 1) as nat,
                    );
                    assert(anc_back(s2, hash, d as nat) == anc_back(s2, parent, (d - 1) as nat));
                    assert(expected == anc_back(s2, hash, pow2(i as nat)));
                }
                if block.ancestor_skip_list[i] != expected {
                    return false;
                }
            }
            proof {
                lemma2_to64();
                lemma_pow2_unfold((i + 1) as nat);
                if i < 15 {
                    lemma_pow2_strictly_increases(i as nat, 15);
                }
                assert(d <= 32768);
            }
            d = d * 2;
            i = i + 1;
        }
        proof {
            assert forall|ii: int|
                0 <= ii < SKIP_LIST_LEN && pow2(ii as nat) <= s2[hash].slot
                implies s2[hash].ancestor_skip_list@[ii] == anc_back(s2, hash, pow2(ii as nat))
                by {
                if ii == 0 {
                    assert(anc_back(s2, hash, 1) == parent) by {
                        crate::store::lemma_anc_back_one(s2, hash);
                    }
                }
            }
            assert(block_linked(s2, hash));
        }
        true
    }

    /// Validating register: checks the skip-pointer obligation executably
    /// and inserts only a coherent block not yet stored; returns whether the
    /// block was inserted. A refusal leaves the tree untouched.
    pub fn try_insert_block(&mut self, hash: BlockId, block: Block) -> (r: bool)
        requires
            old(self).wf(),
        ensures
            final(self).wf(),
            r == (!old(self).store_map().contains_key(hash) && block_linked(
                old(self).store_map().insert(hash, block),
                hash,
            )),
            r ==> final(self).store_map() == old(self).store_map().insert(hash, block) && final(self).node_map() == old(self).node_map() && final(self).root_id() == old(self).root_id()
                && final(self).heights() == old(self).heights() && final(self).blocks_at() == old(
                self,
            ).blocks_at(),
            !r ==> *final(self) == *old(self),
    {
        if self.store.contains_key(&hash) {
            return false;
        }
        if !self.block_coheres(hash, &block) {
            return false;
        }
        self.insert_block(hash, block);
        true
    }

    /// Whether a raw block is registered in the store under `hash`.
    pub fn has_block(&self, hash: BlockId) -> (r: bool)
        ensures
            r == self.store_map().contains_key(hash),
    {
        self.store.contains_key(&hash)
    }

    /// The materialized node stored under `hash`, if any.
    pub fn get_node(&self, hash: BlockId) -> (r: Option<&Node>)
        ensures
            match r {
                Some(n) => self.node_map().contains_key(hash) && *n == self.node_map()[hash],
                None => !self.node_map().contains_key(hash),
            },
    {
        self.nodes.get(&hash)
    }

    /// How many nodes are materialized.
    pub fn node_count(&self) -> (n: usize)
        ensures
            n == self.node_map().len(),
    {
        self.nodes.len()
    }

    fn slot_at_height(&self, height: Height) -> (r: Option<Slot>)
        ensures
            height < self.heights().len() ==> r == Some(self.heights()[height as int]),
            height >= self.heights().len() ==> r is None,
    {
        self.slots_at_height.nth(height)
    }

    fn find_ancestor_at_slot(&self, child: BlockId, slot: Slot) -> (r: Option<BlockId>)
        requires
            self.wf(),
        ensures
            r == ancestor_at_slot_spec(self.store_map(), child, slot),
    {
        get_ancestor_hash_at_slot(slot, child, &self.store)
    }

    fn find_ancestor_at_height(&self, child: BlockId, height: Height) -> (r: Option<BlockId>)
        requires
            self.wf(),
        ensures
            height < self.heights().len() ==> r == ancestor_at_slot_spec(
                self.store_map(),
                child,
                self.heights()[height as int],
            ),
            height >= self.heights().len() ==> r is None,
    {
        match self.slot_at_height(height) {
            None => None,
            Some(sl) => self.find_ancestor_at_slot(child, sl),
        }
    }

    fn find_least_common_ancestor(&self, a: BlockId, b: BlockId) -> (r: Option<BlockId>)
        requires
            self.wf(),
        ensures
            r == lca_spec(self.store_map(), a, b),
    {
        find_least_common_ancestor(a, b, &self.store)
    }

    fn exists_above_height(&self, hash: BlockId, height: Height) -> (r: bool)
        requires
            self.wf(),
        ensures
            r == self.present_at_height(hash, height as int),
    {
        let sl = match self.slot_at_height(height) {
            None => {
                return false;
            },
            Some(s) => s,
        };
        let a = match self.find_ancestor_at_height(hash, height) {
            None => {
                return false;
            },
            Some(a) => a,
        };
        let lst = match self.blocks_at_height.get(&sl) {
            None => {
                return false;
            },
            Some(l) => l,
        };
        contains_id(lst, a)
    }

    fn exists_between_heights(&self, hash: BlockId, low: Height, high: Height) -> (r: bool)
        requires
            self.wf(),
        ensures
            r == (self.present_at_height(hash, low as int) && !self.present_at_height(
                hash,
                high as int,
            )),
    {
        if self.exists_above_height(hash, low) {
            !self.exists_above_height(hash, high)
        } else {
            false
        }
    }

    /// Binary search over the registered height range `[lo, hi)` for the
    /// attachment point of `hash`: a hit is always a boundary height — the
    /// block's ancestor is materialized there and not at the next height up.
    /// When presence is downward closed (every materialized ancestor has its
    /// lower registered ancestors materialized too) the boundary is unique
    /// and deepest; the search itself guarantees only the boundary.
    fn find_prev_in_tree(&self, hash: BlockId, lo: Height, hi: Height) -> (r: Option<BlockId>)
        requires
            self.wf(),
        ensures
            r == self.find_prev_spec(hash, lo as int, hi as int),
            r matches Some(k) ==> self.node_map().contains_key(k),
            r matches Some(k) ==> exists|h: int|
                lo <= h < hi && #[trigger] self.present_at_height(hash, h)
                    && !self.present_at_height(hash, h + 1) && ancestor_at_slot_spec(
                    self.store_map(),
                    hash,
                    self.heights()[h],
                ) == Some(k),
        decreases hi - lo,
    {
        if lo >= hi || hi > self.slots_at_height.len() {
            return None;
        }
        let mid = lo + (hi - lo) / 2;
        if self.exists_between_heights(hash, mid, mid + 1) {
            let sl = match self.slot_at_height(mid) {
                None => {
                    return None;
                },
                Some(s) => s,
            };
            match self.find_ancestor_at_slot(hash, sl) {
                None => None,
                Some(a) => {
                    proof {
                        assert(self.blocks_at()[sl]@.contains(a));
                        let i = choose|i: int|
                            0 <= i < self.blocks_at()[sl]@.len() && self.blocks_at()[sl]@[i] == a;
                        assert(self.node_map().contains_key(self.blocks_at()[sl]@[i]));
                        assert(self.present_at_height(hash, mid as int) && !self.present_at_height(
                            hash,
                            mid + 1 as int,
                        ) && ancestor_at_slot_spec(self.store_map(), hash, self.heights()[mid as int])
                            == Some(a));
                    }
                    Some(a)
                },
            }
        } else if self.exists_above_height(hash, mid) {
            self.find_prev_in_tree(hash, mid + 1, hi)
        } else {
            self.find_prev_in_tree(hash, lo, mid)
        }
    }

    /// Registers a materialized identifier under slot `sl` in the height
    /// index.
    fn register_height(&mut self, id: BlockId, sl: Slot)
        requires
            old(self).wf(),
            old(self).node_map().contains_key(id),
        ensures
            final(self).wf(),
            final(self).store_map() == old(self).store_map(),
            final(self).node_map() == old(self).node_map(),
            final(self).root_id() == old(self).root_id(),
    {
        proof {
            assert forall|i: int, j: int|
                0 <= i < j < self.slots_at_height@.len() implies self.slots_at_height@[i]
                < self.slots_at_height@[j] by {
                assert(self.heights()[i] < self.heights()[j]);
            }
            assert(self.slots_at_height.wf());
        }
        self.slots_at_height.insert(sl);
        let updated = match self.blocks_at_height.get(&sl) {
            None => {
                let mut v: Vec<BlockId> = Vec::new();
                v.push(id);
                v
            },
            Some(l) => {
                let mut v = copy_ids(l);
                v.push(id);
                v
            },
        };
        self.blocks_at_height.insert(sl, updated);
        proof {
            assert(self.node_map() == old(self).node_map());
            assert(self.store_map() == old(self).store_map());
            assert forall|i: int, j: int|
                0 <= i < j < self.heights().len() implies self.heights()[i] < self.heights()[j] by {
                assert(self.slots_at_height.wf());
                assert(self.slots_at_height@[i] < self.slots_at_height@[j]);
            }
            assert forall|t: Slot| #[trigger]
                self.heights().contains(t) implies self.blocks_at().contains_key(t) by {
                if t != sl {
                    assert(old(self).heights().contains(t));
                }
            }
            assert forall|t: Slot| #[trigger]
                self.blocks_at().contains_key(t) implies self.heights().contains(t) by {
                if t != sl {
                    assert(old(self).blocks_at().contains_key(t));
                    assert(old(self).heights().contains(t));
                }
            }
            assert forall|t: Slot, i: int|
                self.blocks_at().contains_key(t) && 0 <= i < self.blocks_at()[t]@.len()
                implies self.node_map().contains_key(#[trigger] self.blocks_at()[t]@[i]) by {
                if t == sl {
                    if i < self.blocks_at()[t]@.len() - 1 {
                        assert(old(self).blocks_at().contains_key(sl));
                        assert(self.blocks_at()[t]@[i] == old(self).blocks_at()[sl]@[i]);
                    } else {
                        assert(self.blocks_at()[t]@[i] == id);
                    }
                } else {
                    assert(old(self).blocks_at().contains_key(t));
                }
            }
        }
    }

    /// Inserts the block observed under `hash` (carrying the raw reference
    /// `block_hash`) into the tree. The attachment point is located by binary
    /// search over the height index; for each existing child of that point
    /// whose true fork point lies strictly below it, a new branch-point node
    /// is materialized and the child reparented onto it. A miss at any
    /// sub-lookup aborts the insertion; a miss raised after the children loop
    /// has begun may leave freshly materialized branch points behind, but
    /// never a node whose parent does not resolve.
    pub fn add_node(&mut self, hash: BlockId, block_hash: BlockId) -> (r: Option<()>)
        requires
            old(self).wf(),
        ensures
            final(self).wf(),
            final(self).store_map() == old(self).store_map(),
            final(self).root_id() == old(self).root_id(),
            old(self).node_map().dom().subset_of(final(self).node_map().dom()),
            // a miss before any mutation leaves the tree untouched
            (hash == old(self).root_id() || old(self).find_prev_spec(
                hash,
                0,
                old(self).heights().len() as int,
            ) is None) ==> (r is None && *final(self) == *old(self)),
            // a block unknown to the store cannot be inserted at all
            !old(self).store_map().contains_key(hash) ==> (r is None && *final(self) == *old(
                self,
            )),
            // on success the new node is present, carries its raw reference,
            // and hangs below a resolved parent
            r is Some ==> final(self).node_map().contains_key(hash) && final(self).node_map()[hash].block_hash
                == block_hash && final(self).node_map()[hash].parent_hash is Some,
            // the new node starts as a leaf and is linked into its parent's
            // children list (a degenerate self-parented key aside)
            r is Some ==> final(self).node_map()[hash].children@.len() == 0 && match final(self).node_map()[hash].parent_hash {
                Some(p) => p == hash || final(self).node_map()[p].children@.contains(hash),
                None => false,
            },
            // when every existing child of the attachment point forks exactly
            // there, the block attaches as a direct child: no synthetic
            // ancestor node is materialized, the attachment point's children
            // grow by exactly the new identifier, and every other node's
            // record is untouched
            match old(self).find_prev_spec(hash, 0, old(self).heights().len() as int) {
                Some(pk) => (hash != old(self).root_id() && pk != hash && (forall|i: int|
                    0 <= i < old(self).node_map()[pk].children@.len() ==> lca_spec(
                        old(self).store_map(),
                        hash,
                        #[trigger] old(self).node_map()[pk].children@[i],
                    ) == Some(pk))) ==> (r is Some && final(self).node_map().dom() =~= old(
                    self,
                ).node_map().dom().insert(hash) && final(self).node_map()[hash].parent_hash
                    == Some(pk) && final(self).node_map()[pk].children@ =~= old(
                    self,
                ).node_map()[pk].children@.push(hash) && final(self).node_map()[pk].parent_hash
                    == old(self).node_map()[pk].parent_hash && final(self).node_map()[pk].score
                    == old(self).node_map()[pk].score && final(self).node_map()[pk].height == old(
                    self,
                ).node_map()[pk].height && final(self).node_map()[pk].block_hash == old(
                    self,
                ).node_map()[pk].block_hash && (forall|k: BlockId|
                    old(self).node_map().contains_key(k) && k != pk && k != hash
                        ==> #[trigger] final(self).node_map()[k] == old(self).node_map()[k])),
                None => true,
            },
            // success is owed whenever the search finds an attachment point
            // and, for every existing child of it, the least common ancestor
            // resolves to a stored block other than the root, the child is
            // itself a materialized non-root node
            match old(self).find_prev_spec(hash, 0, old(self).heights().len() as int) {
                Some(pk) => (hash != old(self).root_id() && (forall|i: int|
                    0 <= i < old(self).node_map()[pk].children@.len() ==> match lca_spec(
                        old(self).store_map(),
                        hash,
                        #[trigger] old(self).node_map()[pk].children@[i],
                    ) {
                        Some(a) => a != old(self).root_id() && old(self).node_map()[pk].children@[i]
                            != old(self).root_id() && old(self).node_map().contains_key(
                            old(self).node_map()[pk].children@[i],
                        ),
                        None => false,
                    })) ==> r is Some,
                None => true,
            },
            // a miss propagates: success needs the search to have found an
            // attachment point, every child's least common ancestor to have
            // resolved, and every restructured child to be a node
            r is Some ==> match old(self).find_prev_spec(hash, 0, old(self).heights().len() as int) {
                Some(pk) => forall|i: int|
                    0 <= i < old(self).node_map()[pk].children@.len() ==> match lca_spec(
                        old(self).store_map(),
                        hash,
                        #[trigger] old(self).node_map()[pk].children@[i],
                    ) {
                        Some(a) => a == pk || final(self).node_map().contains_key(
                            old(self).node_map()[pk].children@[i],
                        ),
                        None => false,
                    },
                None => false,
            },
            // the splice of a single diverging child (the scenario of the
            // fork-choice insertion): the branch point is materialized under
            // the attachment point, the child reparented onto it, the new
            // leaf hung below it, and nothing else changes
            match old(self).find_prev_spec(hash, 0, old(self).heights().len() as int) {
                Some(pk) => match lca_spec(
                    old(self).store_map(),
                    hash,
                    old(self).node_map()[pk].children@[0],
                ) {
                    Some(a) => ({
                        let c0 = old(self).node_map()[pk].children@[0];
                        (hash != old(self).root_id() && old(self).node_map()[pk].children@.len()
                            == 1 && a != pk && a != old(self).root_id() && c0 != old(
                            self,
                        ).root_id() && old(self).node_map().contains_key(c0) && a != c0 && a != hash
                            && c0 != hash) ==> (r is Some && final(self).node_map().dom() =~= old(
                            self,
                        ).node_map().dom().insert(a).insert(hash) && final(self).node_map().contains_key(a) && final(self).node_map()[a].parent_hash
                            == Some(pk) && final(self).node_map()[a].block_hash == a && final(self).node_map()[a].children@ =~= seq![c0, hash] && final(self).node_map()[c0].parent_hash == Some(a) && final(self).node_map()[c0].children@ == old(self).node_map()[c0].children@ && final(self).node_map()[hash].parent_hash == Some(a) && (forall|k: BlockId|
                            old(self).node_map().contains_key(k) && k != c0 && k != a && k != hash
                                ==> #[trigger] final(self).node_map()[k] == old(
                                self,
                            ).node_map()[k]))
                    }),
                    None => true,
                },
                None => true,
            },
            // compaction: besides the identifiers already materialized, only
            // the inserted identifier and actual fork points of the
            // attachment point's children ever appear
            r is Some ==> match old(self).find_prev_spec(hash, 0, old(self).heights().len() as int) {
                Some(pk) => forall|k: BlockId| #[trigger]
                    final(self).node_map().contains_key(k) ==> old(self).node_map().contains_key(k)
                        || k == hash || (exists|i: int|
                        0 <= i < old(self).node_map()[pk].children@.len() && lca_spec(
                            old(self).store_map(),
                            hash,
                            old(self).node_map()[pk].children@[i],
                        ) == Some(k)),
                None => true,
            },
    {
        if hash == self.root {
            return None;
        }
        let prev_key = match self.find_prev_in_tree(hash, 0, self.slots_at_height.len()) {
            None => {
                return None;
            },
            Some(k) => k,
        };
        proof {
            self.lemma_find_prev_some(hash, 0, self.heights().len() as int);
        }
        let prev_children = match self.nodes.get(&prev_key) {
            None => {
                return None;
            },
            Some(n) => copy_ids(&n.children),
        };
        let mut parent_for_new: BlockId = prev_key;
        let mut i: usize = 0;
        while i < prev_children.len()
            invariant
                self.wf(),
                self.store_map() == old(self).store_map(),
                self.root_id() == old(self).root_id(),
                old(self).node_map().dom().subset_of(self.node_map().dom()),
                i <= prev_children@.len(),
                hash != old(self).root_id(),
                old(self).store_map().contains_key(hash),
                old(self).node_map().contains_key(prev_key),
                prev_children@ == old(self).node_map()[prev_key].children@,
                old(self).find_prev_spec(hash, 0, old(self).heights().len() as int) == Some(
                    prev_key,
                ),
                self.node_map().contains_key(parent_for_new),
                forall|j: int|
                    0 <= j < i ==> match lca_spec(
                        old(self).store_map(),
                        hash,
                        #[trigger] prev_children@[j],
                    ) {
                        Some(a) => a == prev_key || self.node_map().contains_key(
                            prev_children@[j],
                        ),
                        None => false,
                    },
                (i == 1 && prev_children@.len() == 1) ==> match lca_spec(
                    old(self).store_map(),
                    hash,
                    prev_children@[0],
                ) {
                    Some(a) => (a != prev_key && a != old(self).root_id() && prev_children@[0]
                        != old(self).root_id() && old(self).node_map().contains_key(
                        prev_children@[0],
                    ) && a != prev_children@[0]) ==> (parent_for_new == a
                        && self.node_map().contains_key(a) && self.node_map()[a].parent_hash
                        == Some(prev_key) && self.node_map()[a].block_hash == a
                        && self.node_map()[a].children@ =~= seq![prev_children@[0]]
                        && self.node_map()[prev_children@[0]].parent_hash == Some(a)
                        && self.node_map()[prev_children@[0]].children@ == old(
                        self,
                    ).node_map()[prev_children@[0]].children@ && self.node_map().dom() =~= old(
                        self,
                    ).node_map().dom().insert(a) && (forall|k: BlockId|
                        old(self).node_map().contains_key(k) && k != prev_children@[0] && k != a
                            ==> #[trigger] self.node_map()[k] == old(self).node_map()[k])),
                    None => true,
                },
                (forall|j: int|
                    0 <= j < i ==> lca_spec(old(self).store_map(), hash, #[trigger] prev_children@[j])
                        == Some(prev_key)) ==> (*self == *old(self) && parent_for_new == prev_key),
                forall|k: BlockId| #[trigger]
                    self.node_map().contains_key(k) ==> old(self).node_map().contains_key(k) || (
                    exists|j: int|
                        0 <= j < i && lca_spec(old(self).store_map(), hash, prev_children@[j])
                            == Some(k)),
            decreases prev_children@.len() - i,
        {
            let c = prev_children[i];
            let ancestor_hash = match self.find_least_common_ancestor(hash, c) {
                None => {
                    proof {
                        assert(lca_spec(old(self).store_map(), hash, prev_children@[i as int])
                            is None);
                    }
                    return None;
                },
                Some(a) => a,
            };
            if ancestor_hash != prev_key {
                if ancestor_hash == self.root || c == self.root {
                    proof {
                        assert(lca_spec(old(self).store_map(), hash, prev_children@[i as int])
                            == Some(ancestor_hash));
                    }
                    return None;
                }
                proof {
                    Self::lemma_lca_in_store(self.store_map(), hash, c);
                }
                let new_c = match self.nodes.get(&c) {
                    None => {
                        proof {
                            if old(self).node_map().contains_key(c) {
                                assert(old(self).node_map().dom().contains(c));
                                assert(self.node_map().dom().contains(c));
                            }
                            assert(!old(self).node_map().contains_key(c));
                        }
                        return None;
                    },
                    Some(n) => Node {
                        parent_hash: Some(ancestor_hash),
                        children: copy_ids(&n.children),
                        score: n.score,
                        height: n.height,
                        block_hash: n.block_hash,
                    },
                };
                let mut m_children: Vec<BlockId> = Vec::new();
                m_children.push(c);
                let new_m = Node {
                    parent_hash: Some(prev_key),
                    children: m_children,
                    score: 0,
                    height: new_c.height,
                    block_hash: ancestor_hash,
                };
                let ghost t0 = *self;
                let ghost nm0 = self.node_map();
                self.nodes.insert(ancestor_hash, new_m);
                self.nodes.insert(c, new_c);
                proof {
                    assert(self.node_map() == nm0.insert(ancestor_hash, new_m).insert(c, new_c));
                    assert(self.store_map() == t0.store_map());
                    assert(self.heights() == t0.heights());
                    assert(self.blocks_at() == t0.blocks_at());
                    assert(self.root_id() == t0.root_id());
                    assert forall|k: BlockId|
                        nm0.contains_key(k) implies #[trigger] self.node_map().contains_key(k) by {}
                    assert forall|k: BlockId|
                        self.node_map().contains_key(k) implies ((
                    #[trigger] self.node_map()[k].parent_hash) is None <==> k == self.root_id())
                        by {
                        if k != ancestor_hash && k != c {
                            assert(self.node_map()[k] == nm0[k]);
                        }
                    }
                    assert forall|k: BlockId|
                        self.node_map().contains_key(k) implies match #[trigger] self.node_map()[k].parent_hash {
                        Some(p) => self.node_map().contains_key(p),
                        None => true,
                    } by {
                        if k != ancestor_hash && k != c {
                            assert(self.node_map()[k] == nm0[k]);
                            assert(nm0.contains_key(k));
                        }
                    }
                    Self::lemma_wf_update(t0, *self);
                    assert(self.wf());
                }
                let m_slot = match self.store.get(&ancestor_hash) {
                    None => {
                        return None;
                    },
                    Some(b) => b.slot,
                };
                self.register_height(ancestor_hash, m_slot);
                parent_for_new = ancestor_hash;
            }
            i = i + 1;
        }
        let new_parent_node = match self.nodes.get(&parent_for_new) {
            None => {
                return None;
            },
            Some(n) => {
                let mut ch = copy_ids(&n.children);
                ch.push(hash);
                Node {
                    parent_hash: n.parent_hash,
                    children: ch,
                    score: n.score,
                    height: n.height,
                    block_hash: n.block_hash,
                }
            },
        };
        let ghost nm_exit = self.node_map();
        let ghost tree_exit = *self;
        self.nodes.insert(parent_for_new, new_parent_node);
        let new_node = Node {
            parent_hash: Some(parent_for_new),
            children: Vec::new(),
            score: 0,
            height: 0,
            block_hash,
        };
        self.nodes.insert(hash, new_node);
        proof {
            assert(self.node_map() == nm_exit.insert(parent_for_new, new_parent_node).insert(
                hash,
                new_node,
            ));
            assert(self.store_map() == tree_exit.store_map());
            assert(self.heights() == tree_exit.heights());
            assert(self.blocks_at() == tree_exit.blocks_at());
            assert(self.root_id() == tree_exit.root_id());
            assert forall|k: BlockId|
                nm_exit.contains_key(k) implies #[trigger] self.node_map().contains_key(k) by {}
            assert forall|k: BlockId|
                self.node_map().contains_key(k) implies ((
            #[trigger] self.node_map()[k].parent_hash) is None <==> k == self.root_id()) by {
                if k != parent_for_new && k != hash {
                    assert(self.node_map()[k] == nm_exit[k]);
                }
            }
            assert forall|k: BlockId|
                self.node_map().contains_key(k) implies match #[trigger] self.node_map()[k].parent_hash {
                Some(p) => self.node_map().contains_key(p),
                None => true,
            } by {
                if k != parent_for_new && k != hash {
                    assert(self.node_map()[k] == nm_exit[k]);
                    assert(nm_exit.contains_key(k));
                }
            }
            Self::lemma_wf_update(tree_exit, *self);
            assert(self.wf());
        }
        let h_slot = match self.store.get(&hash) {
            None => {
                return None;
            },
            Some(b) => b.slot,
        };
        self.register_height(hash, h_slot);
        proof {
            assert(self.node_map() == nm_exit.insert(parent_for_new, new_parent_node).insert(
                hash,
                new_node,
            ));
            assert(old(self).node_map().dom().subset_of(self.node_map().dom()));
            assert(forall|k: BlockId|
                nm_exit.contains_key(k) ==> #[trigger] self.node_map().contains_key(k));
            if parent_for_new != hash {
                assert(self.node_map()[parent_for_new] == new_parent_node);
                assert(new_parent_node.children@[new_parent_node.children@.len() - 1] == hash);
                assert(self.node_map()[parent_for_new].children@.contains(hash));
            }
            if forall|j: int|
                0 <= j < prev_children@.len() ==> lca_spec(
                    old(self).store_map(),
                    hash,
                    #[trigger] prev_children@[j],
                ) == Some(prev_key) {
                assert(tree_exit == *old(self) && parent_for_new == prev_key);
                assert(self.node_map().dom() =~= old(self).node_map().dom().insert(hash));
                assert(new_parent_node.children@ =~= old(self).node_map()[prev_key].children@.push(
                    hash,
                ));
                assert forall|k: BlockId|
                    old(self).node_map().contains_key(k) && k != prev_key && k != hash
                    implies #[trigger] self.node_map()[k] == old(self).node_map()[k] by {
                    assert(nm_exit[k] == old(self).node_map()[k]);
                }
            }
            if prev_children@.len() == 1 {
                match lca_spec(old(self).store_map(), hash, prev_children@[0]) {
                    Some(a) => {
                        let c0 = prev_children@[0];
                        if a != prev_key && a != old(self).root_id() && c0 != old(self).root_id()
                            && old(self).node_map().contains_key(c0) && a != c0 && a != hash && c0
                            != hash {
                            assert(parent_for_new == a);
                            assert(nm_exit.dom() =~= old(self).node_map().dom().insert(a));
                            assert(self.node_map().dom() =~= old(self).node_map().dom().insert(
                                a,
                            ).insert(hash));
                            assert(nm_exit[a].children@ == seq![c0]);
                            assert(self.node_map()[a] == new_parent_node);
                            assert(self.node_map()[a].children@ =~= seq![c0, hash]);
                            assert(self.node_map()[a].parent_hash == Some(prev_key));
                            assert(self.node_map()[c0] == nm_exit[c0]);
                            assert(self.node_map()[c0].parent_hash == Some(a));
                            assert(self.node_map()[hash].parent_hash == Some(a));
                            assert forall|k: BlockId|
                                old(self).node_map().contains_key(k) && k != c0 && k != a && k
                                != hash implies #[trigger] self.node_map()[k] == old(
                                self,
                            ).node_map()[k] by {
                                assert(nm_exit[k] == old(self).node_map()[k]);
                            }
                        }
                    },
                    None => {},
                }
            }
            assert forall|k: BlockId| #[trigger]
                self.node_map().contains_key(k) implies old(self).node_map().contains_key(k) || k
                == hash || (exists|j: int|
                0 <= j < prev_children@.len() && lca_spec(
                    old(self).store_map(),
                    hash,
                    prev_children@[j],
                ) == Some(k)) by {
                if k != hash && !old(self).node_map().contains_key(k) {
                    assert(nm_exit.contains_key(k));
                }
            }
        }
        Some(())
    }
}

} // verus!
