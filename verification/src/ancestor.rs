//! The skip-list ancestor index and the least-common-ancestor search.
//!
//! `get_ancestor_hash_at_slot` resolves "the ancestor of `start` at exactly
//! `slot`" by exponential back-stepping over the skip pointers, and
//! `find_least_common_ancestor` aligns two blocks to the same slot and walks
//! both parent chains down until they meet. Both are proved against the
//! parent-chain model of `crate::store`.

use vstd::prelude::*;
use vstd::arithmetic::power2::pow2;
use vstd::arithmetic::power2::lemma2_to64;
use vstd::arithmetic::power2::lemma2_to64_rest;
use vstd::arithmetic::power2::lemma_pow2_unfold;
use vstd::arithmetic::power2::lemma_pow2_strictly_increases;
use crate::store::BlockId;
use crate::store::Block;
use crate::store::Slot;
use crate::store::Store;
use crate::store::SKIP_LIST_LEN;
use crate::store::anc_back;
use crate::store::block_linked;
use crate::store::store_ok;
use crate::store::lemma_chain;
use crate::store::lemma_anc_back_add;
use crate::store::lemma_anc_back_one;

verus! {

broadcast use vstd::std_specs::hash::group_hash_axioms;

/// The identifier of the ancestor of `start` sitting at exactly `slot`, or a
/// miss when `start` is unknown or `slot` is not strictly below its slot.
pub open spec fn ancestor_at_slot_spec(s: Map<BlockId, Block>, start: BlockId, slot: Slot) -> Option<
    BlockId,
> {
    if s.contains_key(start) && slot < s[start].slot {
        Some(anc_back(s, start, (s[start].slot - slot) as nat))
    } else {
        None
    }
}

/// The ancestor of `id` at slot `t` (meaningful for `t` at or below the slot
/// of `id`).
pub open spec fn anc_at(s: Map<BlockId, Block>, id: BlockId, t: Slot) -> BlockId {
    anc_back(s, id, (s[id].slot - t) as nat)
}

/// The parent chains of `x` and `y` carry the same block at slot `t`.
pub open spec fn common_at(s: Map<BlockId, Block>, x: BlockId, y: BlockId, t: Slot) -> bool {
    anc_at(s, x, t) == anc_at(s, y, t)
}

/// The largest slot at or below `t` where the chains of `x` and `y` agree, or
/// a miss when they agree nowhere down to slot zero.
pub open spec fn meet_below(s: Map<BlockId, Block>, x: BlockId, y: BlockId, t: Slot) -> Option<Slot>
    decreases t,
{
    if common_at(s, x, y, t) {
        Some(t)
    } else if t == 0 {
        None
    } else {
        meet_below(s, x, y, (t - 1) as u64)
    }
}

/// The smaller of the two blocks' slots.
pub open spec fn min_slot(s: Map<BlockId, Block>, x: BlockId, y: BlockId) -> Slot {
    if s[x].slot <= s[y].slot {
        s[x].slot
    } else {
        s[y].slot
    }
}

/// What the least-common-ancestor search returns: align both chains to the
/// smaller slot `m`; if the chains meet at some largest slot `t <= m`, the
/// answer is the shared block one step below the alignment point (the shared
/// immediate parent), i.e. at slot `t` itself when `t < m`, at slot `m - 1`
/// when the aligned cursors already coincide, and the self-referential
/// genesis entry when `m == 0`.
pub open spec fn lca_spec(s: Map<BlockId, Block>, x: BlockId, y: BlockId) -> Option<BlockId> {
    if s.contains_key(x) && s.contains_key(y) {
        let m = min_slot(s, x, y);
        match meet_below(s, x, y, m) {
            None => None,
            Some(t) => Some(
                anc_at(
                    s,
                    x,
                    if m == 0 {
                        0
                    } else if t < m {
                        t
                    } else {
                        (m - 1) as u64
                    },
                ),
            ),
        }
    } else {
        None
    }
}

/// Where the chains agree nowhere strictly between `lo` and `hi`, the meet
/// below `hi` is the meet below `lo`.
pub proof fn lemma_meet_transfer(s: Map<BlockId, Block>, x: BlockId, y: BlockId, lo: Slot, hi: Slot)
    requires
        lo <= hi,
        forall|t: Slot| lo < t <= hi ==> !common_at(s, x, y, t),
    ensures
        meet_below(s, x, y, hi) == meet_below(s, x, y, lo),
    decreases hi - lo,
{
    if hi > lo {
        assert(!common_at(s, x, y, hi));
        lemma_meet_transfer(s, x, y, lo, (hi - 1) as u64);
    }
}

/// A meet is a slot in range where the chains agree.
pub proof fn lemma_meet_some(s: Map<BlockId, Block>, x: BlockId, y: BlockId, hi: Slot, t: Slot)
    requires
        meet_below(s, x, y, hi) == Some(t),
    ensures
        t <= hi,
        common_at(s, x, y, t),
    decreases hi,
{
    if !common_at(s, x, y, hi) {
        lemma_meet_some(s, x, y, (hi - 1) as u64, t);
    }
}

/// Agreement of the chains propagates downward: parents of a shared block
/// are shared.
pub proof fn lemma_common_step_down(s: Map<BlockId, Block>, x: BlockId, y: BlockId, t: Slot)
    requires
        1 <= t,
        t <= s[x].slot,
        t <= s[y].slot,
        common_at(s, x, y, t),
    ensures
        common_at(s, x, y, (t - 1) as u64),
{
    lemma_anc_back_add(s, x, (s[x].slot - t) as nat, 1);
    lemma_anc_back_add(s, y, (s[y].slot - t) as nat, 1);
}

/// The meet does not depend on the order of the two blocks.
pub proof fn lemma_meet_symmetric(s: Map<BlockId, Block>, x: BlockId, y: BlockId, t: Slot)
    ensures
        meet_below(s, x, y, t) == meet_below(s, y, x, t),
    decreases t,
{
    if !common_at(s, x, y, t) && t > 0 {
        lemma_meet_symmetric(s, x, y, (t - 1) as u64);
    }
}

/// The least common ancestor is symmetric in its two arguments.
pub proof fn lemma_lca_symmetric(s: Map<BlockId, Block>, x: BlockId, y: BlockId)
    ensures
        lca_spec(s, x, y) == lca_spec(s, y, x),
{
    if s.contains_key(x) && s.contains_key(y) {
        let m = min_slot(s, x, y);
        assert(m == min_slot(s, y, x));
        lemma_meet_symmetric(s, x, y, m);
        match meet_below(s, x, y, m) {
            None => {},
            Some(t) => {
                lemma_meet_some(s, x, y, m, t);
                let rs = if m == 0 {
                    0
                } else if t < m {
                    t
                } else {
                    (m - 1) as u64
                };
                if t == m && m > 0 {
                    lemma_common_step_down(s, x, y, m);
                }
                assert(common_at(s, x, y, rs));
            },
        }
    }
}

/// Where some block sits at slot `t` on both chains and the chains agree at
/// no deeper slot, the least common ancestor is exactly that block.
pub proof fn lemma_lca_deepest_common(
    s: Map<BlockId, Block>,
    x: BlockId,
    y: BlockId,
    t: Slot,
)
    requires
        s.contains_key(x),
        s.contains_key(y),
        t < s[x].slot,
        t < s[y].slot,
        common_at(s, x, y, t),
        forall|u: Slot| t < u <= min_slot(s, x, y) ==> !common_at(s, x, y, u),
    ensures
        lca_spec(s, x, y) == Some(anc_at(s, x, t)),
{
    let m = min_slot(s, x, y);
    lemma_meet_transfer(s, x, y, t, m);
    assert(meet_below(s, x, y, m) == Some(t));
}

/// Floor base-two logarithm: the largest exponent whose power of two does not
/// exceed `delta`, together with that power.
fn floor_log2(delta: u64) -> (r: (usize, u64))
    requires
        1 <= delta,
    ensures
        r.1 == pow2(r.0 as nat),
        r.1 <= delta,
        delta < pow2((r.0 + 1) as nat),
        r.0 < 64,
{
    let mut e: usize = 0;
    let mut p: u64 = 1;
    proof {
        lemma2_to64();
    }
    while p <= delta / 2
        invariant
            1 <= delta,
            1 <= p,
            p == pow2(e as nat),
            p <= delta,
            e < 64,
        decreases delta - p,
    {
        proof {
            lemma_pow2_unfold((e + 1) as nat);
        }
        p = p * 2;
        e = e + 1;
        proof {
            if e >= 64 {
                lemma2_to64_rest();
                assert(pow2(64) == 0x10000000000000000);
                assert(false);
            }
        }
    }
    proof {
        lemma_pow2_unfold((e + 1) as nat);
    }
    (e, p)
}

/// Resolves the ancestor of `start` sitting at exactly `slot`, by repeated
/// skip-pointer jumps: a far jump while the distance exceeds the directly
/// addressable range, a direct answer when the distance is an exact power of
/// two, and otherwise a jump by the largest power of two below the distance.
pub fn get_ancestor_hash_at_slot(slot: Slot, start: BlockId, store: &Store) -> (r: Option<BlockId>)
    requires
        store_ok(store@),
    ensures
        r == ancestor_at_slot_spec(store@, start, slot),
{
    let first_slot = match store.get(&start) {
        None => {
            return None;
        },
        Some(b) => b.slot,
    };
    if slot >= first_slot {
        return None;
    }
    let mut cur: BlockId = start;
    let mut cur_slot: u64 = first_slot;
    loop
        invariant
            store_ok(store@),
            store@.contains_key(start),
            slot < store@[start].slot,
            store@.contains_key(cur),
            store@[cur].slot == cur_slot,
            slot < cur_slot,
            anc_back(store@, cur, (cur_slot - slot) as nat) == anc_back(
                store@,
                start,
                (store@[start].slot - slot) as nat,
            ),
        decreases cur_slot - slot,
    {
        let b = match store.get(&cur) {
            None => {
                return None;
            },
            Some(b) => b,
        };
        let delta: u64 = b.slot - slot;
        let fl = floor_log2(delta);
        let e = fl.0;
        let p = fl.1;
        proof {
            assert(block_linked(store@, cur));
            lemma2_to64();
        }
        if p == delta && e < SKIP_LIST_LEN {
            let found = b.ancestor_skip_list[e];
            proof {
                assert(pow2(e as nat) <= store@[cur].slot);
                assert(found == anc_back(store@, cur, pow2(e as nat)));
            }
            return Some(found);
        } else if delta > 32768 {
            let nxt = b.ancestor_skip_list[SKIP_LIST_LEN - 1];
            proof {
                assert(pow2(15) == 32768);
                assert(pow2(15) <= store@[cur].slot);
                assert(nxt == anc_back(store@, cur, pow2(15)));
                lemma_chain(store@, cur, pow2(15));
                lemma_anc_back_add(store@, cur, pow2(15), (delta - 32768) as nat);
            }
            cur = nxt;
            cur_slot = cur_slot - 32768;
        } else {
            proof {
                assert(pow2(15) == 32768);
                if e >= 15 {
                    if e > 15 {
                        lemma_pow2_strictly_increases(15, e as nat);
                    }
                    assert(p >= 32768);
                    assert(p == delta && e >= SKIP_LIST_LEN);
                    assert(pow2(e as nat) < 0x10000000000000000);
                    lemma2_to64_rest();
                    if e > 16 {
                        lemma_pow2_strictly_increases(16, e as nat);
                    }
                    assert(delta >= pow2(16));
                    assert(false);
                }
                assert(p < delta);
                assert(pow2(e as nat) <= store@[cur].slot);
                assert(b.ancestor_skip_list@[e as int] == anc_back(store@, cur, pow2(e as nat)));
                lemma_chain(store@, cur, pow2(e as nat));
                lemma_anc_back_add(store@, cur, pow2(e as nat), (delta - p) as nat);
            }
            let nxt = b.ancestor_skip_list[e];
            cur = nxt;
            cur_slot = cur_slot - p;
        }
    }
}

/// Returns the identifier of the deepest block shared by the parent chains of
/// `a_root` and `b_root`, or a miss when the two chains share no history.
/// The result is pinned down by `lca_spec`.
pub fn find_least_common_ancestor(a_root: BlockId, b_root: BlockId, store: &Store) -> (r: Option<
    BlockId,
>)
    requires
        store_ok(store@),
    ensures
        r == lca_spec(store@, a_root, b_root),
{
    let a_slot = match store.get(&a_root) {
        None => {
            return None;
        },
        Some(blk) => blk.slot,
    };
    let b_slot = match store.get(&b_root) {
        None => {
            return None;
        },
        Some(blk) => blk.slot,
    };
    let m: u64 = if a_slot <= b_slot {
        a_slot
    } else {
        b_slot
    };
    let mut ax: BlockId = a_root;
    let mut bx: BlockId = b_root;
    if a_slot > b_slot {
        ax = match get_ancestor_hash_at_slot(b_slot, a_root, store) {
            None => {
                return None;
            },
            Some(h) => h,
        };
        proof {
            lemma_chain(store@, a_root, (a_slot - b_slot) as nat);
        }
    } else if b_slot > a_slot {
        bx = match get_ancestor_hash_at_slot(a_slot, b_root, store) {
            None => {
                return None;
            },
            Some(h) => h,
        };
        proof {
            lemma_chain(store@, b_root, (b_slot - a_slot) as nat);
        }
    }
    let mut s: u64 = m;
    loop
        invariant
            store_ok(store@),
            store@.contains_key(a_root),
            store@.contains_key(b_root),
            m == min_slot(store@, a_root, b_root),
            s <= m,
            store@.contains_key(ax),
            store@.contains_key(bx),
            store@[ax].slot == s,
            store@[bx].slot == s,
            ax == anc_at(store@, a_root, s),
            bx == anc_at(store@, b_root, s),
            s < m ==> ax != bx,
            forall|t: Slot| s < t <= m ==> !common_at(store@, a_root, b_root, t),
        decreases s,
    {
        let blk_a = match store.get(&ax) {
            None => {
                return None;
            },
            Some(x) => x,
        };
        let blk_b = match store.get(&bx) {
            None => {
                return None;
            },
            Some(x) => x,
        };
        let pa = blk_a.ancestor_skip_list[0];
        let pb = blk_b.ancestor_skip_list[0];
        proof {
            assert(block_linked(store@, ax));
            assert(block_linked(store@, bx));
            if s > 0 {
                let sa = store@[a_root].slot;
                let sb = store@[b_root].slot;
                lemma_anc_back_add(store@, a_root, (sa - s) as nat, 1);
                lemma_anc_back_add(store@, b_root, (sb - s) as nat, 1);
                lemma_anc_back_one(store@, ax);
                lemma_anc_back_one(store@, bx);
                assert((sa - ((s - 1) as u64)) as nat == (sa - s) as nat + 1);
                assert((sb - ((s - 1) as u64)) as nat == (sb - s) as nat + 1);
                assert(pa == anc_at(store@, a_root, (s - 1) as u64));
                assert(pb == anc_at(store@, b_root, (s - 1) as u64));
            }
        }
        if pa == pb {
            proof {
                if ax == bx {
                    assert(s == m);
                    assert(common_at(store@, a_root, b_root, m));
                    assert(meet_below(store@, a_root, b_root, m) == Some(m));
                    if m == 0 {
                        assert(pa == ax);
                    }
                } else {
                    assert(!common_at(store@, a_root, b_root, s));
                    if s == 0 {
                        assert(pa == ax && pb == bx);
                        assert(false);
                    }
                    assert(common_at(store@, a_root, b_root, (s - 1) as u64));
                    assert(meet_below(store@, a_root, b_root, (s - 1) as u64) == Some(
                        (s - 1) as u64,
                    ));
                    assert(meet_below(store@, a_root, b_root, s) == Some((s - 1) as u64));
                    lemma_meet_transfer(store@, a_root, b_root, s, m);
                }
            }
            return Some(pa);
        } else if blk_a.slot == 0 || blk_b.slot == 0 {
            proof {
                assert(s == 0);
                assert(pa == ax && pb == bx);
                assert(!common_at(store@, a_root, b_root, 0));
                lemma_meet_transfer(store@, a_root, b_root, 0, m);
                assert(meet_below(store@, a_root, b_root, m) is None);
            }
            return None;
        } else {
            proof {
                assert(ax != bx);
                assert(!common_at(store@, a_root, b_root, s));
            }
            ax = pa;
            bx = pb;
            s = s - 1;
        }
    }
}

} // verus!
