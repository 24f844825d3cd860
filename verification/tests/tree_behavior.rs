//! Behavior of the fork-choice tree: ancestor resolution, least common
//! ancestors, height-index ordering, and the insertion scenarios.

use fork_tree::ancestor::find_least_common_ancestor;
use fork_tree::ancestor::get_ancestor_hash_at_slot;
use fork_tree::sorted::SortedList;
use fork_tree::store::Block;
use fork_tree::store::Store;
use fork_tree::tree::Tree;

/// Skip pointers for the block at slot `s` of `chain`, where `chain[s]` is
/// the identifier of the chain's block at slot `s`: entry `i` points to the
/// block exactly `2^i` slots back where one exists, and otherwise (and for
/// genesis) stays self-referential.
fn skips(chain: &[u64], s: usize) -> [u64; 16] {
    let mut a = [chain[s]; 16];
    for i in 0..16usize {
        let d = 1usize << i;
        if d <= s {
            a[i] = chain[s - d];
        }
    }
    a
}

fn store_of(chains: &[&[u64]]) -> Store {
    let mut store = Store::new();
    for chain in chains {
        for (s, id) in chain.iter().enumerate() {
            store
                .entry(*id)
                .or_insert(Block { slot: s as u64, ancestor_skip_list: skips(chain, s) });
        }
    }
    store
}

fn populate(tree: &mut Tree, chains: &[&[u64]]) {
    let mut seen = std::collections::HashSet::new();
    for chain in chains {
        for (s, id) in chain.iter().enumerate() {
            if seen.insert(*id) {
                tree.insert_block(*id, Block { slot: s as u64, ancestor_skip_list: skips(chain, s) });
            }
        }
    }
}

/// A linear chain of ids 100, 101, ..., 100 + n - 1 at slots 0..n.
fn linear(n: usize) -> Vec<u64> {
    (0..n as u64).map(|s| 100 + s).collect()
}

#[test]
fn new() {
    let genesis_root: u64 = 100;
    let genesis_slot = 0;

    let _t = Tree::new(genesis_root, genesis_slot);
}

#[test]
fn ancestor_at_slot_resolves_every_ancestor() {
    let chain = linear(11);
    let store = store_of(&[&chain]);
    for s in 0..10u64 {
        assert_eq!(get_ancestor_hash_at_slot(s, chain[10], &store), Some(chain[s as usize]));
    }
}

#[test]
fn ancestor_at_slot_misses_at_or_above_own_slot() {
    let chain = linear(11);
    let store = store_of(&[&chain]);
    assert_eq!(get_ancestor_hash_at_slot(10, chain[10], &store), None);
    assert_eq!(get_ancestor_hash_at_slot(11, chain[10], &store), None);
    assert_eq!(get_ancestor_hash_at_slot(5, 999_999, &store), None);
}

#[test]
fn ancestor_at_slot_far_jump() {
    let n = 33_000usize;
    let chain: Vec<u64> = (0..n as u64).map(|s| 1_000_000 + s).collect();
    let store = store_of(&[&chain]);
    assert_eq!(get_ancestor_hash_at_slot(5, chain[n - 1], &store), Some(chain[5]));
    assert_eq!(get_ancestor_hash_at_slot(32_900, chain[n - 1], &store), Some(chain[32_900]));
}

/// Two chains sharing slots 0..=5 and diverging after their slot-5 block.
fn forked_pair() -> (Vec<u64>, Vec<u64>) {
    let a = linear(11);
    let mut b = a[..6].to_vec();
    for s in 6..11u64 {
        b.push(200 + s);
    }
    (a, b)
}

#[test]
fn lca_finds_the_fork_point() {
    let (a, b) = forked_pair();
    let store = store_of(&[&a, &b]);
    assert_eq!(find_least_common_ancestor(a[10], b[10], &store), Some(a[5]));
}

#[test]
fn lca_is_symmetric() {
    let (a, b) = forked_pair();
    let store = store_of(&[&a, &b]);
    assert_eq!(
        find_least_common_ancestor(a[10], b[10], &store),
        find_least_common_ancestor(b[10], a[10], &store)
    );
    assert_eq!(
        find_least_common_ancestor(a[10], a[7], &store),
        find_least_common_ancestor(a[7], a[10], &store)
    );
    assert_eq!(
        find_least_common_ancestor(a[10], 999_999, &store),
        find_least_common_ancestor(999_999, a[10], &store)
    );
}

#[test]
fn lca_of_disjoint_histories_misses() {
    let a = linear(5);
    let b: Vec<u64> = (0..5u64).map(|s| 500 + s).collect();
    let store = store_of(&[&a, &b]);
    assert_eq!(find_least_common_ancestor(a[4], b[4], &store), None);
}

#[test]
fn lca_of_ancestor_and_descendant_is_the_parent() {
    let a = linear(11);
    let store = store_of(&[&a]);
    assert_eq!(find_least_common_ancestor(a[10], a[7], &store), Some(a[6]));
}

#[test]
fn sorted_list_nth_is_strictly_increasing() {
    let mut l = SortedList::new();
    for v in [9u64, 3, 7, 3, 0, 9, 12, 1] {
        l.insert(v);
    }
    assert_eq!(l.len(), 6);
    let mut prev = None;
    for i in 0..l.len() {
        let v = l.nth(i);
        assert!(v.is_some());
        if let (Some(p), Some(c)) = (prev, v) {
            assert!(p < c);
        }
        prev = v;
    }
    assert_eq!(l.nth(l.len()), None);
    assert_eq!(l.nth(l.len() + 7), None);
    assert_eq!(l.nth(0), Some(0));
    assert_eq!(l.nth(5), Some(12));
}

#[test]
fn end_to_end_fork_materializes_the_branch_point() {
    let (a, b) = forked_pair();
    let genesis = a[0];
    let x = a[10];
    let y = b[10];
    let m = a[5];

    let mut t = Tree::new(genesis, 0);
    populate(&mut t, &[&a, &b]);

    assert_eq!(t.add_node(x, x), Some(()));
    assert_eq!(t.node_count(), 2);
    assert_eq!(t.get_node(x).unwrap().parent_hash, Some(genesis));
    assert_eq!(t.get_node(genesis).unwrap().children, vec![x]);

    assert_eq!(t.add_node(y, y), Some(()));
    assert_eq!(t.node_count(), 4);
    assert_eq!(t.get_node(m).unwrap().parent_hash, Some(genesis));
    assert_eq!(t.get_node(x).unwrap().parent_hash, Some(m));
    assert_eq!(t.get_node(y).unwrap().parent_hash, Some(m));
    assert_eq!(t.get_node(m).unwrap().block_hash, m);
    assert_eq!(t.get_node(m).unwrap().children, vec![x, y]);
}

#[test]
fn fork_exactly_at_an_existing_node_adds_no_synthetic_ancestor() {
    let a = linear(11);
    let mut b = vec![a[0]];
    for s in 1..11u64 {
        b.push(300 + s);
    }
    let genesis = a[0];

    let mut t = Tree::new(genesis, 0);
    populate(&mut t, &[&a, &b]);

    assert_eq!(t.add_node(a[10], a[10]), Some(()));
    assert_eq!(t.node_count(), 2);
    assert_eq!(t.add_node(b[10], b[10]), Some(()));
    assert_eq!(t.node_count(), 3);
    assert_eq!(t.get_node(a[10]).unwrap().parent_hash, Some(genesis));
    assert_eq!(t.get_node(b[10]).unwrap().parent_hash, Some(genesis));
    assert_eq!(t.get_node(genesis).unwrap().children, vec![a[10], b[10]]);
}

#[test]
fn validating_insert_refuses_incoherent_blocks() {
    let chain = linear(11);
    let genesis = chain[0];
    let mut t = Tree::new(genesis, 0);
    for (s, id) in chain.iter().enumerate() {
        assert!(t.try_insert_block(*id, Block { slot: s as u64, ancestor_skip_list: skips(&chain, s) }));
    }
    // a hash already registered is refused
    assert!(!t.try_insert_block(chain[3], Block { slot: 3, ancestor_skip_list: skips(&chain, 3) }));
    // a parent pointer that does not sit one slot behind is refused
    assert!(!t.try_insert_block(777, Block { slot: 11, ancestor_skip_list: [chain[5]; 16] }));
    // a skip entry that misses its exact power-of-two ancestor is refused
    let mut bad = [chain[10]; 16];
    bad[1] = chain[8];
    assert!(!t.try_insert_block(778, Block { slot: 11, ancestor_skip_list: bad }));
    assert!(!t.has_block(777));
    assert!(!t.has_block(778));
    // the coherent extension is accepted
    let chain2 = linear(12);
    assert!(t.try_insert_block(chain2[11], Block { slot: 11, ancestor_skip_list: skips(&chain2, 11) }));
    assert!(t.has_block(chain2[11]));
}

#[test]
fn compaction_keeps_interior_blocks_out_of_the_tree() {
    let chain = linear(21);
    let genesis = chain[0];
    let mut t = Tree::new(genesis, 0);
    populate(&mut t, &[&chain]);

    assert_eq!(t.add_node(chain[10], chain[10]), Some(()));
    assert_eq!(t.add_node(chain[20], chain[20]), Some(()));
    // 21 raw blocks, but only the root and the two inserted leaves are nodes.
    assert_eq!(t.node_count(), 3);
    assert_eq!(t.get_node(chain[20]).unwrap().parent_hash, Some(chain[10]));
    assert_eq!(t.get_node(chain[10]).unwrap().parent_hash, Some(genesis));
    assert!(t.get_node(chain[15]).is_none());
}

#[test]
fn missing_store_entry_propagates_a_miss_and_leaves_no_dangling_node() {
    let chain = linear(11);
    let genesis = chain[0];
    let mut t = Tree::new(genesis, 0);
    populate(&mut t, &[&chain]);

    let unknown: u64 = 424_242;
    assert_eq!(t.add_node(unknown, unknown), None);
    assert_eq!(t.node_count(), 1);
    assert!(t.get_node(unknown).is_none());

    // A known block still inserts afterwards, under the root.
    assert_eq!(t.add_node(chain[10], chain[10]), Some(()));
    assert_eq!(t.node_count(), 2);
    assert_eq!(t.get_node(chain[10]).unwrap().parent_hash, Some(genesis));
}

#[test]
fn score_is_opaque_storage() {
    let chain = linear(11);
    let genesis = chain[0];
    let mut t = Tree::new(genesis, 0);
    populate(&mut t, &[&chain]);
    assert_eq!(t.add_node(chain[10], chain[10]), Some(()));
    assert_eq!(t.get_node(chain[10]).unwrap().score, 0);
}
