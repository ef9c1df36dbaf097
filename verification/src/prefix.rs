//! Why a finished code tree can be decoded: every leaf ends in one subtree,
//! and no code of the tree begins another.
use crate::huffman::{
    build, fresh_leaf, huffman_tree, initial_leaves, insert_sorted, lemma_picks_are_leaves, merge,
    merge_leaf, pick_of, pick_step, picks, total_count, LeafModel, Pick,
};
use vstd::prelude::*;

verus! {

/// The sum of the weights of the first `k` leaves of `tree`.
pub open spec fn leaf_total(tree: Seq<LeafModel>, k: nat) -> nat
    decreases k,
{
    if k == 0 {
        0
    } else {
        leaf_total(tree, (k - 1) as nat) + tree[k - 1].weight
    }
}

/// A tree as construction starts from it: every leaf alone in its subtree,
/// without code bits, with a weight above zero, and no byte value twice.
pub open spec fn is_start(tree: Seq<LeafModel>, bound: int) -> bool {
    &&& forall|i: int|
        0 <= i < tree.len() ==> {
            &&& (#[trigger] tree[i]).id == tree[i].symbol
            &&& tree[i].code.len() == 0
            &&& tree[i].weight >= 1
            &&& tree[i].symbol < bound
        }
    &&& forall|i: int, j: int|
        0 <= i < j < tree.len() ==> (#[trigger] tree[i]).symbol != (#[trigger] tree[j]).symbol
}

/// Ordered insertion places the new leaf somewhere and moves no other.
pub proof fn lemma_insert_sorted_shape(leaves: Seq<LeafModel>, x: LeafModel)
    ensures
        exists|k: int| 0 <= k <= leaves.len() && insert_sorted(leaves, x) == #[trigger] leaves.insert(k, x),
    decreases leaves.len(),
{
    if leaves.len() == 0 {
        assert(leaves.insert(0, x) =~= seq![x]);
    } else if leaves.last().weight <= x.weight {
        assert(leaves.insert(leaves.len() as int, x) =~= leaves.push(x));
    } else {
        lemma_insert_sorted_shape(leaves.drop_last(), x);
        let k = choose|k: int|
            0 <= k <= leaves.drop_last().len() && insert_sorted(leaves.drop_last(), x)
                == #[trigger] leaves.drop_last().insert(k, x);
        assert(leaves.drop_last().insert(k, x).push(leaves.last()) =~= leaves.insert(k, x));
    }
}

/// Placing a leaf into a tree adds its weight to the total.
pub proof fn lemma_insert_total(leaves: Seq<LeafModel>, x: LeafModel, k: int)
    requires
        0 <= k <= leaves.len(),
    ensures
        leaf_total(leaves.insert(k, x), leaves.len() + 1) == leaf_total(leaves, leaves.len()) + x.weight,
    decreases leaves.len() - k,
{
    let bigger = leaves.insert(k, x);
    if k == leaves.len() {
        assert(bigger =~= leaves.push(x));
        lemma_total_prefix(bigger, leaves, leaves.len());
    } else {
        lemma_insert_total(leaves.drop_last(), x, k);
        assert(leaves.drop_last().insert(k, x) =~= bigger.drop_last());
        lemma_total_prefix(bigger, bigger.drop_last(), leaves.len());
        lemma_total_prefix(leaves, leaves.drop_last(), (leaves.len() - 1) as nat);
    }
}

/// The total of the first `k` weights depends on the first `k` leaves only.
pub proof fn lemma_total_prefix(a: Seq<LeafModel>, b: Seq<LeafModel>, k: nat)
    requires
        k <= a.len(),
        k <= b.len(),
        forall|j: int| 0 <= j < k ==> a[j] == b[j],
    ensures
        leaf_total(a, k) == leaf_total(b, k),
    decreases k,
{
    if k > 0 {
        lemma_total_prefix(a, b, (k - 1) as nat);
    }
}

/// The leaves that construction starts from are a start, and their weights
/// add up to the sum of all counts.
pub proof fn lemma_initial_is_start(freq: Seq<u16>)
    requires
        freq.len() <= 256,
    ensures
        is_start(initial_leaves(freq), freq.len() as int),
        leaf_total(initial_leaves(freq), initial_leaves(freq).len()) == total_count(freq),
    decreases freq.len(),
{
    if freq.len() > 0 {
        let rest = initial_leaves(freq.drop_last());
        lemma_initial_is_start(freq.drop_last());
        if freq.last() > 0 {
            let x = fresh_leaf((freq.len() - 1) as u8, freq.last());
            lemma_insert_sorted_shape(rest, x);
            let k = choose|k: int|
                0 <= k <= rest.len() && insert_sorted(rest, x) == #[trigger] rest.insert(k, x);
            lemma_insert_total(rest, x, k);
            let grown = rest.insert(k, x);
            assert forall|i: int| 0 <= i < grown.len() implies {
                &&& (#[trigger] grown[i]).id == grown[i].symbol
                &&& grown[i].code.len() == 0
                &&& grown[i].weight >= 1
                &&& grown[i].symbol < freq.len()
            } by {
                if i < k {
                    assert(grown[i] == rest[i]);
                } else if i > k {
                    assert(grown[i] == rest[i - 1]);
                }
            }
            assert forall|i: int, j: int| 0 <= i < j < grown.len() implies (#[trigger] grown[i]).symbol
                != (#[trigger] grown[j]).symbol by {
                let a = if i < k {
                    i
                } else {
                    i - 1
                };
                let b = if j < k {
                    j
                } else {
                    j - 1
                };
                if i != k && j != k {
                    assert(grown[i] == rest[a]);
                    assert(grown[j] == rest[b]);
                } else if i == k {
                    assert(grown[j] == rest[b]);
                } else {
                    assert(grown[i] == rest[a]);
                }
            }
        }
    }
}

/// The sum of the starting weights of the leaves among the first `k` of
/// `tree` that belong to subtree `id`.
pub open spec fn group_weight(tree: Seq<LeafModel>, base: Seq<nat>, id: u8, k: nat) -> nat
    decreases k,
{
    if k == 0 {
        0
    } else {
        group_weight(tree, base, id, (k - 1) as nat) + if tree[k - 1].id == id {
            base[k - 1]
        } else {
            0nat
        }
    }
}

/// The sum of the first `k` starting weights.
pub open spec fn base_total(base: Seq<nat>, k: nat) -> nat
    decreases k,
{
    if k == 0 {
        0
    } else {
        base_total(base, (k - 1) as nat) + base[k - 1]
    }
}

/// The subtrees that `tree` consists of.
pub open spec fn ids(tree: Seq<LeafModel>) -> Set<u8> {
    Seq::new(tree.len(), |j: int| tree[j].id).to_set()
}

/// Within one subtree no code begins another.
pub open spec fn separated(tree: Seq<LeafModel>) -> bool {
    forall|i: int, j: int|
        0 <= i < tree.len() && 0 <= j < tree.len() && i != j && (#[trigger] tree[i]).id == (
        #[trigger] tree[j]).id ==> !tree[i].code.is_prefix_of(tree[j].code)
}

/// No code of the tree begins another.
pub open spec fn prefix_free(tree: Seq<LeafModel>) -> bool {
    forall|i: int, j: int|
        0 <= i < tree.len() && 0 <= j < tree.len() && i != j ==> !(#[trigger] tree[i]).code.is_prefix_of(
            (#[trigger] tree[j]).code,
        )
}

/// All leaves belong to one subtree.
pub open spec fn single(tree: Seq<LeafModel>) -> bool {
    forall|i: int| 0 <= i < tree.len() ==> (#[trigger] tree[i]).id == tree[0].id
}

/// Every leaf carries the weight of its subtree: the sum of the starting
/// weights, all above zero, of the leaves that belong to it.
pub open spec fn weighed(tree: Seq<LeafModel>, base: Seq<nat>) -> bool {
    &&& base.len() == tree.len()
    &&& forall|j: int| 0 <= j < base.len() ==> #[trigger] base[j] >= 1
    &&& forall|i: int|
        0 <= i < tree.len() ==> (#[trigger] tree[i]).weight == group_weight(
            tree,
            base,
            tree[i].id,
            tree.len(),
        )
}

/// A subtree weighs no more than all leaves together, and less where a leaf
/// belongs to another subtree.
pub proof fn lemma_group_weight_bound(tree: Seq<LeafModel>, base: Seq<nat>, id: u8, k: nat)
    requires
        k <= tree.len(),
        base.len() == tree.len(),
        forall|j: int| 0 <= j < base.len() ==> #[trigger] base[j] >= 1,
    ensures
        group_weight(tree, base, id, k) <= base_total(base, k),
        (exists|j: int| 0 <= j < k && (#[trigger] tree[j]).id != id) ==> group_weight(
            tree,
            base,
            id,
            k,
        ) < base_total(base, k),
    decreases k,
{
    if k > 0 {
        lemma_group_weight_bound(tree, base, id, (k - 1) as nat);
        assert(base[k - 1] >= 1);
        if exists|j: int| 0 <= j < k && (#[trigger] tree[j]).id != id {
            let j = choose|j: int| 0 <= j < k && (#[trigger] tree[j]).id != id;
            if j < k - 1 {
                assert(0 <= j < k - 1 && tree[j].id != id);
            }
        }
    }
}

/// A subtree weighs at least as much as any one of its leaves did at the start.
pub proof fn lemma_group_weight_member(tree: Seq<LeafModel>, base: Seq<nat>, i: int, k: nat)
    requires
        0 <= i < k <= tree.len(),
        base.len() == tree.len(),
    ensures
        group_weight(tree, base, tree[i].id, k) >= base[i],
    decreases k,
{
    if i < k - 1 {
        lemma_group_weight_member(tree, base, i, (k - 1) as nat);
    }
}

/// Merging `first` and `second` gives `first` the weight of both and leaves
/// every other subtree as it was.
pub proof fn lemma_merge_group_weights(
    tree: Seq<LeafModel>,
    base: Seq<nat>,
    first: Pick,
    second: Pick,
    id: u8,
    k: nat,
)
    requires
        first.id != second.id,
        k <= tree.len(),
    ensures
        group_weight(merge(tree, first, second), base, id, k) == if id == first.id {
            group_weight(tree, base, first.id, k) + group_weight(tree, base, second.id, k)
        } else if id == second.id {
            0
        } else {
            group_weight(tree, base, id, k)
        },
    decreases k,
{
    if k > 0 {
        lemma_merge_group_weights(tree, base, first, second, id, (k - 1) as nat);
    }
}

/// Where the scan finds no second subtree, every leaf it saw belongs to the first.
pub proof fn lemma_picks_none(tree: Seq<LeafModel>, k: nat)
    requires
        tree.len() > 0,
        k <= tree.len(),
        picks(tree, k).1 is None,
    ensures
        picks(tree, k).0.id == tree[0].id,
        forall|j: int| 0 <= j < k ==> (#[trigger] tree[j]).id == tree[0].id,
    decreases k,
{
    if k > 0 {
        let before = picks(tree, (k - 1) as nat);
        assert(picks(tree, k) == pick_step(before, tree[k - 1]));
        assert(before.1 is None);
        lemma_picks_none(tree, (k - 1) as nat);
    }
}

/// Merging keeps the codes of every subtree apart.
pub proof fn lemma_merge_separated(tree: Seq<LeafModel>, first: Pick, second: Pick)
    requires
        separated(tree),
        first.id != second.id,
    ensures
        separated(merge(tree, first, second)),
{
    let merged = merge(tree, first, second);
    assert forall|i: int, j: int|
        0 <= i < merged.len() && 0 <= j < merged.len() && i != j && (#[trigger] merged[i]).id == (
        #[trigger] merged[j]).id implies !merged[i].code.is_prefix_of(merged[j].code) by {
        let a = tree[i];
        let b = tree[j];
        let x = merged[i].code;
        let y = merged[j].code;
        assert(merged[i] == merge_leaf(a, first, second));
        assert(merged[j] == merge_leaf(b, first, second));
        let moved_a = a.id == first.id || a.id == second.id;
        let moved_b = b.id == first.id || b.id == second.id;
        if moved_a && moved_b {
            if a.id == b.id {
                assert(!a.code.is_prefix_of(b.code));
                if x.is_prefix_of(y) {
                    assert(a.code.len() <= b.code.len());
                    assert forall|t: int| 0 <= t < a.code.len() implies a.code[t] == b.code.subrange(
                        0,
                        a.code.len() as int,
                    )[t] by {
                        assert(x[t + 1] == y.subrange(0, x.len() as int)[t + 1]);
                    }
                    assert(a.code =~= b.code.subrange(0, a.code.len() as int));
                }
            } else {
                if x.is_prefix_of(y) {
                    assert(x[0] == y.subrange(0, x.len() as int)[0]);
                }
            }
        } else if !moved_a && !moved_b {
            assert(!a.code.is_prefix_of(b.code));
        }
    }
}

/// Merging two subtrees of the tree removes the second from the set of subtrees.
pub proof fn lemma_merge_ids(tree: Seq<LeafModel>, first: Pick, second: Pick)
    requires
        first.id != second.id,
        exists|i: int| 0 <= i < tree.len() && first == pick_of(#[trigger] tree[i]),
        exists|i: int| 0 <= i < tree.len() && second == pick_of(#[trigger] tree[i]),
    ensures
        ids(merge(tree, first, second)) == ids(tree).remove(second.id),
        ids(tree).contains(second.id),
        ids(tree).finite(),
{
    let merged = merge(tree, first, second);
    let before = Seq::new(tree.len(), |j: int| tree[j].id);
    let after = Seq::new(merged.len(), |j: int| merged[j].id);
    let ia = choose|i: int| 0 <= i < tree.len() && first == pick_of(#[trigger] tree[i]);
    let ib = choose|i: int| 0 <= i < tree.len() && second == pick_of(#[trigger] tree[i]);
    vstd::seq_lib::seq_to_set_is_finite(before);
    assert(before[ib] == second.id);
    assert(ids(tree).contains(second.id));
    assert forall|id: u8| ids(merged).contains(id) == ids(tree).remove(second.id).contains(id) by {
        if ids(merged).contains(id) {
            let j = choose|j: int| 0 <= j < after.len() && after[j] == id;
            assert(after[j] == merge_leaf(tree[j], first, second).id);
            if tree[j].id == first.id || tree[j].id == second.id {
                assert(before[ia] == id);
            } else {
                assert(before[j] == id);
            }
            assert(before.contains(id));
        }
        if ids(tree).remove(second.id).contains(id) {
            let j = choose|j: int| 0 <= j < before.len() && before[j] == id;
            assert(after[j] == merge_leaf(tree[j], first, second).id);
            assert(after[j] == id);
            assert(after.contains(id));
        }
    }
    assert(ids(merged) =~= ids(tree).remove(second.id));
}

/// A subtree that holds every leaf weighs what all leaves weighed at the start.
pub proof fn lemma_whole_group(tree: Seq<LeafModel>, base: Seq<nat>, id: u8, k: nat)
    requires
        k <= tree.len(),
        base.len() == tree.len(),
        forall|j: int| 0 <= j < k ==> (#[trigger] tree[j]).id == id,
    ensures
        group_weight(tree, base, id, k) == base_total(base, k),
    decreases k,
{
    if k > 0 {
        lemma_whole_group(tree, base, id, (k - 1) as nat);
    }
}

/// The total of the starting weights is the total of the leaves' weights
/// where the two agree leaf by leaf.
pub proof fn lemma_base_total(tree: Seq<LeafModel>, base: Seq<nat>, k: nat)
    requires
        k <= tree.len(),
        base.len() == tree.len(),
        forall|j: int| 0 <= j < k ==> #[trigger] base[j] == tree[j].weight,
    ensures
        base_total(base, k) == leaf_total(tree, k),
    decreases k,
{
    if k > 0 {
        lemma_base_total(tree, base, (k - 1) as nat);
    }
}

/// Where no two leaves share a subtree, every subtree weighs what its one leaf does.
pub proof fn lemma_group_weight_alone(tree: Seq<LeafModel>, base: Seq<nat>, i: int, k: nat)
    requires
        0 <= i < tree.len(),
        k <= tree.len(),
        base.len() == tree.len(),
        forall|a: int, b: int| 0 <= a < b < tree.len() ==> (#[trigger] tree[a]).id != (#[trigger] tree[b]).id,
    ensures
        group_weight(tree, base, tree[i].id, k) == if i < k {
            base[i]
        } else {
            0
        },
    decreases k,
{
    if k > 0 {
        lemma_group_weight_alone(tree, base, i, (k - 1) as nat);
        if k - 1 != i {
            if k - 1 < i {
                assert(tree[k - 1].id != tree[i].id);
            } else {
                assert(tree[i].id != tree[k - 1].id);
            }
        }
    }
}

/// Construction ends with all leaves in one subtree and with the codes of
/// that subtree apart, whenever it starts from a tree whose leaves carry the
/// weights of their subtrees, whose codes are apart within each subtree, and
/// whose subtrees are no more than the rounds allowed.
pub proof fn lemma_build_single(tree: Seq<LeafModel>, base: Seq<nat>, total: nat, rounds: nat)
    requires
        tree.len() > 0,
        weighed(tree, base),
        separated(tree),
        total == base_total(base, base.len()),
        ids(tree).finite(),
        ids(tree).len() <= rounds,
    ensures
        single(build(tree, total, rounds)),
        separated(build(tree, total, rounds)),
        weighed(build(tree, total, rounds), base),
        build(tree, total, rounds).len() == tree.len(),
    decreases rounds,
{
    let n = tree.len();
    let idseq = Seq::new(tree.len(), |j: int| tree[j].id);
    assert(idseq[0] == tree[0].id);
    assert(ids(tree).contains(tree[0].id));
    assert(ids(tree).len() >= 1) by {
        if ids(tree).len() == 0 {
            assert(ids(tree) =~= Set::<u8>::empty());
        }
    }
    if tree[0].weight == total {
        lemma_group_weight_bound(tree, base, tree[0].id, n);
        assert forall|i: int| 0 <= i < n implies (#[trigger] tree[i]).id == tree[0].id by {
            if tree[i].id != tree[0].id {
                assert(0 <= i < n && tree[i].id != tree[0].id);
            }
        }
    } else {
        let chosen = picks(tree, n);
        if chosen.1 is None {
            lemma_picks_none(tree, n);
        } else {
            let first = chosen.0;
            let second = chosen.1->Some_0;
            lemma_picks_are_leaves(tree, n);
            let ia = choose|i: int| 0 <= i < tree.len() && first == pick_of(#[trigger] tree[i]);
            let ib = choose|i: int| 0 <= i < tree.len() && second == pick_of(#[trigger] tree[i]);
            lemma_group_weight_member(tree, base, ia, n);
            assert(base[ia] >= 1);
            assert(first.weight >= 1);
            let merged = merge(tree, first, second);
            lemma_merge_separated(tree, first, second);
            lemma_merge_ids(tree, first, second);
            assert forall|i: int| 0 <= i < merged.len() implies (#[trigger] merged[i]).weight
                == group_weight(merged, base, merged[i].id, merged.len()) by {
                lemma_merge_group_weights(tree, base, first, second, merged[i].id, n);
                assert(merged[i] == merge_leaf(tree[i], first, second));
                assert(tree[ia].weight == group_weight(tree, base, tree[ia].id, n));
                assert(tree[ib].weight == group_weight(tree, base, tree[ib].id, n));
                assert(tree[i].weight == group_weight(tree, base, tree[i].id, n));
            }
            lemma_build_single(merged, base, total, (rounds - 1) as nat);
        }
    }
}

/// A finished tree: all leaves are in one subtree that weighs the sum of all
/// counts, so construction was complete when it ended; no code begins
/// another, so every code has at least one bit; and no byte value has two
/// leaves.
pub proof fn lemma_finished_tree(freq: Seq<u16>)
    requires
        freq.len() <= 256,
        initial_leaves(freq).len() >= 2,
    ensures
        single(huffman_tree(freq)),
        huffman_tree(freq)[0].weight == total_count(freq),
        prefix_free(huffman_tree(freq)),
        huffman_tree(freq).len() == initial_leaves(freq).len(),
        forall|i: int, j: int|
            0 <= i < j < huffman_tree(freq).len() ==> (#[trigger] huffman_tree(freq)[i]).symbol != (
            #[trigger] huffman_tree(freq)[j]).symbol,
        forall|i: int| 0 <= i < huffman_tree(freq).len() ==> (#[trigger] huffman_tree(freq)[i]).code.len() >= 1,
{
    let start = initial_leaves(freq);
    let n = start.len();
    let total = total_count(freq);
    let base = Seq::new(n, |j: int| start[j].weight);
    let tree = huffman_tree(freq);
    lemma_initial_is_start(freq);
    lemma_base_total(start, base, n);
    assert forall|i: int| 0 <= i < n implies (#[trigger] start[i]).weight == group_weight(
        start,
        base,
        start[i].id,
        n,
    ) by {
        lemma_group_weight_alone(start, base, i, n);
    }
    let idseq = Seq::new(start.len(), |j: int| start[j].id);
    vstd::seq_lib::seq_to_set_is_finite(idseq);
    idseq.lemma_cardinality_of_set();
    lemma_build_single(start, base, total, n);
    crate::huffman::lemma_build_symbols(start, total, n);
    assert(tree[0].weight == total) by {
        if group_weight(tree, base, tree[0].id, n) != base_total(base, n) {
            lemma_whole_group(tree, base, tree[0].id, n);
        }
    }
    assert forall|i: int, j: int| 0 <= i < tree.len() && 0 <= j < tree.len() && i != j implies !(
    #[trigger] tree[i]).code.is_prefix_of((#[trigger] tree[j]).code) by {
        assert(tree[i].id == tree[0].id);
        assert(tree[j].id == tree[0].id);
    }
    assert forall|i: int| 0 <= i < tree.len() implies (#[trigger] tree[i]).code.len() >= 1 by {
        let other = if i == 0 {
            1int
        } else {
            0int
        };
        if tree[i].code.len() == 0 {
            assert(tree[i].code =~= tree[other].code.subrange(0, 0));
            assert(tree[i].code.is_prefix_of(tree[other].code));
        }
    }
    assert forall|i: int, j: int| 0 <= i < j < tree.len() implies (#[trigger] tree[i]).symbol != (
    #[trigger] tree[j]).symbol by {
        assert(tree[i].symbol == start[i].symbol);
        assert(tree[j].symbol == start[j].symbol);
    }
}

} // verus!
