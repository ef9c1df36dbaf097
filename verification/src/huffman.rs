//! The Huffman coder: a code built from byte frequencies by repeated merging
//! of the two lightest subtrees, an encoder that writes the frequency table
//! followed by the packed codes, and a decoder that rebuilds the same code
//! from the table.
use crate::bits::{lemma_packed, lemma_value_determined, packed_words, Bits};
use crate::bytes::{
    table_bytes, table_counts, table_from_bytes, table_to_bytes, words_be_bytes, words_to_bytes,
};
use vstd::prelude::*;

verus! {

/// Why a Huffman operation stopped without a result.
#[derive(Debug, Clone, Copy, PartialEq, Eq)]
pub enum HuffmanError {
    /// Fewer than two distinct byte values occur, so no code can be built.
    DegenerateTree,
}

/// A leaf of the code tree under construction, as the contracts see it.
pub ghost struct LeafModel {
    /// The code bits found so far, the bit nearest the root first.
    pub code: Seq<bool>,
    /// The byte value that the leaf stands for.
    pub symbol: u8,
    /// The subtree that the leaf belongs to.
    pub id: u8,
    /// The weight of that subtree.
    pub weight: nat,
}

/// A leaf of the code tree under construction.
pub struct HuffmanLeaf {
    pub codeword: Bits,
    pub byte_value: u8,
    pub subtree_id: u8,
    pub subtree_weight: u32,
}

impl HuffmanLeaf {
    /// The leaf as the contracts see it.
    pub open spec fn view(&self) -> LeafModel {
        LeafModel {
            code: self.codeword.value_bits(),
            symbol: self.byte_value,
            id: self.subtree_id,
            weight: self.subtree_weight as nat,
        }
    }

    /// The code is a right-justified value with nothing ahead of its bits.
    pub open spec fn wf(&self) -> bool {
        self.codeword.is_value() && self.codeword.head_clear()
    }
}

/// The leaves of `tree` as the contracts see them.
pub open spec fn tree_view(tree: Seq<HuffmanLeaf>) -> Seq<LeafModel> {
    Seq::new(tree.len(), |i: int| tree[i]@)
}

/// A fresh leaf for byte value `symbol` with `count` occurrences.
pub open spec fn fresh_leaf(symbol: u8, count: u16) -> LeafModel {
    LeafModel { code: Seq::empty(), symbol, id: symbol, weight: count as nat }
}

/// `leaves`, ordered by weight, with `x` placed behind every leaf that is not
/// heavier than it.
pub open spec fn insert_sorted(leaves: Seq<LeafModel>, x: LeafModel) -> Seq<LeafModel>
    decreases leaves.len(),
{
    if leaves.len() == 0 {
        seq![x]
    } else if leaves.last().weight <= x.weight {
        leaves.push(x)
    } else {
        insert_sorted(leaves.drop_last(), x).push(leaves.last())
    }
}

/// The leaves that construction starts from: one for each byte value with a
/// count above zero, lightest first, byte values of equal count in
/// ascending order.
pub open spec fn initial_leaves(freq: Seq<u16>) -> Seq<LeafModel>
    decreases freq.len(),
{
    if freq.len() == 0 {
        Seq::empty()
    } else {
        let rest = initial_leaves(freq.drop_last());
        if freq.last() > 0 {
            insert_sorted(rest, fresh_leaf((freq.len() - 1) as u8, freq.last()))
        } else {
            rest
        }
    }
}

/// The sum of all counts.
pub open spec fn total_count(freq: Seq<u16>) -> nat
    decreases freq.len(),
{
    if freq.len() == 0 {
        0
    } else {
        total_count(freq.drop_last()) + freq.last() as nat
    }
}

/// Placing `x` at position `k` is the ordered insertion when every leaf from
/// `k` on is heavier than `x` and the leaf before `k`, if any, is not.
pub proof fn lemma_insert_sorted_at(leaves: Seq<LeafModel>, x: LeafModel, k: int)
    requires
        0 <= k <= leaves.len(),
        forall|j: int| k <= j < leaves.len() ==> (#[trigger] leaves[j]).weight > x.weight,
        k > 0 ==> leaves[k - 1].weight <= x.weight,
    ensures
        insert_sorted(leaves, x) == leaves.insert(k, x),
    decreases leaves.len(),
{
    if leaves.len() == 0 {
        assert(leaves.insert(k, x) =~= seq![x]);
    } else if k == leaves.len() {
        assert(leaves.insert(k, x) =~= leaves.push(x));
    } else {
        assert(leaves.last().weight > x.weight);
        lemma_insert_sorted_at(leaves.drop_last(), x, k);
        assert(leaves.drop_last().insert(k, x).push(leaves.last()) =~= leaves.insert(k, x));
    }
}

/// The leaves that construction starts from, for the counts in `freq`.
pub fn make_leaves(freq: &[u16]) -> (tree: Vec<HuffmanLeaf>)
    requires
        freq@.len() <= 256,
    ensures
        tree_view(tree@) == initial_leaves(freq@),
        tree@.len() <= freq@.len(),
        forall|i: int| 0 <= i < tree@.len() ==> (#[trigger] tree@[i]).wf(),
        forall|i: int| 0 <= i < tree@.len() ==> (#[trigger] tree@[i]).codeword.size == 0,
        forall|i: int| 0 <= i < tree@.len() ==> (#[trigger] tree@[i]).subtree_weight <= 0xffff,
{
    let mut tree: Vec<HuffmanLeaf> = Vec::new();
    let mut b: usize = 0;
    assert(tree_view(tree@) =~= initial_leaves(freq@.subrange(0, 0)));
    while b < freq.len()
        invariant
            b <= freq@.len() <= 256,
            tree@.len() <= b,
            tree_view(tree@) == initial_leaves(freq@.subrange(0, b as int)),
            forall|i: int| 0 <= i < tree@.len() ==> (#[trigger] tree@[i]).wf(),
            forall|i: int| 0 <= i < tree@.len() ==> (#[trigger] tree@[i]).codeword.size == 0,
            forall|i: int| 0 <= i < tree@.len() ==> (#[trigger] tree@[i]).subtree_weight <= 0xffff,
        decreases freq@.len() - b,
    {
        let n: u16 = freq[b];
        proof {
            let upto = freq@.subrange(0, b + 1);
            assert(upto.drop_last() =~= freq@.subrange(0, b as int));
            assert(upto.last() == n);
        }
        if n > 0 {
            let mut k: usize = tree.len();
            while k > 0 && tree[k - 1].subtree_weight > n as u32
                invariant
                    k <= tree@.len(),
                    forall|j: int| k <= j < tree@.len() ==> (#[trigger] tree@[j]).subtree_weight > n,
                decreases k,
            {
                k -= 1;
            }
            let leaf = HuffmanLeaf {
                codeword: Bits::new(Vec::new(), 0),
                byte_value: b as u8,
                subtree_id: b as u8,
                subtree_weight: n as u32,
            };
            let ghost before = tree@;
            proof {
                assert(leaf.codeword.bits@ =~= Seq::<u64>::empty());
                assert(leaf.codeword.value_bits() =~= Seq::<bool>::empty());
                assert(leaf@ == fresh_leaf(b as u8, n));
                let models = tree_view(before);
                assert forall|j: int| k <= j < models.len() implies (#[trigger] models[j]).weight
                    > leaf@.weight by {
                    assert(before[j].subtree_weight > n);
                }
                lemma_insert_sorted_at(models, leaf@, k as int);
            }
            tree.insert(k, leaf);
            assert(tree_view(tree@) =~= tree_view(before).insert(k as int, leaf@));
        }
        b += 1;
    }
    assert(freq@.subrange(0, freq@.len() as int) =~= freq@);
    tree
}

/// A subtree chosen for merging: its id and its weight.
pub ghost struct Pick {
    pub id: u8,
    pub weight: nat,
}

/// The subtree that `leaf` belongs to.
pub open spec fn pick_of(leaf: LeafModel) -> Pick {
    Pick { id: leaf.id, weight: leaf.weight }
}

/// The two lightest subtrees seen once `leaf` has been looked at too. A leaf
/// of a subtree already chosen changes nothing; a leaf lighter than the
/// lightest takes its place and moves it to second; a leaf lighter than the
/// second, or the first leaf of another subtree, becomes the second.
pub open spec fn pick_step(chosen: (Pick, Option<Pick>), leaf: LeafModel) -> (Pick, Option<Pick>) {
    let first = chosen.0;
    let second = chosen.1;
    if leaf.id == first.id || (second is Some && leaf.id == second->Some_0.id) {
        chosen
    } else if leaf.weight < first.weight {
        (pick_of(leaf), Some(first))
    } else if second is None || leaf.weight < second->Some_0.weight {
        (first, Some(pick_of(leaf)))
    } else {
        chosen
    }
}

/// The two lightest subtrees among the first `k` leaves of `tree`, found by
/// one scan that starts from the subtree of the first leaf.
pub open spec fn picks(tree: Seq<LeafModel>, k: nat) -> (Pick, Option<Pick>)
    decreases k,
{
    if k == 0 {
        (pick_of(tree[0]), None)
    } else {
        pick_step(picks(tree, (k - 1) as nat), tree[k - 1])
    }
}

/// `leaf` after the subtrees `first` and `second` are merged: a leaf of
/// `first` gets a leading zero bit, a leaf of `second` a leading one bit, and
/// both join the subtree `first` at the combined weight.
pub open spec fn merge_leaf(leaf: LeafModel, first: Pick, second: Pick) -> LeafModel {
    if leaf.id == first.id {
        LeafModel {
            code: seq![false] + leaf.code,
            symbol: leaf.symbol,
            id: first.id,
            weight: first.weight + second.weight,
        }
    } else if leaf.id == second.id {
        LeafModel {
            code: seq![true] + leaf.code,
            symbol: leaf.symbol,
            id: first.id,
            weight: first.weight + second.weight,
        }
    } else {
        leaf
    }
}

/// `tree` after the subtrees `first` and `second` are merged.
pub open spec fn merge(tree: Seq<LeafModel>, first: Pick, second: Pick) -> Seq<LeafModel> {
    Seq::new(tree.len(), |i: int| merge_leaf(tree[i], first, second))
}

/// The tree after merging the two lightest subtrees again and again, at most
/// `rounds` times, until the subtree of the first leaf weighs `total`, no
/// second subtree is left, or the two lightest weigh nothing.
pub open spec fn build(tree: Seq<LeafModel>, total: nat, rounds: nat) -> Seq<LeafModel>
    decreases rounds,
{
    if rounds == 0 || tree.len() == 0 || tree[0].weight == total {
        tree
    } else {
        let chosen = picks(tree, tree.len());
        if chosen.1 is None || chosen.0.weight + chosen.1->Some_0.weight == 0 {
            tree
        } else {
            build(merge(tree, chosen.0, chosen.1->Some_0), total, (rounds - 1) as nat)
        }
    }
}

/// The finished code tree for the counts in `freq`. A tree of `n` leaves is
/// complete after fewer than `n` merges.
pub open spec fn huffman_tree(freq: Seq<u16>) -> Seq<LeafModel> {
    let leaves = initial_leaves(freq);
    build(leaves, total_count(freq), leaves.len())
}

/// The number of leaves among the first `k` of `tree` that belong to subtree `id`.
pub open spec fn group_count(tree: Seq<LeafModel>, id: u8, k: nat) -> nat
    decreases k,
{
    if k == 0 {
        0
    } else {
        group_count(tree, id, (k - 1) as nat) + if tree[k - 1].id == id {
            1nat
        } else {
            0nat
        }
    }
}

/// No subtree weighs more than the largest count times the number of its leaves.
pub open spec fn weights_bounded(tree: Seq<LeafModel>) -> bool {
    forall|i: int|
        0 <= i < tree.len() ==> (#[trigger] tree[i]).weight <= 0xffff * group_count(
            tree,
            tree[i].id,
            tree.len(),
        )
}

/// Two different subtrees share no leaf, so together they hold at most all leaves.
pub proof fn lemma_groups_disjoint(tree: Seq<LeafModel>, a: u8, b: u8, k: nat)
    requires
        a != b,
        k <= tree.len(),
    ensures
        group_count(tree, a, k) + group_count(tree, b, k) <= k,
    decreases k,
{
    if k > 0 {
        lemma_groups_disjoint(tree, a, b, (k - 1) as nat);
    }
}

/// A leaf among the first `k` counts toward its own subtree.
pub proof fn lemma_group_has_member(tree: Seq<LeafModel>, i: int, k: nat)
    requires
        0 <= i < k <= tree.len(),
    ensures
        group_count(tree, tree[i].id, k) >= 1,
    decreases k,
{
    if i < k - 1 {
        lemma_group_has_member(tree, i, (k - 1) as nat);
    }
}

/// Merging `first` and `second` gives `first` the leaves of both and leaves
/// every other subtree as it was.
pub proof fn lemma_merge_groups(tree: Seq<LeafModel>, first: Pick, second: Pick, id: u8, k: nat)
    requires
        first.id != second.id,
        k <= tree.len(),
    ensures
        group_count(merge(tree, first, second), id, k) == if id == first.id {
            group_count(tree, first.id, k) + group_count(tree, second.id, k)
        } else if id == second.id {
            0
        } else {
            group_count(tree, id, k)
        },
    decreases k,
{
    if k > 0 {
        lemma_merge_groups(tree, first, second, id, (k - 1) as nat);
    }
}

/// Each chosen subtree is the subtree of a leaf of the tree, with that leaf's
/// weight, and the two chosen subtrees differ.
pub proof fn lemma_picks_are_leaves(tree: Seq<LeafModel>, k: nat)
    requires
        tree.len() > 0,
        k <= tree.len(),
    ensures
        exists|i: int| 0 <= i < tree.len() && picks(tree, k).0 == pick_of(#[trigger] tree[i]),
        picks(tree, k).1 is Some ==> picks(tree, k).1->Some_0.id != picks(tree, k).0.id,
        picks(tree, k).1 is Some ==> exists|i: int|
            0 <= i < tree.len() && picks(tree, k).1->Some_0 == pick_of(#[trigger] tree[i]),
    decreases k,
{
    if k == 0 {
        assert(picks(tree, k).0 == pick_of(tree[0]));
    } else {
        lemma_picks_are_leaves(tree, (k - 1) as nat);
        let before = picks(tree, (k - 1) as nat);
        let after = picks(tree, k);
        let leaf = tree[k - 1];
        assert(after == pick_step(before, leaf));
        let i0 = choose|i: int| 0 <= i < tree.len() && before.0 == pick_of(#[trigger] tree[i]);
        if after.0 == before.0 {
            assert(after.0 == pick_of(tree[i0]));
        } else {
            assert(after.0 == pick_of(tree[k - 1]));
        }
        if after.1 is Some {
            if after.1 == before.1 {
                let i1 = choose|i: int|
                    0 <= i < tree.len() && before.1->Some_0 == pick_of(#[trigger] tree[i]);
                assert(after.1->Some_0 == pick_of(tree[i1]));
            } else if after.1 == Some(before.0) {
                assert(after.1->Some_0 == pick_of(tree[i0]));
            } else {
                assert(after.1->Some_0 == pick_of(tree[k - 1]));
            }
        }
    }
}

/// Merging two chosen subtrees keeps every weight within its bound.
pub proof fn lemma_merge_bounded(tree: Seq<LeafModel>, first: Pick, second: Pick)
    requires
        weights_bounded(tree),
        first.id != second.id,
        exists|i: int| 0 <= i < tree.len() && first == pick_of(#[trigger] tree[i]),
        exists|i: int| 0 <= i < tree.len() && second == pick_of(#[trigger] tree[i]),
    ensures
        weights_bounded(merge(tree, first, second)),
        first.weight + second.weight <= 0xffff * tree.len(),
{
    let n = tree.len();
    let merged = merge(tree, first, second);
    let ia = choose|i: int| 0 <= i < tree.len() && first == pick_of(#[trigger] tree[i]);
    let ib = choose|i: int| 0 <= i < tree.len() && second == pick_of(#[trigger] tree[i]);
    let ca = group_count(tree, first.id, n);
    let cb = group_count(tree, second.id, n);
    assert(tree[ia].weight <= 0xffff * group_count(tree, tree[ia].id, n));
    assert(tree[ib].weight <= 0xffff * group_count(tree, tree[ib].id, n));
    lemma_groups_disjoint(tree, first.id, second.id, n);
    assert(first.weight + second.weight <= 0xffff * (ca + cb));
    assert forall|i: int| 0 <= i < merged.len() implies (#[trigger] merged[i]).weight <= 0xffff
        * group_count(merged, merged[i].id, merged.len()) by {
        lemma_merge_groups(tree, first, second, merged[i].id, n);
        if tree[i].id == first.id || tree[i].id == second.id {
        } else {
            assert(merged[i] == tree[i]);
            assert(tree[i].weight <= 0xffff * group_count(tree, tree[i].id, n));
        }
    }
}

/// The sum of all counts.
pub fn sum_counts(freq: &[u16]) -> (r: u32)
    requires
        freq@.len() <= 256,
    ensures
        r == total_count(freq@),
{
    let mut r: u32 = 0;
    let mut i: usize = 0;
    assert(freq@.subrange(0, 0) =~= Seq::<u16>::empty());
    while i < freq.len()
        invariant
            i <= freq@.len() <= 256,
            r == total_count(freq@.subrange(0, i as int)),
            r <= 0xffff * i,
        decreases freq@.len() - i,
    {
        proof {
            let upto = freq@.subrange(0, i + 1);
            assert(upto.drop_last() =~= freq@.subrange(0, i as int));
        }
        r = r + freq[i] as u32;
        i += 1;
    }
    assert(freq@.subrange(0, freq@.len() as int) =~= freq@);
    r
}

/// A chosen subtree as the contracts see it.
pub open spec fn pick_view(p: (u8, u32)) -> Pick {
    Pick { id: p.0, weight: p.1 as nat }
}

/// The second chosen subtree, if any, as the contracts see it.
pub open spec fn second_view(p: Option<(u8, u32)>) -> Option<Pick> {
    match p {
        Some(q) => Some(pick_view(q)),
        None => None,
    }
}

/// Scans `tree` once for its two lightest subtrees.
pub fn lightest(tree: &Vec<HuffmanLeaf>) -> (r: ((u8, u32), Option<(u8, u32)>))
    requires
        tree@.len() > 0,
    ensures
        pick_view(r.0) == picks(tree_view(tree@), tree@.len()).0,
        second_view(r.1) == picks(tree_view(tree@), tree@.len()).1,
{
    let mut first: (u8, u32) = (tree[0].subtree_id, tree[0].subtree_weight);
    let mut second: Option<(u8, u32)> = None;
    let mut i: usize = 0;
    while i < tree.len()
        invariant
            i <= tree@.len(),
            pick_view(first) == picks(tree_view(tree@), i as nat).0,
            second_view(second) == picks(tree_view(tree@), i as nat).1,
        decreases tree@.len() - i,
    {
        let id: u8 = tree[i].subtree_id;
        let weight: u32 = tree[i].subtree_weight;
        proof {
            assert(tree_view(tree@)[i as int] == tree@[i as int]@);
        }
        let taken: bool = id == first.0 || match second {
            Some(q) => id == q.0,
            None => false,
        };
        if !taken {
            if weight < first.1 {
                second = Some(first);
                first = (id, weight);
            } else {
                let lighter: bool = match second {
                    Some(q) => weight < q.1,
                    None => true,
                };
                if lighter {
                    second = Some((id, weight));
                }
            }
        }
        i += 1;
    }
    (first, second)
}

/// Merges the subtrees `first` and `second` in place.
pub fn merge_subtrees(tree: &mut Vec<HuffmanLeaf>, first: (u8, u32), second: (u8, u32))
    requires
        first.1 + second.1 <= u32::MAX,
        forall|i: int| 0 <= i < old(tree)@.len() ==> (#[trigger] old(tree)@[i]).wf(),
        forall|i: int| 0 <= i < old(tree)@.len() ==> (#[trigger] old(tree)@[i]).codeword.size <= 256,
    ensures
        final(tree)@.len() == old(tree)@.len(),
        tree_view(final(tree)@) == merge(tree_view(old(tree)@), pick_view(first), pick_view(second)),
        forall|i: int| 0 <= i < final(tree)@.len() ==> (#[trigger] final(tree)@[i]).wf(),
        forall|i: int|
            0 <= i < final(tree)@.len() ==> (#[trigger] final(tree)@[i]).codeword.size <= old(
                tree,
            )@[i].codeword.size + 1,
{
    let ghost start = tree@;
    let combined: u32 = first.1 + second.1;
    let n: usize = tree.len();
    let mut i: usize = 0;
    while i < n
        invariant
            i <= n,
            n == start.len(),
            tree@.len() == n,
            combined == first.1 + second.1,
            forall|j: int| 0 <= j < n ==> (#[trigger] start[j]).wf(),
            forall|j: int| 0 <= j < n ==> (#[trigger] start[j]).codeword.size <= 256,
            forall|j: int| i <= j < n ==> #[trigger] tree@[j] == start[j],
            forall|j: int|
                0 <= j < i ==> (#[trigger] tree@[j])@ == merge_leaf(
                    start[j]@,
                    pick_view(first),
                    pick_view(second),
                ),
            forall|j: int| 0 <= j < i ==> (#[trigger] tree@[j]).wf(),
            forall|j: int|
                0 <= j < i ==> (#[trigger] tree@[j]).codeword.size <= start[j].codeword.size + 1,
        decreases n - i,
    {
        let ghost before = tree@;
        assert(before[i as int] == start[i as int]);
        assert(start[i as int].wf());
        assert(start[i as int].codeword.size <= 256);
        let id: u8 = tree[i].subtree_id;
        if id == first.0 {
            tree[i].codeword.push_from_left(0);
            tree[i].subtree_id = first.0;
            tree[i].subtree_weight = combined;
        } else if id == second.0 {
            tree[i].codeword.push_from_left(1);
            tree[i].subtree_id = first.0;
            tree[i].subtree_weight = combined;
        }
        proof {
            assert(tree@[i as int]@ == merge_leaf(start[i as int]@, pick_view(first), pick_view(second)));
            assert forall|j: int| 0 <= j < i implies (#[trigger] tree@[j])@ == merge_leaf(
                start[j]@,
                pick_view(first),
                pick_view(second),
            ) && tree@[j].wf() && tree@[j].codeword.size <= start[j].codeword.size + 1 by {
                assert(tree@[j] == before[j]);
            }
            assert forall|j: int| i < j < n implies #[trigger] tree@[j] == start[j] by {
                assert(tree@[j] == before[j]);
            }
        }
        i += 1;
    }
    assert(tree_view(tree@) =~= merge(tree_view(start), pick_view(first), pick_view(second)));
}

/// Builds the code tree for the counts in `character_frequency`. Fails when
/// fewer than two byte values have a count above zero.
pub fn construct_tree(character_frequency: &[u16]) -> (r: Result<Vec<HuffmanLeaf>, HuffmanError>)
    requires
        character_frequency@.len() <= 256,
    ensures
        r is Ok <==> initial_leaves(character_frequency@).len() >= 2,
        r is Err ==> r->Err_0 == HuffmanError::DegenerateTree,
        r is Ok ==> tree_view(r->Ok_0@) == huffman_tree(character_frequency@),
        r is Ok ==> r->Ok_0@.len() >= 2,
        r is Ok ==> forall|i: int| 0 <= i < r->Ok_0@.len() ==> (#[trigger] r->Ok_0@[i]).wf(),
        r is Ok ==> forall|i: int|
            0 <= i < r->Ok_0@.len() ==> (#[trigger] r->Ok_0@[i]).codeword.size <= 256,
{
    let mut tree: Vec<HuffmanLeaf> = make_leaves(character_frequency);
    if tree.len() < 2 {
        return Err(HuffmanError::DegenerateTree);
    }
    let total: u32 = sum_counts(character_frequency);
    let n: usize = tree.len();
    let mut rounds: usize = n;
    let ghost start = tree_view(tree@);
    proof {
        assert forall|i: int| 0 <= i < start.len() implies (#[trigger] start[i]).weight <= 0xffff
            * group_count(start, start[i].id, start.len()) by {
            lemma_group_has_member(start, i, start.len());
            assert(tree@[i].subtree_weight <= 0xffff);
        }
    }
    while rounds > 0 && tree[0].subtree_weight != total
        invariant
            n == tree@.len(),
            n == start.len(),
            2 <= n <= 256,
            rounds <= n,
            start == initial_leaves(character_frequency@),
            total == total_count(character_frequency@),
            forall|i: int| 0 <= i < n ==> (#[trigger] tree@[i]).wf(),
            forall|i: int| 0 <= i < n ==> (#[trigger] tree@[i]).codeword.size <= n - rounds,
            weights_bounded(tree_view(tree@)),
            build(start, total as nat, n as nat) == build(tree_view(tree@), total as nat, rounds as nat),
        decreases rounds,
    {
        let ghost view = tree_view(tree@);
        assert(view[0] == tree@[0]@);
        let chosen = lightest(&tree);
        let first: (u8, u32) = chosen.0;
        let second: (u8, u32) = match chosen.1 {
            Some(q) => q,
            None => {
                assert(picks(view, n as nat).1 is None);
                assert(build(view, total as nat, rounds as nat) == view);
                return Ok(tree);
            },
        };
        proof {
            assert(picks(view, n as nat).1 == Some(pick_view(second)));
            lemma_picks_are_leaves(view, n as nat);
            lemma_merge_bounded(view, pick_view(first), pick_view(second));
        }
        if first.1 + second.1 == 0 {
            return Ok(tree);
        }
        merge_subtrees(&mut tree, first, second);
        rounds -= 1;
    }
    assert(tree_view(tree@)[0] == tree@[0]@);
    Ok(tree)
}

/// Construction is deterministic: two trees built from the same table of
/// counts agree leaf by leaf in byte value, subtree, weight and code, down to
/// the storage words of the code.
pub proof fn lemma_construction_deterministic(
    freq: Seq<u16>,
    one: Seq<HuffmanLeaf>,
    two: Seq<HuffmanLeaf>,
)
    requires
        tree_view(one) == huffman_tree(freq),
        tree_view(two) == huffman_tree(freq),
        forall|i: int| 0 <= i < one.len() ==> (#[trigger] one[i]).wf(),
        forall|i: int| 0 <= i < two.len() ==> (#[trigger] two[i]).wf(),
    ensures
        one.len() == two.len(),
        forall|i: int|
            0 <= i < one.len() ==> {
                &&& (#[trigger] one[i]).byte_value == two[i].byte_value
                &&& one[i].subtree_id == two[i].subtree_id
                &&& one[i].subtree_weight == two[i].subtree_weight
                &&& one[i].codeword.size == two[i].codeword.size
                &&& one[i].codeword.bits@ == two[i].codeword.bits@
            },
{
    assert(tree_view(one).len() == one.len());
    assert(tree_view(two).len() == two.len());
    assert forall|i: int| 0 <= i < one.len() implies {
        &&& (#[trigger] one[i]).byte_value == two[i].byte_value
        &&& one[i].subtree_id == two[i].subtree_id
        &&& one[i].subtree_weight == two[i].subtree_weight
        &&& one[i].codeword.size == two[i].codeword.size
        &&& one[i].codeword.bits@ == two[i].codeword.bits@
    } by {
        assert(tree_view(one)[i] == one[i]@);
        assert(tree_view(two)[i] == two[i]@);
        assert(two[i].wf());
        lemma_value_determined(one[i].codeword, two[i].codeword);
    }
}

/// How often the byte value `b` occurs in `input`.
pub open spec fn count_in(input: Seq<u8>, b: u8) -> nat
    decreases input.len(),
{
    if input.len() == 0 {
        0
    } else {
        count_in(input.drop_last(), b) + if input.last() == b {
            1nat
        } else {
            0nat
        }
    }
}

/// No byte value occurs more often in `input` than a count can hold.
pub open spec fn countable(input: Seq<u8>) -> bool {
    forall|b: u8| count_in(input, b) <= 0xffff
}

/// The table of counts of `input`: one count for every byte value.
pub open spec fn histogram(input: Seq<u8>) -> Seq<u16> {
    Seq::new(256, |b: int| count_in(input, b as u8) as u16)
}

/// The position of the last leaf among the first `k` of `tree` that stands
/// for the byte value `b`, or -1 if there is none.
pub open spec fn slot(tree: Seq<LeafModel>, b: u8, k: nat) -> int
    decreases k,
{
    if k == 0 {
        -1
    } else if tree[k - 1].symbol == b {
        k - 1
    } else {
        slot(tree, b, (k - 1) as nat)
    }
}

/// The code of the byte value `b` in `tree`.
pub open spec fn code_of(tree: Seq<LeafModel>, b: u8) -> Seq<bool> {
    tree[slot(tree, b, tree.len())].code
}

/// The codes of the bytes of `input`, one after the other.
pub open spec fn huffman_bits(tree: Seq<LeafModel>, input: Seq<u8>) -> Seq<bool>
    decreases input.len(),
{
    if input.len() == 0 {
        Seq::empty()
    } else {
        huffman_bits(tree, input.drop_last()) + code_of(tree, input.last())
    }
}

/// The container that `input` encodes to: its table of counts, each count
/// as two bytes, followed by the codes of its bytes, packed into whole words
/// and written big-endian.
pub open spec fn encoded(input: Seq<u8>) -> Seq<u8> {
    table_bytes(histogram(input)) + words_be_bytes(
        packed_words(huffman_bits(huffman_tree(histogram(input)), input)),
    )
}

/// Some leaf of `tree` stands for the byte value `b`.
pub open spec fn has_symbol(tree: Seq<LeafModel>, b: u8) -> bool {
    exists|i: int| 0 <= i < tree.len() && (#[trigger] tree[i]).symbol == b
}

/// A byte value occurs in a prefix no more often than in the whole input.
pub proof fn lemma_count_monotone(input: Seq<u8>, i: int, b: u8)
    requires
        0 <= i <= input.len(),
    ensures
        count_in(input.subrange(0, i), b) <= count_in(input, b),
    decreases input.len() - i,
{
    if i == input.len() {
        assert(input.subrange(0, i) =~= input);
    } else {
        lemma_count_monotone(input.drop_last(), i, b);
        assert(input.drop_last().subrange(0, i) =~= input.subrange(0, i));
    }
}

/// An input of no more bytes than a count can hold is countable.
pub proof fn lemma_short_input_countable(input: Seq<u8>)
    requires
        input.len() <= 0xffff,
    ensures
        countable(input),
{
    assert forall|b: u8| count_in(input, b) <= 0xffff by {
        lemma_count_at_most_len(input, b);
    }
}

/// A byte value occurs in an input no more often than the input has bytes.
pub proof fn lemma_count_at_most_len(input: Seq<u8>, b: u8)
    ensures
        count_in(input, b) <= input.len(),
    decreases input.len(),
{
    if input.len() > 0 {
        lemma_count_at_most_len(input.drop_last(), b);
    }
}

/// A byte of the input occurs in it at least once.
pub proof fn lemma_count_positive(input: Seq<u8>, j: int)
    requires
        0 <= j < input.len(),
    ensures
        count_in(input, input[j]) >= 1,
    decreases input.len(),
{
    if j < input.len() - 1 {
        lemma_count_positive(input.drop_last(), j);
    }
}

/// Ordered insertion keeps every leaf and adds the new one.
pub proof fn lemma_insert_sorted_symbols(leaves: Seq<LeafModel>, x: LeafModel, b: u8)
    requires
        has_symbol(leaves, b) || x.symbol == b,
    ensures
        has_symbol(insert_sorted(leaves, x), b),
    decreases leaves.len(),
{
    let r = insert_sorted(leaves, x);
    if leaves.len() == 0 {
        assert(r[0].symbol == b);
    } else if leaves.last().weight <= x.weight {
        if x.symbol == b {
            assert(r[leaves.len() as int].symbol == b);
        } else {
            let i = choose|i: int| 0 <= i < leaves.len() && (#[trigger] leaves[i]).symbol == b;
            assert(r[i].symbol == b);
        }
    } else {
        let shorter = insert_sorted(leaves.drop_last(), x);
        if leaves.last().symbol == b {
            assert(r[r.len() - 1].symbol == b);
        } else {
            if x.symbol != b {
                let i = choose|i: int| 0 <= i < leaves.len() && (#[trigger] leaves[i]).symbol == b;
                assert(leaves.drop_last()[i].symbol == b);
            }
            lemma_insert_sorted_symbols(leaves.drop_last(), x, b);
            let k = choose|k: int| 0 <= k < shorter.len() && (#[trigger] shorter[k]).symbol == b;
            assert(r[k].symbol == b);
        }
    }
}

/// Every byte value with a count above zero has a leaf to start from.
pub proof fn lemma_initial_has_symbol(freq: Seq<u16>, b: int)
    requires
        0 <= b < freq.len() <= 256,
        freq[b] > 0,
    ensures
        has_symbol(initial_leaves(freq), b as u8),
    decreases freq.len(),
{
    let rest = initial_leaves(freq.drop_last());
    if b < freq.len() - 1 {
        lemma_initial_has_symbol(freq.drop_last(), b);
        if freq.last() > 0 {
            lemma_insert_sorted_symbols(rest, fresh_leaf((freq.len() - 1) as u8, freq.last()), b as u8);
        }
    } else {
        lemma_insert_sorted_symbols(rest, fresh_leaf((freq.len() - 1) as u8, freq.last()), b as u8);
    }
}

/// Merging changes no leaf's byte value and no leaf's place.
pub proof fn lemma_build_symbols(tree: Seq<LeafModel>, total: nat, rounds: nat)
    ensures
        build(tree, total, rounds).len() == tree.len(),
        forall|i: int|
            0 <= i < tree.len() ==> (#[trigger] build(tree, total, rounds)[i]).symbol == tree[i].symbol,
    decreases rounds,
{
    if rounds == 0 || tree.len() == 0 || tree[0].weight == total {
    } else {
        let chosen = picks(tree, tree.len());
        if chosen.1 is None || chosen.0.weight + chosen.1->Some_0.weight == 0 {
        } else {
            let merged = merge(tree, chosen.0, chosen.1->Some_0);
            lemma_build_symbols(merged, total, (rounds - 1) as nat);
            assert forall|i: int| 0 <= i < tree.len() implies (#[trigger] build(
                tree,
                total,
                rounds,
            )[i]).symbol == tree[i].symbol by {
                assert(merged[i].symbol == tree[i].symbol);
            }
        }
    }
}

/// The slot of a byte value is the place of a leaf that stands for it,
/// whenever there is such a leaf.
pub proof fn lemma_slot(tree: Seq<LeafModel>, b: u8, k: nat)
    requires
        k <= tree.len(),
    ensures
        -1 <= slot(tree, b, k) < k,
        slot(tree, b, k) >= 0 ==> tree[slot(tree, b, k)].symbol == b,
        (exists|i: int| 0 <= i < k && (#[trigger] tree[i]).symbol == b) ==> slot(tree, b, k) >= 0,
    decreases k,
{
    if k > 0 {
        lemma_slot(tree, b, (k - 1) as nat);
        if tree[k - 1].symbol != b {
            if exists|i: int| 0 <= i < k && (#[trigger] tree[i]).symbol == b {
                let i = choose|i: int| 0 <= i < k && (#[trigger] tree[i]).symbol == b;
                assert(0 <= i < k - 1 && tree[i].symbol == b);
            }
        }
    }
}

/// Every byte of the input has a code in the tree built from its histogram.
pub proof fn lemma_input_has_code(input: Seq<u8>, j: int)
    requires
        0 <= j < input.len(),
        countable(input),
    ensures
        0 <= slot(
            huffman_tree(histogram(input)),
            input[j],
            huffman_tree(histogram(input)).len(),
        ) < huffman_tree(histogram(input)).len(),
{
    let freq = histogram(input);
    let b = input[j];
    let leaves = initial_leaves(freq);
    let tree = huffman_tree(freq);
    lemma_count_positive(input, j);
    assert(freq[b as int] == count_in(input, b) as u16);
    lemma_initial_has_symbol(freq, b as int);
    lemma_build_symbols(leaves, total_count(freq), leaves.len());
    let i = choose|i: int| 0 <= i < leaves.len() && (#[trigger] leaves[i]).symbol == b;
    assert(tree[i].symbol == b);
    lemma_slot(tree, b, tree.len());
}

/// The table of counts of `input`.
pub fn count_bytes(input: &[u8]) -> (r: Vec<u16>)
    requires
        countable(input@),
    ensures
        r@ == histogram(input@),
{
    let mut counts: Vec<u16> = Vec::new();
    let mut b: usize = 0;
    while b < 256
        invariant
            b <= 256,
            counts@.len() == b,
            forall|k: int| 0 <= k < b ==> counts@[k] == 0,
        decreases 256 - b,
    {
        counts.push(0u16);
        b += 1;
    }
    let mut i: usize = 0;
    assert(input@.subrange(0, 0) =~= Seq::<u8>::empty());
    while i < input.len()
        invariant
            i <= input@.len(),
            countable(input@),
            counts@.len() == 256,
            forall|k: int|
                0 <= k < 256 ==> #[trigger] counts@[k] == count_in(input@.subrange(0, i as int), k as u8),
        decreases input@.len() - i,
    {
        let x: u8 = input[i];
        let ghost before = counts@;
        proof {
            lemma_count_monotone(input@, i + 1, x);
            let upto = input@.subrange(0, i + 1);
            assert(upto.drop_last() =~= input@.subrange(0, i as int));
            assert(upto.last() == x);
            assert(before[x as int] == count_in(input@.subrange(0, i as int), x));
        }
        let c: u16 = counts[x as usize];
        counts.set(x as usize, c + 1);
        proof {
            let upto = input@.subrange(0, i + 1);
            assert forall|k: int| 0 <= k < 256 implies #[trigger] counts@[k] == count_in(
                upto,
                k as u8,
            ) by {
                assert(before[k] == count_in(input@.subrange(0, i as int), k as u8));
            }
        }
        i += 1;
    }
    assert(input@.subrange(0, input@.len() as int) =~= input@);
    assert(counts@ =~= histogram(input@));
    counts
}

/// For every byte value the place of its leaf in `tree`, or the number of
/// leaves where it has none.
pub fn index_leaves(tree: &Vec<HuffmanLeaf>) -> (r: Vec<usize>)
    ensures
        r@.len() == 256,
        forall|b: int|
            0 <= b < 256 ==> #[trigger] r@[b] == if slot(tree_view(tree@), b as u8, tree@.len()) < 0 {
                tree@.len() as int
            } else {
                slot(tree_view(tree@), b as u8, tree@.len())
            },
{
    let n: usize = tree.len();
    let mut slots: Vec<usize> = Vec::new();
    let mut b: usize = 0;
    while b < 256
        invariant
            b <= 256,
            slots@.len() == b,
            forall|k: int| 0 <= k < b ==> slots@[k] == n,
        decreases 256 - b,
    {
        slots.push(n);
        b += 1;
    }
    let mut i: usize = 0;
    while i < n
        invariant
            i <= n,
            n == tree@.len(),
            slots@.len() == 256,
            forall|b: int|
                0 <= b < 256 ==> #[trigger] slots@[b] == if slot(tree_view(tree@), b as u8, i as nat) < 0 {
                    n as int
                } else {
                    slot(tree_view(tree@), b as u8, i as nat)
                },
        decreases n - i,
    {
        let ghost before = slots@;
        let symbol: u8 = tree[i].byte_value;
        assert(tree_view(tree@)[i as int].symbol == symbol);
        slots.set(symbol as usize, i);
        proof {
            assert forall|b: int| 0 <= b < 256 implies #[trigger] slots@[b] == if slot(
                tree_view(tree@),
                b as u8,
                (i + 1) as nat,
            ) < 0 {
                n as int
            } else {
                slot(tree_view(tree@), b as u8, (i + 1) as nat)
            } by {
                lemma_slot(tree_view(tree@), b as u8, i as nat);
                if b != symbol {
                    assert(slots@[b] == before[b]);
                }
            }
        }
        i += 1;
    }
    slots
}

/// The Huffman encoder.
pub struct HuffmanEncoder {}

impl HuffmanEncoder {
    /// A new encoder.
    pub fn new() -> HuffmanEncoder {
        HuffmanEncoder {}
    }

    /// Encodes `input` as its table of counts, 512 bytes, followed by the
    /// codes of its bytes, packed from the most significant bit and padded
    /// with zeros to whole words. Fails when fewer than two distinct byte
    /// values occur.
    pub fn encode(self, input: &[u8]) -> (r: Result<Vec<u8>, HuffmanError>)
        requires
            countable(input@),
            input@.len() * 256 + 1024 <= usize::MAX,
        ensures
            r is Ok <==> initial_leaves(histogram(input@)).len() >= 2,
            r is Err ==> r->Err_0 == HuffmanError::DegenerateTree,
            r is Ok ==> r->Ok_0@ == encoded(input@),
            r is Ok ==> r->Ok_0@.len() == 512 + 8 * ((huffman_bits(
                huffman_tree(histogram(input@)),
                input@,
            ).len() + 63) / 64),
            r is Ok ==> huffman_bits(huffman_tree(histogram(input@)), input@).len() <= 256
                * input@.len(),
    {
        let counts: Vec<u16> = count_bytes(input);
        let tree: Vec<HuffmanLeaf> = match construct_tree(counts.as_slice()) {
            Ok(tree) => tree,
            Err(e) => {
                return Err(e);
            },
        };
        let slots: Vec<usize> = index_leaves(&tree);
        let ghost model = tree_view(tree@);
        let mut output = Bits::new(Vec::new(), 0);
        assert(output.bits@ =~= Seq::<u64>::empty());
        assert(output.stream_bits() =~= Seq::<bool>::empty());
        assert(input@.subrange(0, 0) =~= Seq::<u8>::empty());
        let mut i: usize = 0;
        while i < input.len()
            invariant
                i <= input@.len(),
                countable(input@),
                input@.len() * 256 + 1024 <= usize::MAX,
                model == tree_view(tree@),
                model == huffman_tree(histogram(input@)),
                forall|k: int| 0 <= k < tree@.len() ==> (#[trigger] tree@[k]).wf(),
                forall|k: int| 0 <= k < tree@.len() ==> (#[trigger] tree@[k]).codeword.size <= 256,
                slots@.len() == 256,
                forall|b: int|
                    0 <= b < 256 ==> #[trigger] slots@[b] == if slot(model, b as u8, tree@.len()) < 0 {
                        tree@.len() as int
                    } else {
                        slot(model, b as u8, tree@.len())
                    },
                output.is_stream(),
                output.size <= 256 * i,
                output.stream_bits() == huffman_bits(model, input@.subrange(0, i as int)),
            decreases input@.len() - i,
        {
            let x: u8 = input[i];
            proof {
                lemma_input_has_code(input@, i as int);
                let upto = input@.subrange(0, i + 1);
                assert(upto.drop_last() =~= input@.subrange(0, i as int));
                assert(upto.last() == x);
            }
            let k: usize = slots[x as usize];
            assert(model[k as int] == tree@[k as int]@);
            let codeword: Bits = tree[k].codeword.copy();
            assert(codeword.value_bits() == tree@[k as int].codeword.value_bits());
            output = output.concat(codeword);
            i += 1;
        }
        assert(input@.subrange(0, input@.len() as int) =~= input@);
        proof {
            lemma_packed(output);
        }
        let mut transmission: Vec<u8> = table_to_bytes(&counts);
        let mut payload: Vec<u8> = words_to_bytes(output.bits.as_slice());
        transmission.append(&mut payload);
        Ok(transmission)
    }
}

/// The bit at position `q` of a byte sequence read as one long bit string,
/// the most significant bit of each byte first.
pub open spec fn byte_bit(bytes: Seq<u8>, q: int) -> bool {
    (bytes[q / 8] >> ((7 - q % 8) as u8)) & 1 == 1
}

/// The `n` bits of `bytes` that start at position `p`.
pub open spec fn byte_bits(bytes: Seq<u8>, p: int, n: nat) -> Seq<bool> {
    Seq::new(n, |i: int| byte_bit(bytes, p + i))
}

/// The position of the last leaf among the first `k` of `tree` whose code is
/// `bits`, or -1 if there is none.
pub open spec fn match_slot(tree: Seq<LeafModel>, bits: Seq<bool>, k: nat) -> int
    decreases k,
{
    if k == 0 {
        -1
    } else if tree[k - 1].code == bits {
        k - 1
    } else {
        match_slot(tree, bits, (k - 1) as nat)
    }
}

/// The length of the shortest code among the first `k` leaves of `tree`.
pub open spec fn shortest(tree: Seq<LeafModel>, k: nat) -> nat
    decreases k,
{
    if k <= 1 {
        tree[0].code.len()
    } else if tree[k - 1].code.len() < shortest(tree, (k - 1) as nat) {
        tree[k - 1].code.len()
    } else {
        shortest(tree, (k - 1) as nat)
    }
}

/// The length of the longest code among the first `k` leaves of `tree`.
pub open spec fn longest(tree: Seq<LeafModel>, k: nat) -> nat
    decreases k,
{
    if k <= 1 {
        tree[0].code.len()
    } else if tree[k - 1].code.len() > longest(tree, (k - 1) as nat) {
        tree[k - 1].code.len()
    } else {
        longest(tree, (k - 1) as nat)
    }
}

/// The bytes that decoding yields from bit position `p` of `payload` on, when
/// `trial` bits are tried next and `owed` bytes are still to come. Code
/// lengths from `lo` to `hi` are tried in turn at one position: where the bits
/// there are the code of a leaf, its byte value is emitted, the position moves
/// past the code, the trial length falls back to `lo` and one byte less is
/// owed; where they are not, the trial length grows by one. Decoding ends
/// when no byte is owed any more, when the bits tried would reach past the
/// end of the payload, when the trial length exceeds `hi`, and at a trial
/// length of zero.
pub open spec fn huff_text(
    tree: Seq<LeafModel>,
    payload: Seq<u8>,
    lo: nat,
    hi: nat,
    p: int,
    trial: nat,
    owed: nat,
) -> Seq<u8>
    decreases
            owed,
            (if trial <= hi {
                hi + 1 - trial
            } else {
                0
            }),
{
    if owed == 0 || p < 0 || trial > hi || trial == 0 || p + trial > 8 * payload.len() {
        Seq::empty()
    } else {
        let k = match_slot(tree, byte_bits(payload, p, trial), tree.len());
        if k >= 0 {
            seq![tree[k].symbol] + huff_text(tree, payload, lo, hi, p + trial, lo, (owed - 1) as nat)
        } else {
            huff_text(tree, payload, lo, hi, p, trial + 1, owed)
        }
    }
}

/// The bytes that a container decodes to: the tree is built from the table
/// of counts in its first 512 bytes, and as many codes as the table counts
/// bytes are read from the bytes behind the table, the shortest code length
/// of the tree tried first.
pub open spec fn decoded(container: Seq<u8>) -> Seq<u8> {
    let table = table_counts(container.subrange(0, 512));
    let tree = huffman_tree(table);
    huff_text(
        tree,
        container.subrange(512, container.len() as int),
        shortest(tree, tree.len()),
        longest(tree, tree.len()),
        0,
        shortest(tree, tree.len()),
        total_count(table),
    )
}

/// The shortest and the longest code length in `tree`.
pub fn code_lengths(tree: &Vec<HuffmanLeaf>) -> (r: (usize, usize))
    requires
        tree@.len() > 0,
    ensures
        r.0 == shortest(tree_view(tree@), tree@.len()),
        r.1 == longest(tree_view(tree@), tree@.len()),
        exists|i: int| 0 <= i < tree@.len() && r.0 == (#[trigger] tree@[i]).codeword.size,
        exists|i: int| 0 <= i < tree@.len() && r.1 == (#[trigger] tree@[i]).codeword.size,
{
    let mut lo: usize = tree[0].codeword.size;
    let mut hi: usize = tree[0].codeword.size;
    let mut i: usize = 1;
    let ghost at_lo: int = 0;
    let ghost at_hi: int = 0;
    assert(tree_view(tree@)[0] == tree@[0]@);
    while i < tree.len()
        invariant
            1 <= i <= tree@.len(),
            0 <= at_lo < tree@.len() && lo == tree@[at_lo].codeword.size,
            0 <= at_hi < tree@.len() && hi == tree@[at_hi].codeword.size,
            lo == shortest(tree_view(tree@), i as nat),
            hi == longest(tree_view(tree@), i as nat),
        decreases tree@.len() - i,
    {
        let size: usize = tree[i].codeword.size;
        assert(tree_view(tree@)[i as int] == tree@[i as int]@);
        if size < lo {
            lo = size;
            proof {
                at_lo = i as int;
            }
        }
        if size > hi {
            hi = size;
            proof {
                at_hi = i as int;
            }
        }
        i += 1;
    }
    (lo, hi)
}

/// The bit at position `q` of the bytes of `input` from index `base` on.
pub fn payload_bit(input: &[u8], base: usize, q: usize) -> (r: bool)
    requires
        base <= input@.len(),
        q < 8 * (input@.len() - base),
        8 * input@.len() <= usize::MAX,
    ensures
        r == byte_bit(input@.subrange(base as int, input@.len() as int), q as int),
{
    let byte: u8 = input[base + q / 8];
    let sh: u8 = (7 - q % 8) as u8;
    (byte >> sh) & 1 == 1
}

/// Whether the code of `leaf` is the `trial` bits of the payload at position `p`.
pub fn code_matches(
    leaf: &HuffmanLeaf,
    input: &[u8],
    base: usize,
    p: usize,
    trial: usize,
) -> (r: bool)
    requires
        leaf.wf(),
        base <= input@.len(),
        p + trial <= 8 * (input@.len() - base),
        8 * input@.len() <= usize::MAX,
    ensures
        r == (leaf@.code == byte_bits(
            input@.subrange(base as int, input@.len() as int),
            p as int,
            trial as nat,
        )),
{
    let ghost payload = input@.subrange(base as int, input@.len() as int);
    let ghost wanted = byte_bits(payload, p as int, trial as nat);
    if leaf.codeword.size != trial {
        assert(leaf@.code.len() != wanted.len());
        return false;
    }
    let mut t: usize = 0;
    while t < trial
        invariant
            t <= trial,
            leaf.wf(),
            leaf.codeword.size == trial,
            base <= input@.len(),
            p + trial <= 8 * (input@.len() - base),
            8 * input@.len() <= usize::MAX,
            payload == input@.subrange(base as int, input@.len() as int),
            wanted == byte_bits(payload, p as int, trial as nat),
            forall|j: int| 0 <= j < t ==> leaf@.code[j] == wanted[j],
        decreases trial - t,
    {
        if leaf.codeword.value_bit(t) != payload_bit(input, base, p + t) {
            assert(leaf@.code[t as int] != wanted[t as int]);
            return false;
        }
        t += 1;
    }
    assert(leaf@.code =~= wanted);
    true
}

/// The place of the last leaf whose code is the `trial` bits of the payload
/// at position `p`, if there is one.
pub fn find_code(
    tree: &Vec<HuffmanLeaf>,
    input: &[u8],
    base: usize,
    p: usize,
    trial: usize,
) -> (r: Option<usize>)
    requires
        forall|k: int| 0 <= k < tree@.len() ==> (#[trigger] tree@[k]).wf(),
        base <= input@.len(),
        p + trial <= 8 * (input@.len() - base),
        8 * input@.len() <= usize::MAX,
    ensures
        match r {
            Some(k) => k < tree@.len() && k == match_slot(
                tree_view(tree@),
                byte_bits(input@.subrange(base as int, input@.len() as int), p as int, trial as nat),
                tree@.len(),
            ),
            None => match_slot(
                tree_view(tree@),
                byte_bits(input@.subrange(base as int, input@.len() as int), p as int, trial as nat),
                tree@.len(),
            ) == -1,
        },
{
    let ghost wanted = byte_bits(
        input@.subrange(base as int, input@.len() as int),
        p as int,
        trial as nat,
    );
    let mut k: usize = tree.len();
    while k > 0
        invariant
            k <= tree@.len(),
            forall|j: int| 0 <= j < tree@.len() ==> (#[trigger] tree@[j]).wf(),
            base <= input@.len(),
            p + trial <= 8 * (input@.len() - base),
            8 * input@.len() <= usize::MAX,
            wanted == byte_bits(
                input@.subrange(base as int, input@.len() as int),
                p as int,
                trial as nat,
            ),
            match_slot(tree_view(tree@), wanted, tree@.len()) == match_slot(
                tree_view(tree@),
                wanted,
                k as nat,
            ),
        decreases k,
    {
        assert(tree_view(tree@)[k - 1] == tree@[k - 1]@);
        if code_matches(&tree[k - 1], input, base, p, trial) {
            return Some(k - 1);
        }
        k -= 1;
    }
    None
}

/// The Huffman decoder.
pub struct HuffmanDecoder {}

impl HuffmanDecoder {
    /// A new decoder.
    pub fn new() -> HuffmanDecoder {
        HuffmanDecoder {}
    }

    /// Decodes a container: rebuilds the code tree from the table of counts
    /// in the first 512 bytes and reads from the bytes behind it as many
    /// codes as the table counts bytes, or as many as are there. Fails when
    /// fewer than two counts of the table are above zero.
    pub fn decode(self, input: &[u8]) -> (r: Result<Vec<u8>, HuffmanError>)
        requires
            input@.len() >= 512,
            input@.len() * 8 + 1024 <= usize::MAX,
        ensures
            r is Ok <==> initial_leaves(table_counts(input@.subrange(0, 512))).len() >= 2,
            r is Err ==> r->Err_0 == HuffmanError::DegenerateTree,
            r is Ok ==> r->Ok_0@ == decoded(input@),
    {
        let counts: Vec<u16> = table_from_bytes(input, 256);
        let tree: Vec<HuffmanLeaf> = match construct_tree(counts.as_slice()) {
            Ok(tree) => tree,
            Err(e) => {
                return Err(e);
            },
        };
        let total: u32 = sum_counts(counts.as_slice());
        let lengths = code_lengths(&tree);
        let min_word: usize = lengths.0;
        let max_word: usize = lengths.1;
        let len: usize = input.len() - 512;
        let ghost model = tree_view(tree@);
        let ghost payload = input@.subrange(512, input@.len() as int);
        let ghost whole = decoded(input@);
        let mut out: Vec<u8> = Vec::new();
        let mut p: usize = 0;
        let mut word_size: usize = min_word;
        let mut owed: u32 = total;
        assert(out@ + whole =~= whole);
        while owed > 0 && word_size <= max_word
            invariant
                input@.len() >= 512,
                input@.len() * 8 + 1024 <= usize::MAX,
                len == input@.len() - 512,
                payload == input@.subrange(512, input@.len() as int),
                model == tree_view(tree@),
                initial_leaves(table_counts(input@.subrange(0, 512))).len() >= 2,
                whole == decoded(input@),
                forall|k: int| 0 <= k < tree@.len() ==> (#[trigger] tree@[k]).wf(),
                min_word <= 256,
                max_word <= 256,
                p <= 8 * len,
                whole == out@ + huff_text(
                    model,
                    payload,
                    min_word as nat,
                    max_word as nat,
                    p as int,
                    word_size as nat,
                    owed as nat,
                ),
            decreases owed, max_word + 1 - word_size,
        {
            if p + word_size > 8 * len || word_size == 0 {
                assert(out@ + Seq::<u8>::empty() =~= out@);
                return Ok(out);
            }
            let ghost sofar = out@;
            match find_code(&tree, input, 512, p, word_size) {
                Some(k) => {
                    let symbol: u8 = tree[k].byte_value;
                    assert(model[k as int] == tree@[k as int]@);
                    out.push(symbol);
                    p += word_size;
                    word_size = min_word;
                    owed -= 1;
                    proof {
                        let rest = huff_text(
                            model,
                            payload,
                            min_word as nat,
                            max_word as nat,
                            p as int,
                            min_word as nat,
                            owed as nat,
                        );
                        assert((sofar + seq![symbol]) + rest =~= sofar + (seq![symbol] + rest));
                        assert(out@ =~= sofar + seq![symbol]);
                    }
                },
                None => {
                    word_size += 1;
                },
            }
        }
        assert(out@ + Seq::<u8>::empty() =~= out@);
        Ok(out)
    }
}

} // verus!
