//! Building a Huffman tree from weighted symbols.
//!
//! The trees wait in a queue ordered by ascending weight. Among trees of equal
//! weight the one that entered first leaves first, so that the same input
//! always gives the same tree.
use super::huffman_node::{HuffmanNode, Inode, Lnode};
use super::{HuffmanError, SymbolType, SymbolWeightPair};
use std::collections::VecDeque;
use vstd::multiset::Multiset;
use vstd::prelude::*;

verus! {

/// A tree with the weighted symbols it was built from.
#[derive(Debug, PartialEq, Eq)]
pub struct HuffmanTree {
    pub symbol_weight_pairs: Vec<SymbolWeightPair>,
    pub tree: HuffmanNode,
}

/// The leaf that stands for a weighted symbol.
pub open spec fn leaf_of(pair: SymbolWeightPair) -> HuffmanNode {
    HuffmanNode::Lnode(Lnode { symbol: pair.symbol, weight: pair.weight })
}

/// The internal node above `left` and `right`, with the sum of their weights.
pub open spec fn merged(left: HuffmanNode, right: HuffmanNode) -> HuffmanNode {
    HuffmanNode::Inode(
        Inode {
            left_child: Box::new(left),
            right_child: Box::new(right),
            cached_weight: (left.spec_weight() + right.spec_weight()) as i32,
        },
    )
}

/// Where a tree of weight `weight` enters `queue`: behind the leading trees
/// that are not heavier than it.
pub open spec fn insertion_point(queue: Seq<HuffmanNode>, weight: int) -> int
    decreases queue.len(),
{
    if queue.len() == 0 || queue[0].spec_weight() > weight {
        0
    } else {
        1 + insertion_point(queue.drop_first(), weight)
    }
}

/// `queue` after `node` has entered it.
pub open spec fn enqueued(queue: Seq<HuffmanNode>, node: HuffmanNode) -> Seq<HuffmanNode> {
    queue.insert(insertion_point(queue, node.spec_weight()), node)
}

/// The queue that the leaves of `pairs` form after entering one by one, in
/// the order of `pairs`.
pub open spec fn leaf_queue(pairs: Seq<SymbolWeightPair>) -> Seq<HuffmanNode>
    decreases pairs.len(),
{
    if pairs.len() == 0 {
        Seq::empty()
    } else {
        enqueued(leaf_queue(pairs.drop_last()), leaf_of(pairs.last()))
    }
}

/// The tree that is left when the two lightest trees of `queue` have been
/// merged and put back, again and again, until one remains.
pub open spec fn merge_all(queue: Seq<HuffmanNode>) -> HuffmanNode
    decreases queue.len(),
{
    if queue.len() < 2 {
        queue[0]
    } else {
        let node = merged(queue[0], queue[1]);
        proof {
            lemma_insertion_point_in_range(queue.skip(2), node.spec_weight());
        }
        merge_all(enqueued(queue.skip(2), node))
    }
}

/// The sum of the weights of `pairs`.
pub open spec fn total_weight(pairs: Seq<SymbolWeightPair>) -> int
    decreases pairs.len(),
{
    if pairs.len() == 0 {
        0
    } else {
        total_weight(pairs.drop_last()) + pairs.last().weight
    }
}

/// The sum of the weights that the trees of `queue` report.
pub open spec fn queue_weight(queue: Seq<HuffmanNode>) -> int
    decreases queue.len(),
{
    if queue.len() == 0 {
        0
    } else {
        queue_weight(queue.drop_last()) + queue.last().spec_weight()
    }
}

/// No tree of `queue` reports a negative weight.
pub open spec fn weights_non_negative(queue: Seq<HuffmanNode>) -> bool {
    forall|i: int| 0 <= i < queue.len() ==> 0 <= #[trigger] queue[i].spec_weight()
}

/// Every tree of `queue` is well formed.
pub open spec fn all_well_formed(queue: Seq<HuffmanNode>) -> bool {
    forall|i: int| 0 <= i < queue.len() ==> (#[trigger] queue[i]).well_formed()
}

/// The leaves of all the trees of `queue`, as symbol and weight, counted as
/// often as they occur.
pub open spec fn queue_leaves(queue: Seq<HuffmanNode>) -> Multiset<(SymbolType, i32)>
    decreases queue.len(),
{
    if queue.len() == 0 {
        Multiset::empty()
    } else {
        queue_leaves(queue.drop_last()).add(queue.last().leaves().to_multiset())
    }
}

/// The weighted symbols of `pairs`, counted as often as they occur.
pub open spec fn weighted_symbols(pairs: Seq<SymbolWeightPair>) -> Multiset<(SymbolType, i32)>
    decreases pairs.len(),
{
    if pairs.len() == 0 {
        Multiset::empty()
    } else {
        weighted_symbols(pairs.drop_last()).insert((pairs.last().symbol, pairs.last().weight))
    }
}

/// The place where a tree enters a queue lies within the queue or at its end.
pub proof fn lemma_insertion_point_in_range(queue: Seq<HuffmanNode>, weight: int)
    ensures
        0 <= insertion_point(queue, weight) <= queue.len(),
    decreases queue.len(),
{
    if !(queue.len() == 0 || queue[0].spec_weight() > weight) {
        lemma_insertion_point_in_range(queue.drop_first(), weight);
    }
}

proof fn lemma_queue_weight_insert(queue: Seq<HuffmanNode>, at: int, node: HuffmanNode)
    requires
        0 <= at <= queue.len(),
    ensures
        queue_weight(queue.insert(at, node)) == queue_weight(queue) + node.spec_weight(),
    decreases queue.len(),
{
    let longer = queue.insert(at, node);
    if at == queue.len() {
        assert(longer.drop_last() =~= queue);
    } else {
        lemma_queue_weight_insert(queue.drop_last(), at, node);
        assert(longer.drop_last() =~= queue.drop_last().insert(at, node));
    }
}

proof fn lemma_queue_weight_drop_first(queue: Seq<HuffmanNode>)
    requires
        queue.len() > 0,
    ensures
        queue_weight(queue.drop_first()) == queue_weight(queue) - queue[0].spec_weight(),
    decreases queue.len(),
{
    if queue.len() == 1 {
        assert(queue.drop_last() =~= queue.drop_first());
    } else {
        lemma_queue_weight_drop_first(queue.drop_last());
        assert(queue.drop_last().drop_first() =~= queue.drop_first().drop_last());
    }
}

proof fn lemma_queue_weight_non_negative(queue: Seq<HuffmanNode>)
    requires
        weights_non_negative(queue),
    ensures
        0 <= queue_weight(queue),
    decreases queue.len(),
{
    if queue.len() > 0 {
        lemma_queue_weight_non_negative(queue.drop_last());
    }
}

proof fn lemma_total_weight_non_negative(pairs: Seq<SymbolWeightPair>)
    requires
        forall|i: int| 0 <= i < pairs.len() ==> 0 <= #[trigger] pairs[i].weight,
    ensures
        0 <= total_weight(pairs),
    decreases pairs.len(),
{
    if pairs.len() > 0 {
        lemma_total_weight_non_negative(pairs.drop_last());
    }
}

proof fn lemma_queue_leaves_insert(queue: Seq<HuffmanNode>, at: int, node: HuffmanNode)
    requires
        0 <= at <= queue.len(),
    ensures
        queue_leaves(queue.insert(at, node)) == queue_leaves(queue).add(
            node.leaves().to_multiset(),
        ),
    decreases queue.len(),
{
    let longer = queue.insert(at, node);
    if at == queue.len() {
        assert(longer.drop_last() =~= queue);
    } else {
        lemma_queue_leaves_insert(queue.drop_last(), at, node);
        assert(longer.drop_last() =~= queue.drop_last().insert(at, node));
        assert(queue_leaves(longer) =~= queue_leaves(queue).add(node.leaves().to_multiset()));
    }
}

proof fn lemma_queue_leaves_drop_first(queue: Seq<HuffmanNode>)
    requires
        queue.len() > 0,
    ensures
        queue_leaves(queue) == queue_leaves(queue.drop_first()).add(
            queue[0].leaves().to_multiset(),
        ),
    decreases queue.len(),
{
    if queue.len() == 1 {
        assert(queue.drop_last() =~= queue.drop_first());
        assert(queue_leaves(queue) =~= queue_leaves(queue.drop_first()).add(
            queue[0].leaves().to_multiset(),
        ));
    } else {
        lemma_queue_leaves_drop_first(queue.drop_last());
        assert(queue.drop_last().drop_first() =~= queue.drop_first().drop_last());
        assert(queue_leaves(queue) =~= queue_leaves(queue.drop_first()).add(
            queue[0].leaves().to_multiset(),
        ));
    }
}

/// What merging keeps: the tree that is left of a queue of well-formed trees
/// is well formed, weighs what the queue weighed, and has the leaves that the
/// queue had.
pub proof fn lemma_merge_all_keeps(queue: Seq<HuffmanNode>)
    requires
        queue.len() >= 1,
        all_well_formed(queue),
        weights_non_negative(queue),
        queue_weight(queue) <= i32::MAX,
    ensures
        merge_all(queue).well_formed(),
        merge_all(queue).spec_weight() == queue_weight(queue),
        merge_all(queue).leaves().to_multiset() == queue_leaves(queue),
    decreases queue.len(),
{
    if queue.len() < 2 {
        assert(queue.drop_last().len() == 0);
        assert(queue_weight(queue.drop_last()) == 0);
        assert(queue_leaves(queue.drop_last()) == Multiset::<(SymbolType, i32)>::empty());
        assert(queue_leaves(queue) =~= queue[0].leaves().to_multiset());
    } else {
        let node = merged(queue[0], queue[1]);
        let rest = queue.skip(2);
        let at = insertion_point(rest, node.spec_weight());
        lemma_insertion_point_in_range(rest, node.spec_weight());
        assert(queue.drop_first().drop_first() =~= rest);
        lemma_queue_weight_drop_first(queue);
        lemma_queue_weight_drop_first(queue.drop_first());
        lemma_queue_leaves_drop_first(queue);
        lemma_queue_leaves_drop_first(queue.drop_first());
        assert(weights_non_negative(rest));
        lemma_queue_weight_non_negative(rest);
        assert(node.well_formed());
        lemma_queue_weight_insert(rest, at, node);
        lemma_queue_leaves_insert(rest, at, node);
        vstd::seq_lib::lemma_multiset_commutative(queue[0].leaves(), queue[1].leaves());
        let next = enqueued(rest, node);
        assert(all_well_formed(next));
        assert(weights_non_negative(next));
        assert(queue_leaves(next) =~= queue_leaves(queue));
        lemma_merge_all_keeps(next);
    }
}

/// The queue of the leaves of `pairs`: as long as `pairs`, its trees well
/// formed, its weight and leaves those of `pairs`.
pub proof fn lemma_leaf_queue_keeps(pairs: Seq<SymbolWeightPair>)
    requires
        forall|i: int| 0 <= i < pairs.len() ==> 0 <= #[trigger] pairs[i].weight,
    ensures
        leaf_queue(pairs).len() == pairs.len(),
        all_well_formed(leaf_queue(pairs)),
        weights_non_negative(leaf_queue(pairs)),
        queue_weight(leaf_queue(pairs)) == total_weight(pairs),
        queue_leaves(leaf_queue(pairs)) == weighted_symbols(pairs),
    decreases pairs.len(),
{
    if pairs.len() > 0 {
        let earlier = leaf_queue(pairs.drop_last());
        let leaf = leaf_of(pairs.last());
        let at = insertion_point(earlier, leaf.spec_weight());
        lemma_leaf_queue_keeps(pairs.drop_last());
        lemma_insertion_point_in_range(earlier, leaf.spec_weight());
        lemma_queue_weight_insert(earlier, at, leaf);
        lemma_queue_leaves_insert(earlier, at, leaf);
        assert(leaf.leaves().to_multiset() =~= Multiset::<(SymbolType, i32)>::empty().insert(
            (pairs.last().symbol, pairs.last().weight),
        )) by {
            broadcast use vstd::seq_lib::group_to_multiset_ensures;

            assert(leaf.leaves() =~= Seq::<(SymbolType, i32)>::empty().push(
                (pairs.last().symbol, pairs.last().weight),
            ));
        }
        assert(queue_leaves(leaf_queue(pairs)) =~= weighted_symbols(pairs));
    }
}

/// The tree of two or more weighted symbols is well formed, weighs what the
/// symbols weigh together, and has exactly the symbols as its leaves, each
/// with its weight.
pub proof fn lemma_built_tree_keeps_symbols(pairs: Seq<SymbolWeightPair>)
    requires
        pairs.len() >= 1,
        forall|i: int| 0 <= i < pairs.len() ==> 0 <= #[trigger] pairs[i].weight,
        total_weight(pairs) <= i32::MAX,
    ensures
        merge_all(leaf_queue(pairs)).well_formed(),
        merge_all(leaf_queue(pairs)).spec_weight() == total_weight(pairs),
        merge_all(leaf_queue(pairs)).leaves().to_multiset() == weighted_symbols(pairs),
{
    lemma_leaf_queue_keeps(pairs);
    lemma_merge_all_keeps(leaf_queue(pairs));
}

/// Lets `node` enter `forest` behind the trees that are not heavier.
fn enqueue(forest: &mut VecDeque<HuffmanNode>, node: HuffmanNode)
    ensures
        final(forest)@ == enqueued(old(forest)@, node),
        final(forest)@.len() == old(forest)@.len() + 1,
        0 <= insertion_point(old(forest)@, node.spec_weight()) <= old(forest)@.len(),
{
    let weight = node.weight();
    let mut at: usize = 0;
    assert(forest@.skip(0) =~= forest@);
    while at < forest.len() && forest[at].weight() <= weight
        invariant
            at <= forest@.len(),
            forest@ == old(forest)@,
            weight == node.spec_weight(),
            insertion_point(forest@, weight as int) == at + insertion_point(
                forest@.skip(at as int),
                weight as int,
            ),
        decreases forest@.len() - at,
    {
        assert(forest@.skip(at as int).drop_first() =~= forest@.skip(at + 1));
        at = at + 1;
    }
    forest.insert(at, node);
}

impl HuffmanTree {
    /// Builds the tree of `symbol_weight_pairs`. Each pair becomes a leaf; the
    /// leaves enter a queue ordered by ascending weight, ties in the order of
    /// arrival. While more than one tree waits, the two lightest leave, the
    /// first as left child and the second as right child of a new node that
    /// carries the sum of their weights and enters the queue in turn. The last
    /// tree is the result. With fewer than two pairs there is no tree to build.
    pub fn build_huffman_tree(symbol_weight_pairs: Vec<SymbolWeightPair>) -> (res: Result<
        HuffmanTree,
        HuffmanError,
    >)
        requires
            forall|i: int|
                0 <= i < symbol_weight_pairs@.len() ==> 0 <= #[trigger] symbol_weight_pairs@[i].weight,
            total_weight(symbol_weight_pairs@) <= i32::MAX,
        ensures
            symbol_weight_pairs@.len() < 2 <==> res is Err,
            res matches Err(e) ==> e == HuffmanError::InsufficientSymbols,
            res matches Ok(built) ==> {
                &&& built.symbol_weight_pairs@ == symbol_weight_pairs@
                &&& built.tree == merge_all(leaf_queue(symbol_weight_pairs@))
                &&& built.tree.well_formed()
                &&& built.tree.spec_weight() == total_weight(symbol_weight_pairs@)
                &&& built.tree.leaves().to_multiset() == weighted_symbols(symbol_weight_pairs@)
            },
    {
        if symbol_weight_pairs.len() < 2 {
            return Err(HuffmanError::InsufficientSymbols);
        }
        let ghost pairs = symbol_weight_pairs@;
        proof {
            lemma_built_tree_keeps_symbols(pairs);
        }
        let mut forest: VecDeque<HuffmanNode> = VecDeque::new();
        let mut next: usize = 0;
        while next < symbol_weight_pairs.len()
            invariant
                next <= symbol_weight_pairs@.len(),
                pairs == symbol_weight_pairs@,
                forest@ == leaf_queue(pairs.take(next as int)),
                forest@.len() == next,
                weights_non_negative(forest@),
                queue_weight(forest@) == total_weight(pairs.take(next as int)),
                forall|i: int| 0 <= i < pairs.len() ==> 0 <= #[trigger] pairs[i].weight,
            decreases symbol_weight_pairs@.len() - next,
        {
            let SymbolWeightPair { symbol, weight } = symbol_weight_pairs[next];
            let leaf = HuffmanNode::Lnode(Lnode { symbol, weight });
            proof {
                assert(pairs.take(next + 1).drop_last() =~= pairs.take(next as int));
                lemma_insertion_point_in_range(forest@, leaf.spec_weight());
                lemma_queue_weight_insert(
                    forest@,
                    insertion_point(forest@, leaf.spec_weight()),
                    leaf,
                );
            }
            enqueue(&mut forest, leaf);
            next = next + 1;
        }
        proof {
            assert(pairs.take(next as int) =~= pairs);
        }

        while forest.len() > 1
            invariant
                forest@.len() >= 1,
                merge_all(forest@) == merge_all(leaf_queue(pairs)),
                weights_non_negative(forest@),
                queue_weight(forest@) <= i32::MAX,
            decreases forest@.len(),
        {
            let ghost before = forest@;
            let left_child = Box::new(forest.pop_front().unwrap());
            let right_child = Box::new(forest.pop_front().unwrap());
            proof {
                assert(forest@ =~= before.skip(2));
                lemma_queue_weight_drop_first(before);
                lemma_queue_weight_drop_first(before.drop_first());
                assert(before.drop_first().drop_first() =~= before.skip(2));
                lemma_queue_weight_non_negative(forest@);
            }
            let cached_weight = left_child.weight() + right_child.weight();

            let new_tree = HuffmanNode::Inode(Inode { left_child, right_child, cached_weight });
            proof {
                assert(new_tree == merged(before[0], before[1]));
                lemma_insertion_point_in_range(forest@, new_tree.spec_weight());
                lemma_queue_weight_insert(
                    forest@,
                    insertion_point(forest@, new_tree.spec_weight()),
                    new_tree,
                );
            }
            enqueue(&mut forest, new_tree);
        }

        Ok(HuffmanTree { symbol_weight_pairs, tree: forest.pop_front().unwrap() })
    }
}

} // verus!
