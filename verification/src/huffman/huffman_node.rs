//! The nodes of a Huffman tree, and decoding through them.
use super::{Bit, Bits, HuffmanError, SymbolLengthPair, SymbolType};
use vstd::prelude::*;
use vstd::std_specs::cmp::PartialEqSpecImpl;

verus! {

/// An internal node. It owns both children and caches the weight of the
/// subtree below it.
#[derive(Debug, Eq)]
pub struct Inode {
    pub left_child: Box<HuffmanNode>,
    pub right_child: Box<HuffmanNode>,
    pub cached_weight: i32,
}

/// A leaf: one symbol and its weight.
#[derive(Debug, Eq)]
pub struct Lnode {
    pub symbol: SymbolType,
    pub weight: i32,
}

/// A binary tree whose leaves carry the symbols. A bit sequence names a leaf
/// by the path to it: 0 goes left, 1 goes right.
#[derive(Debug, Eq)]
pub enum HuffmanNode {
    Inode(Inode),
    Lnode(Lnode),
}

impl PartialEq for Lnode {
    /// Two leaves are equal where symbol and weight are.
    fn eq(&self, other: &Self) -> (equal: bool) {
        self.symbol == other.symbol && self.weight == other.weight
    }
}

impl PartialEqSpecImpl for Lnode {
    open spec fn obeys_eq_spec() -> bool {
        true
    }

    open spec fn eq_spec(&self, other: &Self) -> bool {
        *self == *other
    }
}

impl PartialEq for Inode {
    /// Two internal nodes are equal where both children and the cached weight
    /// are.
    fn eq(&self, other: &Self) -> (equal: bool)
        decreases self, 0int,
    {
        let left: &HuffmanNode = &self.left_child;
        let right: &HuffmanNode = &self.right_child;
        self.cached_weight == other.cached_weight && left.eq(&other.left_child) && right.eq(
            &other.right_child,
        )
    }
}

impl PartialEqSpecImpl for Inode {
    open spec fn obeys_eq_spec() -> bool {
        true
    }

    open spec fn eq_spec(&self, other: &Self) -> bool {
        *self == *other
    }
}

impl PartialEq for HuffmanNode {
    /// Two trees are equal where they have the same shape and hold the same
    /// symbols and weights.
    fn eq(&self, other: &Self) -> (equal: bool)
        decreases self, 1int,
    {
        match (self, other) {
            (HuffmanNode::Inode(s), HuffmanNode::Inode(o)) => s.eq(o),
            (HuffmanNode::Lnode(s), HuffmanNode::Lnode(o)) => s.eq(o),
            _ => false,
        }
    }
}

impl PartialEqSpecImpl for HuffmanNode {
    open spec fn obeys_eq_spec() -> bool {
        true
    }

    open spec fn eq_spec(&self, other: &Self) -> bool {
        *self == *other
    }
}

/// A decoded symbol and the bits that follow its code.
pub struct Decode<'a> {
    pub symbol: SymbolType,
    pub remaining_bits: &'a Bits,
}

impl HuffmanNode {
    /// The weight that `weight` reports: what an internal node has cached,
    /// what a leaf carries.
    pub open spec fn spec_weight(self) -> int {
        match self {
            HuffmanNode::Inode(node) => node.cached_weight as int,
            HuffmanNode::Lnode(leaf) => leaf.weight as int,
        }
    }

    /// The sum of the weights of all leaves.
    pub open spec fn total_weight(self) -> int
        decreases self,
    {
        match self {
            HuffmanNode::Inode(node) => node.left_child.total_weight()
                + node.right_child.total_weight(),
            HuffmanNode::Lnode(leaf) => leaf.weight as int,
        }
    }

    /// Every internal node caches the sum of its children's weights.
    pub open spec fn well_formed(self) -> bool
        decreases self,
    {
        match self {
            HuffmanNode::Inode(node) => {
                &&& node.left_child.well_formed()
                &&& node.right_child.well_formed()
                &&& node.cached_weight == node.left_child.spec_weight()
                    + node.right_child.spec_weight()
            },
            HuffmanNode::Lnode(_) => true,
        }
    }

    /// The length of the longest path from this node to a leaf.
    pub open spec fn height(self) -> nat
        decreases self,
    {
        match self {
            HuffmanNode::Inode(node) => {
                let left = node.left_child.height();
                let right = node.right_child.height();
                1 + if left >= right {
                    left
                } else {
                    right
                }
            },
            HuffmanNode::Lnode(_) => 0,
        }
    }

    /// The leaves from left to right, each as symbol and weight.
    pub open spec fn leaves(self) -> Seq<(SymbolType, i32)>
        decreases self,
    {
        match self {
            HuffmanNode::Inode(node) => node.left_child.leaves() + node.right_child.leaves(),
            HuffmanNode::Lnode(leaf) => seq![(leaf.symbol, leaf.weight)],
        }
    }

    /// The path to each leaf, in the order of `leaves`: the code that the
    /// tree gives to the leaf's symbol.
    pub open spec fn codes(self) -> Seq<Seq<Bit>>
        decreases self,
    {
        match self {
            HuffmanNode::Inode(node) => node.left_child.codes().map_values(
                |code: Seq<Bit>| seq![Bit::Zero] + code,
            ) + node.right_child.codes().map_values(|code: Seq<Bit>| seq![Bit::One] + code),
            HuffmanNode::Lnode(_) => seq![Seq::empty()],
        }
    }

    /// What decoding gives: the symbol of the leaf that the bits lead to and
    /// the bits left over, or nothing where the bits end above a leaf.
    pub open spec fn decode_spec(self, bits: Seq<Bit>) -> Option<(SymbolType, Seq<Bit>)>
        decreases self,
    {
        match self {
            HuffmanNode::Inode(node) => if bits.len() == 0 {
                None
            } else if bits[0] == Bit::Zero {
                node.left_child.decode_spec(bits.drop_first())
            } else {
                node.right_child.decode_spec(bits.drop_first())
            },
            HuffmanNode::Lnode(leaf) => Some((leaf.symbol, bits)),
        }
    }

    /// One record per leaf, from left to right, the length being the leaf's
    /// depth below this node plus `depth`.
    pub open spec fn symbol_lengths(self, depth: int) -> Seq<SymbolLengthPair>
        decreases self,
    {
        match self {
            HuffmanNode::Inode(node) => node.left_child.symbol_lengths(depth + 1)
                + node.right_child.symbol_lengths(depth + 1),
            HuffmanNode::Lnode(leaf) => seq![
                SymbolLengthPair { symbol: leaf.symbol, length: depth as i32 },
            ],
        }
    }

    /// The weight of the subtree: cached in an internal node, direct in a leaf.
    pub fn weight(&self) -> (w: i32)
        ensures
            w == self.spec_weight(),
    {
        match self {
            HuffmanNode::Inode(i_node) => i_node.cached_weight,
            HuffmanNode::Lnode(l_node) => l_node.weight,
        }
    }

    /// Decodes one symbol. Bits are taken from the front of `bits`, one per
    /// internal node on the way down: 0 goes left, 1 goes right. At a leaf its
    /// symbol is returned, with the bits that are left. Where the bits run out
    /// above a leaf, all of them have been consumed and the result is
    /// `TruncatedInput`.
    pub fn decode<'a>(&self, bits: &'a mut Bits) -> (res: Result<Decode<'a>, HuffmanError>)
        ensures
            match self.decode_spec(old(bits)@) {
                Some((symbol, rest)) => {
                    &&& res matches Ok(decoded)
                    &&& decoded.symbol == symbol
                    &&& decoded.remaining_bits@ == rest
                    &&& final(bits)@ == rest
                },
                None => {
                    &&& res == Err::<Decode<'a>, HuffmanError>(HuffmanError::TruncatedInput)
                    &&& final(bits)@ == Seq::<Bit>::empty()
                },
            },
        decreases self,
    {
        match self {
            HuffmanNode::Inode(Inode { left_child, right_child, .. }) => {
                match bits.pop_front() {
                    None => Err(HuffmanError::TruncatedInput),
                    Some(current_bit) => {
                        let child = match current_bit {
                            Bit::Zero => left_child,
                            Bit::One => right_child,
                        };
                        child.decode(bits)
                    },
                }
            },
            HuffmanNode::Lnode(Lnode { symbol, .. }) => Ok(
                Decode { symbol: *symbol, remaining_bits: bits },
            ),
        }
    }

    /// Appends to `result` one record per leaf below this node, left before
    /// right, with `length` plus the leaf's depth as its length.
    pub fn build_symbol_length_pairs_helper(&self, length: i32, result: &mut Vec<SymbolLengthPair>)
        requires
            length + self.height() <= i32::MAX,
        ensures
            final(result)@ == old(result)@ + self.symbol_lengths(length as int),
        decreases self,
    {
        match self {
            HuffmanNode::Inode(Inode { left_child, right_child, .. }) => {
                left_child.build_symbol_length_pairs_helper(length + 1, result);
                right_child.build_symbol_length_pairs_helper(length + 1, result);
            },
            HuffmanNode::Lnode(Lnode { symbol, .. }) => {
                result.push(SymbolLengthPair { symbol: *symbol, length });
            },
        }
    }

    /// The code length of every leaf: one record per leaf, left before right,
    /// the length being the leaf's depth.
    pub fn build_symbol_length_pairs(&self) -> (result: Vec<SymbolLengthPair>)
        requires
            self.height() <= i32::MAX,
        ensures
            result@ == self.symbol_lengths(0),
    {
        let mut result: Vec<SymbolLengthPair> = Vec::new();

        self.build_symbol_length_pairs_helper(0, &mut result);

        result
    }
}

/// The tree has one code per leaf.
pub proof fn lemma_one_code_per_leaf(tree: HuffmanNode)
    ensures
        tree.codes().len() == tree.leaves().len(),
        tree.leaves().len() >= 1,
    decreases tree,
{
    match tree {
        HuffmanNode::Inode(node) => {
            lemma_one_code_per_leaf(*node.left_child);
            lemma_one_code_per_leaf(*node.right_child);
        },
        HuffmanNode::Lnode(_) => {},
    }
}

/// Round trip: decoding the code of a leaf, followed by any further bits,
/// gives back the leaf's symbol and leaves exactly those further bits. With
/// nothing after the code, nothing remains.
pub proof fn lemma_decode_inverts_code(tree: HuffmanNode, i: int, rest: Seq<Bit>)
    requires
        0 <= i < tree.leaves().len(),
    ensures
        tree.codes().len() == tree.leaves().len(),
        tree.decode_spec(tree.codes()[i] + rest) == Some((tree.leaves()[i].0, rest)),
        tree.decode_spec(tree.codes()[i]) == Some((tree.leaves()[i].0, Seq::<Bit>::empty())),
    decreases tree,
{
    lemma_one_code_per_leaf(tree);
    match tree {
        HuffmanNode::Inode(node) => {
            let left = *node.left_child;
            let right = *node.right_child;
            lemma_one_code_per_leaf(left);
            lemma_one_code_per_leaf(right);
            let code = tree.codes()[i];
            if i < left.leaves().len() {
                lemma_decode_inverts_code(left, i, rest);
                assert(code == seq![Bit::Zero] + left.codes()[i]);
                assert((code + rest).drop_first() =~= left.codes()[i] + rest);
                assert(code.drop_first() =~= left.codes()[i]);
            } else {
                let j = i - left.leaves().len();
                lemma_decode_inverts_code(right, j, rest);
                assert(code == seq![Bit::One] + right.codes()[j]);
                assert((code + rest).drop_first() =~= right.codes()[j] + rest);
                assert(code.drop_first() =~= right.codes()[j]);
            }
        },
        HuffmanNode::Lnode(leaf) => {
            assert(tree.codes()[0] + rest =~= rest);
        },
    }
}

/// The records of `symbol_lengths` name the leaves in order, each with the
/// length of its code added to `depth`.
pub proof fn lemma_symbol_lengths_are_code_lengths(tree: HuffmanNode, depth: int, i: int)
    requires
        0 <= i < tree.leaves().len(),
    ensures
        tree.symbol_lengths(depth).len() == tree.leaves().len(),
        tree.codes().len() == tree.leaves().len(),
        tree.symbol_lengths(depth)[i].symbol == tree.leaves()[i].0,
        tree.symbol_lengths(depth)[i].length == (depth + tree.codes()[i].len()) as i32,
        tree.codes()[i].len() <= tree.height(),
    decreases tree,
{
    lemma_one_code_per_leaf(tree);
    lemma_symbol_lengths_len(tree, depth);
    match tree {
        HuffmanNode::Inode(node) => {
            let left = *node.left_child;
            let right = *node.right_child;
            lemma_one_code_per_leaf(left);
            lemma_one_code_per_leaf(right);
            lemma_symbol_lengths_len(left, depth + 1);
            lemma_symbol_lengths_len(right, depth + 1);
            if i < left.leaves().len() {
                lemma_symbol_lengths_are_code_lengths(left, depth + 1, i);
            } else {
                lemma_symbol_lengths_are_code_lengths(right, depth + 1, i - left.leaves().len());
            }
        },
        HuffmanNode::Lnode(_) => {},
    }
}

proof fn lemma_symbol_lengths_len(tree: HuffmanNode, depth: int)
    ensures
        tree.symbol_lengths(depth).len() == tree.leaves().len(),
    decreases tree,
{
    match tree {
        HuffmanNode::Inode(node) => {
            lemma_symbol_lengths_len(*node.left_child, depth + 1);
            lemma_symbol_lengths_len(*node.right_child, depth + 1);
        },
        HuffmanNode::Lnode(_) => {},
    }
}

/// In a well-formed tree the weight that a node reports is the sum of the
/// weights of the leaves below it.
pub proof fn lemma_weight_is_total(tree: HuffmanNode)
    requires
        tree.well_formed(),
    ensures
        tree.spec_weight() == tree.total_weight(),
    decreases tree,
{
    match tree {
        HuffmanNode::Inode(node) => {
            lemma_weight_is_total(*node.left_child);
            lemma_weight_is_total(*node.right_child);
        },
        HuffmanNode::Lnode(_) => {},
    }
}

} // verus!
