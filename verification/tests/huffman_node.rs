use rgzip::huffman::huffman_node::{HuffmanNode, Inode, Lnode};
use rgzip::huffman::{Bit, Bits, HuffmanError, SymbolLengthPair};
use std::collections::VecDeque;

#[test]
fn huffman_node_basic_node_decode() {
    let left_symbol = 10;
    let left_weight = 1;
    let left_child = HuffmanNode::Lnode(Lnode {
        symbol: left_symbol,
        weight: left_weight,
    });

    let right_symbol = 20;
    let right_weight = 1;
    let right_child = HuffmanNode::Lnode(Lnode {
        symbol: right_symbol,
        weight: right_weight,
    });

    let tree = HuffmanNode::Inode(Inode {
        left_child: Box::new(left_child),
        right_child: Box::new(right_child),
        cached_weight: left_weight + right_weight,
    });

    let mut zero: Bits = VecDeque::from(vec![Bit::Zero]);
    let decoded_zero = tree.decode(&mut zero).unwrap();
    assert_eq!(decoded_zero.symbol, left_symbol);
    assert_eq!(decoded_zero.remaining_bits.len(), 0);
    assert_eq!(zero.len(), 0);

    let mut one: Bits = VecDeque::from(vec![Bit::One]);
    let decoded_one = tree.decode(&mut one).unwrap();
    assert_eq!(decoded_one.symbol, right_symbol);
    assert_eq!(decoded_one.remaining_bits.len(), 0);
    assert_eq!(one.len(), 0);
}

#[test]
fn lib_basic_node_decode() {
    let left_symbol = 10;
    let left_weight = 1;
    let left_child = HuffmanNode::Lnode(Lnode {
        symbol: left_symbol,
        weight: left_weight,
    });

    let right_symbol = 20;
    let right_weight = 1;
    let right_child = HuffmanNode::Lnode(Lnode {
        symbol: right_symbol,
        weight: right_weight,
    });

    let tree = HuffmanNode::Inode(Inode {
        left_child: Box::new(left_child),
        right_child: Box::new(right_child),
        cached_weight: left_weight + right_weight,
    });

    let mut zero: Bits = VecDeque::from(vec![Bit::Zero]);
    let decoded_zero = tree.decode(&mut zero).unwrap();
    assert_eq!(decoded_zero.symbol, left_symbol);
    assert_eq!(decoded_zero.remaining_bits.len(), 0);
    assert_eq!(zero.len(), 0);

    let mut one: Bits = VecDeque::from(vec![Bit::One]);
    let decoded_one = tree.decode(&mut one).unwrap();
    assert_eq!(decoded_one.symbol, right_symbol);
    assert_eq!(decoded_one.remaining_bits.len(), 0);
    assert_eq!(one.len(), 0);
}

fn leaf(symbol: u8, weight: i32) -> HuffmanNode {
    HuffmanNode::Lnode(Lnode { symbol, weight })
}

fn node(left: HuffmanNode, right: HuffmanNode) -> HuffmanNode {
    let cached_weight = left.weight() + right.weight();
    HuffmanNode::Inode(Inode {
        left_child: Box::new(left),
        right_child: Box::new(right),
        cached_weight,
    })
}

/// ((a b) c), with d to the right of it.
fn four_leaves() -> HuffmanNode {
    node(node(node(leaf(b'a', 1), leaf(b'b', 2)), leaf(b'c', 4)), leaf(b'd', 8))
}

#[test]
fn weight_is_cached_in_a_node_and_direct_in_a_leaf() {
    assert_eq!(leaf(b'x', 7).weight(), 7);
    assert_eq!(four_leaves().weight(), 15);

    let miscounted = HuffmanNode::Inode(Inode {
        left_child: Box::new(leaf(b'a', 1)),
        right_child: Box::new(leaf(b'b', 2)),
        cached_weight: 40,
    });
    assert_eq!(miscounted.weight(), 40);
}

#[test]
fn decode_leaves_the_bits_behind_the_code() {
    let tree = four_leaves();
    let mut bits: Bits = VecDeque::from(vec![Bit::Zero, Bit::One, Bit::One, Bit::Zero]);

    let decoded = tree.decode(&mut bits).unwrap();

    assert_eq!(decoded.symbol, b'c');
    assert_eq!(*decoded.remaining_bits, VecDeque::from(vec![Bit::One, Bit::Zero]));
    assert_eq!(bits, VecDeque::from(vec![Bit::One, Bit::Zero]));
}

#[test]
fn decode_at_a_leaf_takes_no_bit() {
    let tree = leaf(b'x', 1);
    let mut bits: Bits = VecDeque::from(vec![Bit::One]);

    let decoded = tree.decode(&mut bits).unwrap();

    assert_eq!(decoded.symbol, b'x');
    assert_eq!(bits.len(), 1);
}

#[test]
fn decode_fails_when_the_bits_run_out() {
    let tree = four_leaves();

    let mut none: Bits = VecDeque::new();
    assert!(matches!(tree.decode(&mut none), Err(HuffmanError::TruncatedInput)));

    let mut short: Bits = VecDeque::from(vec![Bit::Zero, Bit::Zero]);
    assert!(matches!(tree.decode(&mut short), Err(HuffmanError::TruncatedInput)));
    assert_eq!(short.len(), 0);
}

#[test]
fn symbol_lengths_are_the_depths_of_the_leaves_from_left_to_right() {
    let pairs = four_leaves().build_symbol_length_pairs();

    assert_eq!(
        pairs,
        vec![
            SymbolLengthPair { symbol: b'a', length: 3 },
            SymbolLengthPair { symbol: b'b', length: 3 },
            SymbolLengthPair { symbol: b'c', length: 2 },
            SymbolLengthPair { symbol: b'd', length: 1 },
        ]
    );
}

#[test]
fn symbol_lengths_helper_appends_and_starts_at_the_given_length() {
    let mut result = vec![SymbolLengthPair { symbol: b'z', length: 9 }];

    node(leaf(b'a', 1), leaf(b'b', 1)).build_symbol_length_pairs_helper(5, &mut result);

    assert_eq!(
        result,
        vec![
            SymbolLengthPair { symbol: b'z', length: 9 },
            SymbolLengthPair { symbol: b'a', length: 6 },
            SymbolLengthPair { symbol: b'b', length: 6 },
        ]
    );
}

#[test]
fn a_single_leaf_has_length_zero() {
    assert_eq!(
        leaf(b'x', 3).build_symbol_length_pairs(),
        vec![SymbolLengthPair { symbol: b'x', length: 0 }]
    );
}

fn paths(tree: &HuffmanNode, prefix: &mut Vec<Bit>, out: &mut Vec<(u8, Vec<Bit>)>) {
    match tree {
        HuffmanNode::Inode(inner) => {
            prefix.push(Bit::Zero);
            paths(&inner.left_child, prefix, out);
            prefix.pop();
            prefix.push(Bit::One);
            paths(&inner.right_child, prefix, out);
            prefix.pop();
        }
        HuffmanNode::Lnode(leaf) => out.push((leaf.symbol, prefix.clone())),
    }
}

#[test]
fn decoding_the_path_to_a_leaf_gives_its_symbol_and_leaves_nothing() {
    let tree = four_leaves();
    let mut all = Vec::new();
    paths(&tree, &mut Vec::new(), &mut all);
    assert_eq!(all.len(), 4);

    for (symbol, path) in all {
        let mut bits: Bits = VecDeque::from(path.clone());
        let decoded = tree.decode(&mut bits).unwrap();
        assert_eq!(decoded.symbol, symbol);
        assert_eq!(decoded.remaining_bits.len(), 0);

        let mut followed: Bits = VecDeque::from(path);
        followed.push_back(Bit::One);
        followed.push_back(Bit::Zero);
        let decoded = tree.decode(&mut followed).unwrap();
        assert_eq!(decoded.symbol, symbol);
        assert_eq!(followed, VecDeque::from(vec![Bit::One, Bit::Zero]));
    }
}
