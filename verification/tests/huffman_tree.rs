use rgzip::huffman::huffman_node::{HuffmanNode, Inode, Lnode};
use rgzip::huffman::huffman_tree::HuffmanTree;
use rgzip::huffman::{Bit, Bits, HuffmanError, SymbolLengthPair, SymbolWeightPair};
use std::collections::VecDeque;

#[test]
fn empty_forest() {
    let symbol_weight_pairs = vec![];

    assert_eq!(
        HuffmanTree::build_huffman_tree(symbol_weight_pairs),
        Err(HuffmanError::InsufficientSymbols)
    );
}

#[test]
fn small_forest() {
    let symbol_weight_pairs = vec![SymbolWeightPair {
        symbol: b'A',
        weight: 10,
    }];

    assert_eq!(
        HuffmanTree::build_huffman_tree(symbol_weight_pairs),
        Err(HuffmanError::InsufficientSymbols)
    );
}

#[test]
fn simple_forest() {
    #[allow(non_snake_case)]
    let symbol_weight_pair_A = SymbolWeightPair {
        symbol: b'A',
        weight: 10,
    };
    #[allow(non_snake_case)]
    let symbol_weight_pair_B = SymbolWeightPair {
        symbol: b'B',
        weight: 20,
    };
    #[allow(non_snake_case)]
    let symbol_weight_pair_C = SymbolWeightPair {
        symbol: b'C',
        weight: 5,
    };

    let symbol_weight_pairs = vec![
        symbol_weight_pair_A,
        symbol_weight_pair_B,
        symbol_weight_pair_C,
    ];
    let expected_symbol_weight_pairs = symbol_weight_pairs.clone();

    let huffman_tree = HuffmanTree::build_huffman_tree(symbol_weight_pairs).unwrap();

    let left_right_symbol = b'A';
    let left_right_weight = 10;
    let left_right_child = HuffmanNode::Lnode(Lnode {
        symbol: left_right_symbol,
        weight: left_right_weight,
    });

    let right_symbol = b'B';
    let right_weight = 20;
    let right_child = HuffmanNode::Lnode(Lnode {
        symbol: right_symbol,
        weight: right_weight,
    });

    let left_left_symbol = b'C';
    let left_left_weight = 5;
    let left_left_child = HuffmanNode::Lnode(Lnode {
        symbol: left_left_symbol,
        weight: left_left_weight,
    });

    let expected_left_subtree = HuffmanNode::Inode(Inode {
        left_child: Box::new(left_left_child),
        right_child: Box::new(left_right_child),
        cached_weight: left_left_weight + left_right_weight,
    });
    let expected_left_subtree_weight = expected_left_subtree.weight();

    let expected_tree = HuffmanNode::Inode(Inode {
        left_child: Box::new(expected_left_subtree),
        right_child: Box::new(right_child),
        cached_weight: expected_left_subtree_weight + right_weight,
    });

    assert_eq!(
        huffman_tree.symbol_weight_pairs,
        expected_symbol_weight_pairs
    );
    assert_eq!(huffman_tree.tree, expected_tree);
}

fn pair(symbol: u8, weight: i32) -> SymbolWeightPair {
    SymbolWeightPair { symbol, weight }
}

fn leaf(symbol: u8, weight: i32) -> HuffmanNode {
    HuffmanNode::Lnode(Lnode { symbol, weight })
}

fn node(left: HuffmanNode, right: HuffmanNode) -> HuffmanNode {
    let cached_weight = left.weight() + right.weight();
    HuffmanNode::Inode(Inode {
        left_child: Box::new(left),
        right_child: Box::new(right),
        cached_weight,
    })
}

#[test]
fn two_symbols_make_one_node() {
    let built = HuffmanTree::build_huffman_tree(vec![pair(b'x', 3), pair(b'y', 2)]).unwrap();

    assert_eq!(built.tree, node(leaf(b'y', 2), leaf(b'x', 3)));
    assert_eq!(built.tree.weight(), 5);
}

#[test]
fn equal_weights_leave_in_the_order_they_came() {
    let built = HuffmanTree::build_huffman_tree(vec![
        pair(b'a', 1),
        pair(b'b', 1),
        pair(b'c', 1),
        pair(b'd', 1),
    ])
    .unwrap();

    assert_eq!(
        built.tree,
        node(node(leaf(b'a', 1), leaf(b'b', 1)), node(leaf(b'c', 1), leaf(b'd', 1)))
    );
}

#[test]
fn a_merged_tree_waits_behind_trees_of_its_weight() {
    let built =
        HuffmanTree::build_huffman_tree(vec![pair(b'a', 1), pair(b'b', 1), pair(b'c', 2)]).unwrap();

    assert_eq!(built.tree, node(leaf(b'c', 2), node(leaf(b'a', 1), leaf(b'b', 1))));
}

#[test]
fn weights_of_zero_are_accepted() {
    let built = HuffmanTree::build_huffman_tree(vec![pair(b'a', 0), pair(b'b', 0)]).unwrap();

    assert_eq!(built.tree, node(leaf(b'a', 0), leaf(b'b', 0)));
}

#[test]
fn the_lengths_of_a_built_tree() {
    let built = HuffmanTree::build_huffman_tree(vec![
        pair(b'a', 45),
        pair(b'b', 13),
        pair(b'c', 12),
        pair(b'd', 16),
        pair(b'e', 9),
        pair(b'f', 5),
    ])
    .unwrap();

    assert_eq!(built.tree.weight(), 100);
    let mut lengths = built.tree.build_symbol_length_pairs();
    lengths.sort_by_key(|pair| pair.symbol);
    assert_eq!(
        lengths,
        vec![
            SymbolLengthPair { symbol: b'a', length: 1 },
            SymbolLengthPair { symbol: b'b', length: 3 },
            SymbolLengthPair { symbol: b'c', length: 3 },
            SymbolLengthPair { symbol: b'd', length: 3 },
            SymbolLengthPair { symbol: b'e', length: 4 },
            SymbolLengthPair { symbol: b'f', length: 4 },
        ]
    );
}

fn paths(tree: &HuffmanNode, prefix: &mut Vec<Bit>, out: &mut Vec<(u8, Vec<Bit>)>) {
    match tree {
        HuffmanNode::Inode(inner) => {
            prefix.push(Bit::Zero);
            paths(&inner.left_child, prefix, out);
            prefix.pop();
            prefix.push(Bit::One);
            paths(&inner.right_child, prefix, out);
            prefix.pop();
        }
        HuffmanNode::Lnode(leaf) => out.push((leaf.symbol, prefix.clone())),
    }
}

#[test]
fn every_symbol_of_a_built_tree_survives_the_round_trip() {
    let pairs = vec![pair(b'a', 45), pair(b'b', 13), pair(b'c', 12), pair(b'd', 16), pair(b'e', 9)];
    let built = HuffmanTree::build_huffman_tree(pairs.clone()).unwrap();
    let mut all = Vec::new();
    paths(&built.tree, &mut Vec::new(), &mut all);

    let mut symbols: Vec<u8> = all.iter().map(|(symbol, _)| *symbol).collect();
    symbols.sort();
    assert_eq!(symbols, vec![b'a', b'b', b'c', b'd', b'e']);
    for (symbol, path) in all {
        let mut bits: Bits = VecDeque::from(path);
        let decoded = built.tree.decode(&mut bits).unwrap();
        assert_eq!(decoded.symbol, symbol);
        assert_eq!(decoded.remaining_bits.len(), 0);
    }
}
