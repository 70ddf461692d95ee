//! Huffman codes: the records that describe an alphabet, the bit sequences
//! that encode it, and the two ways to arrive at a code.
use std::collections::VecDeque;
use vstd::prelude::*;

pub mod code_bits;
pub mod huffman_lut;
pub mod huffman_node;
pub mod huffman_tree;
mod key_order;
pub mod prefix_free;

verus! {

/// A binary digit.
#[derive(Clone, Copy, Debug, PartialEq, Eq, Structural)]
pub enum Bit {
    Zero,
    One,
}

/// A sequence of bits, read front to back. As a code, the front bit is the
/// most significant one.
pub type Bits = VecDeque<Bit>;

/// A symbol of the alphabet.
pub type SymbolType = u8;

/// A symbol with the frequency it was seen with.
#[derive(Clone, Copy, Debug, PartialEq, Eq, Structural)]
pub struct SymbolWeightPair {
    pub symbol: SymbolType,
    pub weight: i32,
}

/// A symbol with the length of its code. Length 0 marks a symbol that the
/// code does not use.
#[derive(Clone, Copy, Debug, PartialEq, Eq, Structural)]
pub struct SymbolLengthPair {
    pub symbol: SymbolType,
    pub length: i32,
}

/// Why a tree could not be built or a bit sequence not be decoded.
#[derive(Clone, Copy, Debug, PartialEq, Eq, Structural)]
pub enum HuffmanError {
    /// Fewer than two weighted symbols were given.
    InsufficientSymbols,
    /// The bits ran out before a leaf was reached.
    TruncatedInput,
}

} // verus!
