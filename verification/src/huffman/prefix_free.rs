//! Why canonical codes can be told apart: no code is the start of another.
use super::code_bits::{
    code_bits, doubled, halved, is_prefix, lemma_code_bits_injective, lemma_code_bits_len,
    lemma_code_bits_prefix, lemma_doubled_adds, lemma_halved_bounds,
};
use super::huffman_lut::{
    base_code, buildable, canonical_codes, code_table, count_at, count_of, counts_well_formed,
    first_codes, lemma_base_code_non_negative, lemma_buildable, lemma_count_of_prefix,
    symbol_counts,
};
use super::{SymbolLengthPair, SymbolType};
use vstd::prelude::*;

verus! {

/// How many of the codes of `length` digits are taken by the records of
/// `pairs`: one by each record of that length, and by each record of a shorter
/// length all the codes that start with its own. This is the sum of Kraft's
/// inequality, scaled by two to the `length`.
pub open spec fn codes_claimed(pairs: Seq<SymbolLengthPair>, length: int) -> int
    decreases pairs.len(),
{
    if pairs.len() == 0 {
        0
    } else {
        codes_claimed(pairs.drop_last(), length) + if 0 < pairs.last().length <= length {
            doubled(1, (length - pairs.last().length) as nat)
        } else {
            0
        }
    }
}

/// The lengths of `pairs` obey Kraft's inequality: at no length do the records
/// claim more codes than there are. Lengths that do not obey it are
/// over-subscribed, and no prefix code has them.
pub open spec fn not_oversubscribed(pairs: Seq<SymbolLengthPair>) -> bool {
    forall|length: int|
        0 < length ==> #[trigger] codes_claimed(pairs, length) <= doubled(1, length as nat)
}

/// The number that the record at `i` takes as its code.
pub open spec fn record_value(pairs: Seq<SymbolLengthPair>, i: int) -> int {
    base_code(symbol_counts(pairs), pairs[i].length as int) + count_of(
        pairs.take(i),
        pairs[i].length as int,
    )
}

proof fn lemma_codes_claimed_step(pairs: Seq<SymbolLengthPair>, length: int)
    requires
        0 < length,
    ensures
        codes_claimed(pairs, length) == 2 * codes_claimed(pairs, length - 1) + count_of(
            pairs,
            length,
        ),
        codes_claimed(pairs, 0) == 0,
    decreases pairs.len(),
{
    if pairs.len() > 0 {
        lemma_codes_claimed_step(pairs.drop_last(), length);
    }
}

/// The codes claimed at a length are the first code of that length plus the
/// number of its records: the first code that is free after them.
proof fn lemma_codes_claimed_is_next_code(pairs: Seq<SymbolLengthPair>, length: int)
    requires
        buildable(pairs),
        0 <= length,
    ensures
        codes_claimed(pairs, length) == base_code(symbol_counts(pairs), length) + count_at(
            symbol_counts(pairs),
            length,
        ),
    decreases length,
{
    lemma_buildable(pairs);
    if length == 0 {
        lemma_codes_claimed_step(pairs, 1);
    } else {
        lemma_codes_claimed_is_next_code(pairs, length - 1);
        lemma_codes_claimed_step(pairs, length);
    }
}

/// The first code of a longer length lies behind every code of a shorter
/// length, extended to the longer length.
proof fn lemma_base_code_gap(counts: Map<i32, i32>, shorter: int, longer: int)
    requires
        counts_well_formed(counts),
        0 <= shorter < longer,
    ensures
        doubled(
            base_code(counts, shorter) + count_at(counts, shorter),
            (longer - shorter) as nat,
        ) <= base_code(counts, longer),
    decreases longer - shorter,
{
    let next_code = base_code(counts, shorter) + count_at(counts, shorter);
    if shorter + 1 < longer {
        lemma_base_code_gap(counts, shorter, longer - 1);
        assert(0 <= count_at(counts, longer - 1));
        assert(doubled(next_code, (longer - shorter) as nat) == 2 * doubled(
            next_code,
            (longer - 1 - shorter) as nat,
        ));
    } else {
        assert(doubled(next_code, 1) == 2 * doubled(next_code, 0));
    }
}

/// A record's number is a code of its length: it lies between the first code
/// of the length and the first free code behind the records of that length.
proof fn lemma_record_value_bounds(pairs: Seq<SymbolLengthPair>, i: int)
    requires
        buildable(pairs),
        not_oversubscribed(pairs),
        0 <= i < pairs.len(),
        0 < pairs[i].length,
    ensures
        base_code(symbol_counts(pairs), pairs[i].length as int) <= record_value(pairs, i),
        record_value(pairs, i) < codes_claimed(pairs, pairs[i].length as int),
        codes_claimed(pairs, pairs[i].length as int) <= doubled(1, pairs[i].length as nat),
        0 <= record_value(pairs, i),
{
    let length = pairs[i].length as int;
    lemma_buildable(pairs);
    lemma_codes_claimed_is_next_code(pairs, length);
    lemma_count_of_prefix(pairs, i, length);
    lemma_base_code_non_negative(symbol_counts(pairs), length);
}

/// Of two records with the same length, the later one has more records of
/// that length before it.
proof fn lemma_rank_ascends(pairs: Seq<SymbolLengthPair>, i: int, j: int)
    requires
        0 <= i < j < pairs.len(),
    ensures
        count_of(pairs.take(i), pairs[i].length as int) < count_of(
            pairs.take(j),
            pairs[i].length as int,
        ),
{
    lemma_count_of_prefix(pairs.take(j), i, pairs[i].length as int);
    assert(pairs.take(j).take(i) =~= pairs.take(i));
}

/// The codes of two records do not start one another.
proof fn lemma_record_codes_differ(pairs: Seq<SymbolLengthPair>, i: int, j: int)
    requires
        buildable(pairs),
        not_oversubscribed(pairs),
        0 <= i < pairs.len(),
        0 <= j < pairs.len(),
        i != j,
        0 < pairs[i].length,
        0 < pairs[j].length,
    ensures
        !is_prefix(
            code_bits(record_value(pairs, i), pairs[i].length as nat),
            code_bits(record_value(pairs, j), pairs[j].length as nat),
        ),
{
    let counts = symbol_counts(pairs);
    let short = pairs[i].length as nat;
    let long = pairs[j].length as nat;
    let value_i = record_value(pairs, i);
    let value_j = record_value(pairs, j);
    lemma_buildable(pairs);
    lemma_record_value_bounds(pairs, i);
    lemma_record_value_bounds(pairs, j);
    lemma_code_bits_len(value_i, short);
    lemma_code_bits_len(value_j, long);
    if short <= long {
        let cut = (long - short) as nat;
        lemma_code_bits_prefix(value_j, short, long);
        if short == long {
            if i < j {
                lemma_rank_ascends(pairs, i, j);
            } else {
                lemma_rank_ascends(pairs, j, i);
            }
            assert(halved(value_j, cut) == value_j);
        } else {
            lemma_codes_claimed_is_next_code(pairs, short as int);
            lemma_base_code_gap(counts, short as int, long as int);
            lemma_doubled_adds(1, short, cut);
            lemma_halved_bounds(
                value_j,
                codes_claimed(pairs, short as int),
                doubled(1, short),
                cut,
            );
        }
        if code_bits(halved(value_j, cut), short) == code_bits(value_i, short) {
            lemma_halved_in_range(value_j, short, cut);
            lemma_code_bits_injective(halved(value_j, cut), value_i, short);
        }
    }
}

proof fn lemma_halved_in_range(value: int, length: nat, cut: nat)
    requires
        0 <= value < doubled(1, length + cut),
    ensures
        0 <= halved(value, cut) < doubled(1, length),
{
    lemma_doubled_adds(1, length, cut);
    lemma_doubled_zero(cut);
    lemma_halved_bounds(value, 0, doubled(1, length), cut);
}

proof fn lemma_doubled_zero(times: nat)
    ensures
        doubled(0, times) == 0,
    decreases times,
{
    if times > 0 {
        lemma_doubled_zero((times - 1) as nat);
    }
}

/// Every entry of a table comes from a record: the last record of its symbol
/// that takes a code.
proof fn lemma_table_entry(pairs: Seq<SymbolLengthPair>, codes: Map<i32, i32>, symbol: SymbolType)
    -> (i: int)
    requires
        code_table(pairs, codes).contains_key(symbol),
    ensures
        0 <= i < pairs.len(),
        pairs[i].symbol == symbol,
        pairs[i].length != 0,
        code_table(pairs, codes)[symbol] == code_bits(
            codes[pairs[i].length] + count_of(pairs.take(i), pairs[i].length as int),
            pairs[i].length as nat,
        ),
    decreases pairs.len(),
{
    let earlier = pairs.drop_last();
    let last = pairs.last();
    if last.length != 0 && last.symbol == symbol {
        assert(pairs.take(pairs.len() - 1) =~= earlier);
        pairs.len() - 1
    } else {
        let i = lemma_table_entry(earlier, codes, symbol);
        assert(earlier.take(i) =~= pairs.take(i));
        i
    }
}

/// In a canonical table no code is the start of the code of another symbol,
/// provided that the lengths are not over-subscribed.
pub proof fn lemma_canonical_codes_are_prefix_free(
    pairs: Seq<SymbolLengthPair>,
    first: SymbolType,
    second: SymbolType,
)
    requires
        buildable(pairs),
        not_oversubscribed(pairs),
        canonical_codes(pairs).contains_key(first),
        canonical_codes(pairs).contains_key(second),
        first != second,
    ensures
        !is_prefix(canonical_codes(pairs)[first], canonical_codes(pairs)[second]),
        !is_prefix(canonical_codes(pairs)[second], canonical_codes(pairs)[first]),
{
    let codes = first_codes(symbol_counts(pairs));
    lemma_buildable(pairs);
    let i = lemma_table_entry(pairs, codes, first);
    let j = lemma_table_entry(pairs, codes, second);
    lemma_base_code_non_negative(symbol_counts(pairs), pairs[i].length as int);
    lemma_base_code_non_negative(symbol_counts(pairs), pairs[j].length as int);
    lemma_count_of_prefix(pairs, i, pairs[i].length as int);
    lemma_count_of_prefix(pairs, j, pairs[j].length as int);
    assert(codes[pairs[i].length] == base_code(symbol_counts(pairs), pairs[i].length as int));
    assert(codes[pairs[j].length] == base_code(symbol_counts(pairs), pairs[j].length as int));
    lemma_record_codes_differ(pairs, i, j);
    lemma_record_codes_differ(pairs, j, i);
}

} // verus!
