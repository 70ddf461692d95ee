//! The canonical code table: from the code length of each symbol to its code.
//!
//! Codes of one length are consecutive numbers, handed out in the order of the
//! records; the first code of a length follows from the number of codes of the
//! shorter lengths.
use super::code_bits::{code_bits, render_code};
use super::key_order::lemma_keys_ascend;
use super::{Bit, Bits, SymbolLengthPair, SymbolType};
use std::collections::BTreeMap;
use vstd::prelude::*;
use vstd::std_specs::btree::{increasing_seq, spec_keys_iter};
use vstd::std_specs::iter::IteratorSpec;

verus! {

/// A code table with the records it was built from. The order of the records
/// is the order in which codes of equal length were handed out.
#[derive(Debug, PartialEq, Eq)]
pub struct HuffmanLUT {
    pub symbol_length_pairs: Vec<SymbolLengthPair>,
    pub lookup_table: BTreeMap<SymbolType, Bits>,
}

/// How many records of `pairs` have the length `length`.
pub open spec fn count_of(pairs: Seq<SymbolLengthPair>, length: int) -> nat
    decreases pairs.len(),
{
    if pairs.len() == 0 {
        0
    } else {
        count_of(pairs.drop_last(), length) + if pairs.last().length == length {
            1nat
        } else {
            0nat
        }
    }
}

/// For every length that occurs in `pairs`, the number of records with it.
pub open spec fn tally(pairs: Seq<SymbolLengthPair>) -> Map<i32, i32> {
    Map::new(|length: i32| count_of(pairs, length as int) > 0, |length: i32| count_of(pairs, length as int) as i32)
}

/// The number of symbols per code length. Length 0, which marks unused symbols,
/// is always there and counts as 0.
pub open spec fn symbol_counts(pairs: Seq<SymbolLengthPair>) -> Map<i32, i32> {
    tally(pairs).insert(0, 0)
}

/// A map from code lengths to numbers of symbols is well formed: no length and
/// no number is negative, and length 0 is there with no symbols.
pub open spec fn counts_well_formed(counts: Map<i32, i32>) -> bool {
    &&& counts.contains_key(0)
    &&& counts[0] == 0
    &&& forall|length: i32| #[trigger]
        counts.contains_key(length) ==> 0 <= length && 0 <= counts[length]
}

/// The number of symbols that `counts` knows for `length`: none where it has
/// no entry.
pub open spec fn count_at(counts: Map<i32, i32>, length: int) -> int {
    if i32::MIN <= length <= i32::MAX && counts.contains_key(length as i32) {
        counts[length as i32] as int
    } else {
        0
    }
}

/// The first code of `length`: one step per length from 1 up, each adding the
/// number of codes of the length before and doubling.
pub open spec fn base_code(counts: Map<i32, i32>, length: int) -> int
    decreases length,
{
    if length <= 0 {
        0
    } else {
        2 * (base_code(counts, length - 1) + count_at(counts, length - 1))
    }
}

/// The first code of every length that `counts` has an entry for.
pub open spec fn first_codes(counts: Map<i32, i32>) -> Map<i32, i32> {
    Map::new(
        |length: i32| counts.contains_key(length),
        |length: i32| base_code(counts, length as int) as i32,
    )
}

/// The first code of every length of `counts` fits the machine's numbers.
pub open spec fn base_codes_fit(counts: Map<i32, i32>) -> bool {
    forall|length: i32| #[trigger]
        counts.contains_key(length) ==> base_code(counts, length as int) <= i32::MAX
}

/// The codes of `pairs` where the codes of each length start at the number
/// that `codes` holds for it: each record takes the next number of its length,
/// in the order of `pairs`, and a later record of a symbol replaces an earlier
/// one. A record of length 0 takes none.
pub open spec fn code_table(pairs: Seq<SymbolLengthPair>, codes: Map<i32, i32>) -> Map<
    SymbolType,
    Seq<Bit>,
>
    decreases pairs.len(),
{
    if pairs.len() == 0 {
        Map::empty()
    } else {
        let earlier = pairs.drop_last();
        let last = pairs.last();
        if last.length == 0 {
            code_table(earlier, codes)
        } else {
            code_table(earlier, codes).insert(
                last.symbol,
                code_bits(
                    codes[last.length] + count_of(earlier, last.length as int),
                    last.length as nat,
                ),
            )
        }
    }
}

/// `codes` after every record of `pairs` has taken its code: the number of
/// each length has gone up by the number of records of that length. The entry
/// of length 0 stays as it is.
pub open spec fn advanced_codes(pairs: Seq<SymbolLengthPair>, codes: Map<i32, i32>) -> Map<
    i32,
    i32,
> {
    Map::new(
        |length: i32| codes.contains_key(length),
        |length: i32|
            if length == 0 {
                codes[length]
            } else {
                (codes[length] + count_of(pairs, length as int)) as i32
            },
    )
}

/// `codes` can serve `pairs`: no record has a negative length, and for every
/// record that takes a code, `codes` has a number for its length that is not
/// negative and leaves room for all the records of that length.
pub open spec fn codes_serve(pairs: Seq<SymbolLengthPair>, codes: Map<i32, i32>) -> bool {
    forall|i: int|
        0 <= i < pairs.len() && (#[trigger] pairs[i]).length != 0 ==> {
            &&& 0 < pairs[i].length
            &&& codes.contains_key(pairs[i].length)
            &&& 0 <= codes[pairs[i].length]
            &&& codes[pairs[i].length] + count_of(pairs, pairs[i].length as int) <= i32::MAX
        }
}

/// A table as a map from symbols to codes.
pub open spec fn table_view(table: Map<SymbolType, Bits>) -> Map<SymbolType, Seq<Bit>> {
    Map::new(|symbol: SymbolType| table.contains_key(symbol), |symbol: SymbolType| table[symbol]@)
}

/// The canonical codes of `pairs`.
pub open spec fn canonical_codes(pairs: Seq<SymbolLengthPair>) -> Map<SymbolType, Seq<Bit>> {
    code_table(pairs, first_codes(symbol_counts(pairs)))
}

/// A table can be built for `pairs` with the machine's numbers: there are not
/// too many records to count, no length is negative, and the codes of every
/// length that occurs fit.
pub open spec fn buildable(pairs: Seq<SymbolLengthPair>) -> bool {
    &&& pairs.len() <= i32::MAX
    &&& forall|i: int| 0 <= i < pairs.len() ==> 0 <= (#[trigger] pairs[i]).length
    &&& forall|length: int|
        0 < length && #[trigger] count_of(pairs, length) > 0 ==> base_code(
            symbol_counts(pairs),
            length,
        ) + count_of(pairs, length) <= i32::MAX
}

/// A prefix of the records has no more records of a length than all of them,
/// and fewer where the next record has that length.
pub proof fn lemma_count_of_prefix(pairs: Seq<SymbolLengthPair>, n: int, length: int)
    requires
        0 <= n <= pairs.len(),
    ensures
        count_of(pairs.take(n), length) <= count_of(pairs, length),
        n < pairs.len() && pairs[n].length == length ==> count_of(pairs.take(n), length)
            < count_of(pairs, length),
    decreases pairs.len() - n,
{
    if n == pairs.len() {
        assert(pairs.take(n) =~= pairs);
    } else {
        lemma_count_of_prefix(pairs, n + 1, length);
        assert(pairs.take(n + 1).drop_last() =~= pairs.take(n));
    }
}

/// A length that is counted occurs in a record.
pub proof fn lemma_counted_length_occurs(pairs: Seq<SymbolLengthPair>, length: int) -> (i: int)
    requires
        count_of(pairs, length) > 0,
    ensures
        0 <= i < pairs.len(),
        pairs[i].length == length,
    decreases pairs.len(),
{
    if pairs.last().length == length {
        pairs.len() - 1
    } else {
        lemma_counted_length_occurs(pairs.drop_last(), length)
    }
}

/// Where a table can be built, the counts are well formed, the first codes
/// fit, and the first codes can serve the records.
pub proof fn lemma_buildable(pairs: Seq<SymbolLengthPair>)
    requires
        buildable(pairs),
    ensures
        counts_well_formed(symbol_counts(pairs)),
        base_codes_fit(symbol_counts(pairs)),
        codes_serve(pairs, first_codes(symbol_counts(pairs))),
        forall|length: int|
            count_at(symbol_counts(pairs), length) == if length == 0 {
                0
            } else {
                count_of(pairs, length) as int
            },
{
    let counts = symbol_counts(pairs);
    assert forall|length: i32| #[trigger] counts.contains_key(length) implies 0 <= length && 0
        <= counts[length] && base_code(counts, length as int) <= i32::MAX by {
        lemma_count_of_bounds(pairs, length as int);
        if length != 0 {
            let i = lemma_counted_length_occurs(pairs, length as int);
            assert(0 <= pairs[i].length);
        }
    }
    assert forall|length: int|
        count_at(counts, length) == if length == 0 {
            0
        } else {
            count_of(pairs, length) as int
        } by {
        lemma_count_of_bounds(pairs, length);
        if count_of(pairs, length) > 0 {
            let i = lemma_counted_length_occurs(pairs, length);
        }
    }
    assert forall|i: int| 0 <= i < pairs.len() && (#[trigger] pairs[i]).length != 0 implies {
        &&& 0 < pairs[i].length
        &&& first_codes(counts).contains_key(pairs[i].length)
        &&& 0 <= first_codes(counts)[pairs[i].length]
        &&& first_codes(counts)[pairs[i].length] + count_of(pairs, pairs[i].length as int)
            <= i32::MAX
    } by {
        let length = pairs[i].length;
        lemma_count_of_prefix(pairs, i, length as int);
        lemma_base_code_non_negative(counts, length as int);
    }
}

/// No length is counted more often than there are records.
pub proof fn lemma_count_of_bounds(pairs: Seq<SymbolLengthPair>, length: int)
    ensures
        count_of(pairs, length) <= pairs.len(),
    decreases pairs.len(),
{
    if pairs.len() > 0 {
        lemma_count_of_bounds(pairs.drop_last(), length);
    }
}

/// First codes do not go down as lengths go up, and the first code of a
/// longer length lies behind all codes of a shorter one.
pub proof fn lemma_base_code_monotonic(counts: Map<i32, i32>, shorter: int, longer: int)
    requires
        counts_well_formed(counts),
        shorter <= longer,
    ensures
        0 <= base_code(counts, shorter) <= base_code(counts, longer),
        shorter < longer ==> 2 * (base_code(counts, shorter) + count_at(counts, shorter))
            <= base_code(counts, longer),
    decreases longer - shorter,
{
    lemma_base_code_non_negative(counts, shorter);
    if shorter < longer {
        lemma_base_code_monotonic(counts, shorter, longer - 1);
        lemma_base_code_non_negative(counts, longer - 1);
        if shorter < 0 {
            lemma_base_code_non_negative(counts, longer);
        }
    }
}

/// No first code is negative.
pub proof fn lemma_base_code_non_negative(counts: Map<i32, i32>, length: int)
    requires
        counts_well_formed(counts),
    ensures
        0 <= base_code(counts, length),
    decreases length,
{
    if length > 0 {
        lemma_base_code_non_negative(counts, length - 1);
    }
}

/// Takes the running code from the length `previous` to the length `length`,
/// where no length between the two has symbols: the symbols of `previous` are
/// added and the sum is doubled, then doubled again for each length between.
fn step_code(lengths_counts: &BTreeMap<i32, i32>, code: i32, previous: i32, length: i32) -> (next:
    i32)
    requires
        counts_well_formed(lengths_counts@),
        lengths_counts@.contains_key(previous),
        code == base_code(lengths_counts@, previous as int),
        previous <= length,
        forall|between: int|
            previous < between < length ==> count_at(lengths_counts@, between) == 0,
        base_code(lengths_counts@, length as int) <= i32::MAX,
    ensures
        next == base_code(lengths_counts@, length as int),
{
    let ghost counts = lengths_counts@;
    if previous == length {
        return code;
    }
    proof {
        lemma_base_code_monotonic(counts, previous as int, length as int);
    }
    let count = *lengths_counts.get(&previous).unwrap();
    let mut code = (code + count) * 2;
    let mut walked = previous + 1;
    if code == 0 {
        proof {
            lemma_base_code_of_empty_lengths(counts, walked as int, length as int);
        }
        return 0;
    }
    while walked < length
        invariant
            previous < walked <= length,
            counts_well_formed(counts),
            code == base_code(counts, walked as int),
            base_code(counts, length as int) <= i32::MAX,
            forall|between: int| previous < between < length ==> count_at(counts, between) == 0,
        decreases length - walked,
    {
        proof {
            lemma_base_code_monotonic(counts, walked + 1, length as int);
        }
        code = code * 2;
        walked = walked + 1;
    }
    code
}

impl HuffmanLUT {
    /// Counts the symbols of each code length. Length 0 is entered with the
    /// count 0, whatever the records say.
    pub fn build_lengths_counts(symbol_length_pairs: &Vec<SymbolLengthPair>) -> (counts: BTreeMap<
        i32,
        i32,
    >)
        requires
            symbol_length_pairs@.len() <= i32::MAX,
        ensures
            counts@ == symbol_counts(symbol_length_pairs@),
    {
        let ghost pairs = symbol_length_pairs@;
        let mut lengths_counts: BTreeMap<i32, i32> = BTreeMap::new();

        let mut next: usize = 0;
        while next < symbol_length_pairs.len()
            invariant
                next <= symbol_length_pairs@.len(),
                pairs == symbol_length_pairs@,
                pairs.len() <= i32::MAX,
                lengths_counts@ == tally(pairs.take(next as int)),
            decreases symbol_length_pairs@.len() - next,
        {
            let length = symbol_length_pairs[next].length;
            let count = match lengths_counts.get(&length) {
                Some(count) => *count,
                None => 0,
            };
            proof {
                lemma_count_of_bounds(pairs.take(next as int), length as int);
                assert(pairs.take(next + 1).drop_last() =~= pairs.take(next as int));
                assert forall|other: i32|
                    count_of(pairs.take(next + 1), other as int) == count_of(
                        pairs.take(next as int),
                        other as int,
                    ) + if other == length {
                        1int
                    } else {
                        0int
                    } by {}
            }
            lengths_counts.insert(length, count + 1);
            proof {
                assert(lengths_counts@ =~= tally(pairs.take(next + 1)));
            }
            next = next + 1;
        }
        proof {
            assert(pairs.take(next as int) =~= pairs);
        }

        lengths_counts.insert(0, 0);

        lengths_counts
    }

    /// Computes the first code of each length. The lengths are walked in
    /// ascending order with a running code: at each length from 1 up, the
    /// number of symbols of the length before is added and the sum doubled.
    /// Lengths without an entry have no symbols.
    pub fn build_lengths_codes(lengths_counts: &BTreeMap<i32, i32>) -> (codes: BTreeMap<i32, i32>)
        requires
            counts_well_formed(lengths_counts@),
            base_codes_fit(lengths_counts@),
        ensures
            codes@ == first_codes(lengths_counts@),
    {
        let ghost counts = lengths_counts@;
        let mut lengths_codes: BTreeMap<i32, i32> = BTreeMap::new();
        let mut code: i32 = 0;
        let mut previous: i32 = 0;
        let ghost order = spec_keys_iter(lengths_counts).remaining();
        let ghost mut seen: int = 0;
        proof {
            lemma_keys_ascend(order);
        }

        for length in keys: lengths_counts.keys()
            invariant
                counts == lengths_counts@,
                counts_well_formed(counts),
                base_codes_fit(counts),
                keys.seq() == order,
                keys.index() == seen,
                walk_covers(counts, order),
                counts.contains_key(previous),
                code == base_code(counts, previous as int),
                seen == 0 ==> previous == 0,
                seen > 0 ==> previous == *order[seen - 1],
                codes_so_far(counts, order, seen, lengths_codes@),
        {
            proof {
                lemma_next_length(counts, order, seen, previous);
            }
            code = step_code(lengths_counts, code, previous, *length);
            previous = *length;
            let ghost before = lengths_codes@;
            lengths_codes.insert(*length, code);
            proof {
                lemma_codes_so_far_extends(counts, order, seen, before);
                seen = seen + 1;
            }
        }
        proof {
            lemma_codes_complete(counts, order, lengths_codes@);
        }

        lengths_codes
    }

    /// Hands out the codes. The records are taken in the order given; each
    /// takes the number that `lengths_codes` holds for its length, as that many
    /// binary digits with the most significant first, and leaves the number
    /// one higher for the next record of that length. A record of length 0 is
    /// passed over.
    pub fn build_lookup_table(
        symbol_length_pairs: &Vec<SymbolLengthPair>,
        lengths_codes: &mut BTreeMap<i32, i32>,
    ) -> (lookup_table: BTreeMap<SymbolType, Bits>)
        requires
            codes_serve(symbol_length_pairs@, old(lengths_codes)@),
        ensures
            table_view(lookup_table@) == code_table(symbol_length_pairs@, old(lengths_codes)@),
            final(lengths_codes)@ == advanced_codes(symbol_length_pairs@, old(lengths_codes)@),
    {
        let ghost pairs = symbol_length_pairs@;
        let ghost start = lengths_codes@;
        let mut lookup_table: BTreeMap<SymbolType, Bits> = BTreeMap::new();
        proof {
            assert(table_view(lookup_table@) =~= code_table(pairs.take(0), start));
            assert(lengths_codes@ =~= advanced_codes(pairs.take(0), start));
        }
        let mut next: usize = 0;
        while next < symbol_length_pairs.len()
            invariant
                next <= symbol_length_pairs@.len(),
                pairs == symbol_length_pairs@,
                codes_serve(pairs, start),
                table_view(lookup_table@) == code_table(pairs.take(next as int), start),
                lengths_codes@ == advanced_codes(pairs.take(next as int), start),
            decreases symbol_length_pairs@.len() - next,
        {
            let SymbolLengthPair { symbol, length } = symbol_length_pairs[next];
            let ghost earlier = pairs.take(next as int);
            proof {
                assert(pairs.take(next + 1).drop_last() =~= earlier);
                assert(pairs.take(next + 1).last() == pairs[next as int]);
                assert forall|other: i32|
                    count_of(pairs.take(next + 1), other as int) == count_of(earlier, other as int)
                        + if other == length {
                        1int
                    } else {
                        0int
                    } by {}
            }
            if length != 0 {
                proof {
                    lemma_count_of_prefix(pairs, next as int, length as int);
                }
                let numerical_code = *lengths_codes.get(&length).unwrap();
                let code = render_code(numerical_code, length);
                lookup_table.insert(symbol, code);
                lengths_codes.insert(length, numerical_code + 1);
                proof {
                    assert(table_view(lookup_table@) =~= code_table(pairs.take(next + 1), start));
                }
            }
            proof {
                assert(lengths_codes@ =~= advanced_codes(pairs.take(next + 1), start));
            }
            next = next + 1;
        }
        proof {
            assert(pairs.take(next as int) =~= pairs);
        }

        lookup_table
    }

    /// Builds the canonical code table of `symbol_length_pairs`: counts the
    /// symbols of each length, computes the first code of each length, and
    /// hands out the codes in the order of the records.
    pub fn build_huffman_lut(symbol_length_pairs: Vec<SymbolLengthPair>) -> (lut: HuffmanLUT)
        requires
            buildable(symbol_length_pairs@),
        ensures
            lut.symbol_length_pairs@ == symbol_length_pairs@,
            table_view(lut.lookup_table@) == canonical_codes(symbol_length_pairs@),
    {
        proof {
            lemma_buildable(symbol_length_pairs@);
        }
        let lengths_counts = HuffmanLUT::build_lengths_counts(&symbol_length_pairs);
        let mut lengths_codes = HuffmanLUT::build_lengths_codes(&lengths_counts);
        let lookup_table = HuffmanLUT::build_lookup_table(&symbol_length_pairs, &mut lengths_codes);

        HuffmanLUT { symbol_length_pairs, lookup_table }
    }
}

/// The walk `order` hands out exactly the lengths of `counts`, in ascending
/// order.
pub closed spec fn walk_covers(counts: Map<i32, i32>, order: Seq<&i32>) -> bool {
    &&& order.unref().to_set() == counts.dom()
    &&& forall|i: int, j: int| 0 <= i < j < order.len() ==> *order[i] < *order[j]
}

/// `codes` holds the first code of each of the first `seen` lengths of the
/// walk, and nothing else.
pub closed spec fn codes_so_far(
    counts: Map<i32, i32>,
    order: Seq<&i32>,
    seen: int,
    codes: Map<i32, i32>,
) -> bool {
    &&& 0 <= seen <= order.len()
    &&& forall|visited: int|
        0 <= visited < seen ==> codes.contains_key(*#[trigger] order[visited])
    &&& forall|key: i32| #[trigger]
        codes.contains_key(key) ==> counts.contains_key(key) && codes[key] == base_code(
            counts,
            key as int,
        )
}

proof fn lemma_next_length(counts: Map<i32, i32>, order: Seq<&i32>, seen: int, previous: i32)
    requires
        counts_well_formed(counts),
        walk_covers(counts, order),
        0 <= seen < order.len(),
        seen == 0 ==> previous == 0,
        seen > 0 ==> previous == *order[seen - 1],
    ensures
        previous <= *order[seen],
        counts.contains_key(*order[seen]),
        forall|between: int| previous < between < *order[seen] ==> count_at(counts, between) == 0,
{
    let lengths = order.unref();
    assert(lengths[seen] == *order[seen]);
    assert(lengths.to_set().contains(*order[seen]));
    assert(lengths.to_set().contains(0i32));
    let zero_at = choose|i: int| 0 <= i < lengths.len() && lengths[i] == 0i32;
    assert(*order[zero_at] == 0);
    assert forall|between: int| previous < between < *order[seen] implies count_at(
        counts,
        between,
    ) == 0 by {
        if counts.contains_key(between as i32) {
            assert(lengths.to_set().contains(between as i32));
            let i = choose|i: int| 0 <= i < lengths.len() && lengths[i] == between as i32;
            assert(*order[i] == between);
        }
    }
}

proof fn lemma_codes_so_far_extends(
    counts: Map<i32, i32>,
    order: Seq<&i32>,
    seen: int,
    codes: Map<i32, i32>,
)
    requires
        counts_well_formed(counts),
        base_codes_fit(counts),
        0 <= seen < order.len(),
        codes_so_far(counts, order, seen, codes),
        counts.contains_key(*order[seen]),
    ensures
        codes_so_far(
            counts,
            order,
            seen + 1,
            codes.insert(*order[seen], base_code(counts, *order[seen] as int) as i32),
        ),
{
    lemma_base_code_non_negative(counts, *order[seen] as int);
}

proof fn lemma_codes_complete(counts: Map<i32, i32>, order: Seq<&i32>, codes: Map<i32, i32>)
    requires
        counts_well_formed(counts),
        base_codes_fit(counts),
        walk_covers(counts, order),
        codes_so_far(counts, order, order.len() as int, codes),
    ensures
        codes == first_codes(counts),
{
    let lengths = order.unref();
    assert forall|key: i32| counts.contains_key(key) implies codes.contains_key(key) by {
        assert(lengths.to_set().contains(key));
        let i = choose|i: int| 0 <= i < lengths.len() && lengths[i] == key;
        assert(*order[i] == key);
    }
    assert forall|key: i32| codes.contains_key(key) implies codes[key] == first_codes(counts)[key] by {
        lemma_base_code_non_negative(counts, key as int);
    }
    assert(codes =~= first_codes(counts));
}

/// Where no length from `from` up to `to` has symbols and the first code of
/// `from` is 0, the first code of `to` is 0 too.
proof fn lemma_base_code_of_empty_lengths(counts: Map<i32, i32>, from: int, to: int)
    requires
        from <= to,
        base_code(counts, from) == 0,
        forall|between: int| from <= between < to ==> count_at(counts, between) == 0,
    ensures
        base_code(counts, to) == 0,
    decreases to - from,
{
    if from < to {
        lemma_base_code_of_empty_lengths(counts, from, to - 1);
    }
}

} // verus!
