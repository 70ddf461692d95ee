//! Numeric codes as bit sequences, most significant bit first.
use super::{Bit, Bits};
use std::collections::VecDeque;
use vstd::prelude::*;

verus! {

/// `value` doubled `times` times.
pub open spec fn doubled(value: int, times: nat) -> int
    decreases times,
{
    if times == 0 {
        value
    } else {
        2 * doubled(value, (times - 1) as nat)
    }
}

/// `value` halved `times` times, each time rounding down.
pub open spec fn halved(value: int, times: nat) -> int
    decreases times,
{
    if times == 0 {
        value
    } else {
        halved(value, (times - 1) as nat) / 2
    }
}

/// The lowest binary digit of `value`.
pub open spec fn low_bit(value: int) -> Bit {
    if value % 2 == 1 {
        Bit::One
    } else {
        Bit::Zero
    }
}

/// The lowest `length` binary digits of `value`, most significant first.
pub open spec fn code_bits(value: int, length: nat) -> Seq<Bit>
    decreases length,
{
    if length == 0 {
        Seq::empty()
    } else {
        code_bits(value / 2, (length - 1) as nat).push(low_bit(value))
    }
}

/// `prefix` is what `whole` starts with.
pub open spec fn is_prefix(prefix: Seq<Bit>, whole: Seq<Bit>) -> bool {
    prefix.len() <= whole.len() && whole.take(prefix.len() as int) == prefix
}

/// A code has as many digits as were asked for.
pub proof fn lemma_code_bits_len(value: int, length: nat)
    ensures
        code_bits(value, length).len() == length,
    decreases length,
{
    if length > 0 {
        lemma_code_bits_len(value / 2, (length - 1) as nat);
    }
}

/// Doubling some times and then some more is doubling that many times in all.
pub proof fn lemma_doubled_adds(value: int, first: nat, second: nat)
    ensures
        doubled(doubled(value, first), second) == doubled(value, first + second),
    decreases second,
{
    if second > 0 {
        lemma_doubled_adds(value, first, (second - 1) as nat);
    }
}

/// Halving once and then `times` times is halving `times` times and then once.
pub proof fn lemma_halved_commutes(value: int, times: nat)
    ensures
        halved(value / 2, times) == halved(value, times) / 2,
    decreases times,
{
    if times > 0 {
        lemma_halved_commutes(value, (times - 1) as nat);
    }
}

/// Halving undoes doubling, and keeps bounds that are multiples of the
/// power of two.
pub proof fn lemma_halved_bounds(value: int, low: int, high: int, times: nat)
    requires
        doubled(low, times) <= value < doubled(high, times),
    ensures
        low <= halved(value, times) < high,
    decreases times,
{
    if times > 0 {
        lemma_halved_commutes(value, (times - 1) as nat);
        lemma_halved_bounds(value / 2, low, high, (times - 1) as nat);
    }
}

/// The first `shorter` digits of a code of `longer` digits are the code of
/// the value with the other digits cut off.
pub proof fn lemma_code_bits_prefix(value: int, shorter: nat, longer: nat)
    requires
        shorter <= longer,
    ensures
        code_bits(value, longer).take(shorter as int) == code_bits(
            halved(value, (longer - shorter) as nat),
            shorter,
        ),
    decreases longer,
{
    lemma_code_bits_len(value, longer);
    if shorter == longer {
        assert(code_bits(value, longer).take(shorter as int) =~= code_bits(value, longer));
    } else {
        let rest = code_bits(value / 2, (longer - 1) as nat);
        lemma_code_bits_len(value / 2, (longer - 1) as nat);
        lemma_code_bits_prefix(value / 2, shorter, (longer - 1) as nat);
        lemma_halved_commutes(value, (longer - 1 - shorter) as nat);
        assert(code_bits(value, longer).take(shorter as int) =~= rest.take(shorter as int));
    }
}

/// Two values below two to the `length` with the same digits are the same.
pub proof fn lemma_code_bits_injective(first: int, second: int, length: nat)
    requires
        0 <= first < doubled(1, length),
        0 <= second < doubled(1, length),
        code_bits(first, length) == code_bits(second, length),
    ensures
        first == second,
    decreases length,
{
    if length > 0 {
        let shorter = (length - 1) as nat;
        let left = code_bits(first / 2, shorter);
        let right = code_bits(second / 2, shorter);
        assert(left.push(low_bit(first)).drop_last() =~= left);
        assert(right.push(low_bit(second)).drop_last() =~= right);
        assert(left.push(low_bit(first)).last() == low_bit(first));
        assert(right.push(low_bit(second)).last() == low_bit(second));
        lemma_code_bits_injective(first / 2, second / 2, shorter);
    }
}

/// Renders the lowest `length` binary digits of `code`, most significant
/// first.
pub fn render_code(code: i32, length: i32) -> (bits: Bits)
    requires
        0 <= code,
        0 <= length,
    ensures
        bits@ == code_bits(code as int, length as nat),
{
    let mut bits: Bits = VecDeque::new();
    let mut rest = code;
    let mut done: i32 = 0;
    while done < length
        invariant
            0 <= done <= length,
            0 <= rest,
            code_bits(code as int, length as nat) == code_bits(rest as int, (length - done) as nat)
                + bits@,
        decreases length - done,
    {
        let bit = if rest % 2 == 1 {
            Bit::One
        } else {
            Bit::Zero
        };
        proof {
            let shorter = code_bits(rest as int / 2, (length - done - 1) as nat);
            assert(shorter.push(bit) + bits@ =~= shorter + (seq![bit] + bits@));
        }
        bits.push_front(bit);
        rest = rest / 2;
        done = done + 1;
    }
    bits
}

} // verus!
