//! Numbers as strings of bits: the arithmetic behind canonical codes.

use vstd::arithmetic::power2::{lemma_pow2_pos, lemma_pow2_unfold, pow2};
use vstd::prelude::*;

verus! {

/// The character for the lowest bit of `value`.
pub open spec fn low_bit(value: nat) -> char {
    if value % 2 == 1 {
        '1'
    } else {
        '0'
    }
}

/// The lowest `width` bits of `value` as a string of `'0'` and `'1'`, the
/// most significant of them first.
pub open spec fn to_bits(value: nat, width: nat) -> Seq<char>
    decreases width,
{
    if width == 0 {
        Seq::empty()
    } else {
        to_bits(value / 2, (width - 1) as nat).push(low_bit(value))
    }
}

/// The bit string that stands for the next number at the same width. The
/// string of ones is followed by the string of zeros.
pub open spec fn bits_succ(bits: Seq<char>) -> Seq<char>
    decreases bits.len(),
{
    if bits.len() == 0 {
        bits
    } else if bits.last() == '1' {
        bits_succ(bits.drop_last()).push('0')
    } else {
        bits.drop_last().push('1')
    }
}

/// A run of `n` zero bits.
pub open spec fn zero_bits(n: nat) -> Seq<char> {
    Seq::new(n, |i: int| '0')
}

/// The next bit string is as long as the one before.
pub proof fn lemma_bits_succ_len(bits: Seq<char>)
    ensures
        bits_succ(bits).len() == bits.len(),
    decreases bits.len(),
{
    if bits.len() > 0 && bits.last() == '1' {
        lemma_bits_succ_len(bits.drop_last());
    }
}

/// A bit string is as long as its width, and holds bits only.
pub proof fn lemma_to_bits_len(value: nat, width: nat)
    ensures
        to_bits(value, width).len() == width,
        forall|i: int|
            0 <= i < width ==> to_bits(value, width)[i] == '0' || to_bits(value, width)[i] == '1',
    decreases width,
{
    if width > 0 {
        lemma_to_bits_len(value / 2, (width - 1) as nat);
    }
}

/// Counting up by one is taking the next bit string.
pub proof fn lemma_to_bits_succ(value: nat, width: nat)
    ensures
        to_bits(value + 1, width) == bits_succ(to_bits(value, width)),
    decreases width,
{
    if width > 0 {
        let rest = (width - 1) as nat;
        lemma_to_bits_len(value / 2, rest);
        assert(to_bits(value, width).drop_last() =~= to_bits(value / 2, rest));
        if value % 2 == 1 {
            assert((value + 1) / 2 == value / 2 + 1);
            lemma_to_bits_succ(value / 2, rest);
        } else {
            assert((value + 1) / 2 == value / 2);
        }
    }
}

/// Shifting to the left by `shift` places appends that many zero bits.
pub proof fn lemma_to_bits_shift(value: nat, width: nat, shift: nat)
    ensures
        to_bits(value * pow2(shift), width + shift) == to_bits(value, width) + zero_bits(shift),
    decreases shift,
{
    if shift == 0 {
        assert(pow2(0) == 1) by {
            vstd::arithmetic::power2::lemma2_to64();
        }
        assert(value * pow2(0) == value);
        assert(to_bits(value, width) + zero_bits(0) =~= to_bits(value, width));
    } else {
        let less = (shift - 1) as nat;
        lemma_pow2_unfold(shift);
        lemma_pow2_pos(less);
        let shifted = value * pow2(shift);
        assert(shifted == 2 * (value * pow2(less))) by (nonlinear_arith)
            requires
                shifted == value * pow2(shift),
                pow2(shift) == 2 * pow2(less),
        ;
        assert(shifted / 2 == value * pow2(less));
        assert(shifted % 2 == 0);
        lemma_to_bits_shift(value, width, less);
        assert(to_bits(value, width) + zero_bits(shift) =~= (to_bits(value, width) + zero_bits(
            less,
        )).push('0'));
    }
}

/// The first `k` bits of a number at width `width` are the bits of the
/// number shifted to the right by the places that are left out.
pub proof fn lemma_to_bits_take(value: nat, width: nat, k: nat)
    requires
        k <= width,
    ensures
        to_bits(value, width).take(k as int) == to_bits(
            value / pow2((width - k) as nat),
            k,
        ),
    decreases width - k,
{
    lemma_to_bits_len(value, width);
    if k == width {
        assert(pow2(0) == 1) by {
            vstd::arithmetic::power2::lemma2_to64();
        }
        assert(to_bits(value, width).take(k as int) =~= to_bits(value, width));
    } else {
        let rest = (width - 1) as nat;
        let gap = (rest - k) as nat;
        lemma_to_bits_len(value / 2, rest);
        assert(to_bits(value, width).take(k as int) =~= to_bits(value / 2, rest).take(k as int));
        lemma_to_bits_take(value / 2, rest, k);
        lemma_pow2_unfold((width - k) as nat);
        lemma_pow2_pos(gap);
        vstd::arithmetic::div_mod::lemma_div_denominator(value as int, 2, pow2(gap) as int);
        assert((value / 2) / pow2(gap) == value / pow2((width - k) as nat));
    }
}

/// Numbers that fit a width and have the same bits at that width are the
/// same number.
pub proof fn lemma_to_bits_injective(a: nat, b: nat, width: nat)
    requires
        a < pow2(width),
        b < pow2(width),
        to_bits(a, width) == to_bits(b, width),
    ensures
        a == b,
    decreases width,
{
    if width == 0 {
        assert(pow2(0) == 1) by {
            vstd::arithmetic::power2::lemma2_to64();
        }
    } else {
        let rest = (width - 1) as nat;
        lemma_pow2_unfold(width);
        let bits_a = to_bits(a / 2, rest).push(low_bit(a));
        let bits_b = to_bits(b / 2, rest).push(low_bit(b));
        assert(bits_a.drop_last() =~= to_bits(a / 2, rest));
        assert(bits_b.drop_last() =~= to_bits(b / 2, rest));
        assert(bits_a.last() == low_bit(a));
        assert(bits_b.last() == low_bit(b));
        lemma_to_bits_injective(a / 2, b / 2, rest);
    }
}

/// The next bit string at the same width, written over `bits`.
pub fn increment_bits(bits: &mut Vec<char>)
    ensures
        final(bits)@ == bits_succ(old(bits)@),
{
    let ghost start = bits@;
    let mut i: usize = bits.len();
    proof {
        assert(start.take(i as int) =~= start);
        assert(bits_succ(start) + zero_bits(0) =~= bits_succ(start));
        assert(start + zero_bits(0) =~= start);
    }
    while i > 0 && bits[i - 1] == '1'
        invariant
            i <= start.len(),
            bits@.len() == start.len(),
            bits@ == start.take(i as int) + zero_bits((start.len() - i) as nat),
            bits_succ(start) == bits_succ(start.take(i as int)) + zero_bits((start.len() - i) as nat),
        decreases i,
    {
        let ghost head = start.take(i as int);
        assert(head.last() == '1');
        assert(head.drop_last() =~= start.take(i - 1));
        bits.set(i - 1, '0');
        i = i - 1;
        assert(bits@ =~= start.take(i as int) + zero_bits((start.len() - i) as nat));
        assert(bits_succ(head) + zero_bits((start.len() - i - 1) as nat) =~= bits_succ(
            start.take(i as int),
        ) + zero_bits((start.len() - i) as nat));
    }
    if i > 0 {
        let ghost head = start.take(i as int);
        assert(head.last() != '1');
        assert(head.drop_last() =~= start.take(i - 1));
        bits.set(i - 1, '1');
        assert(bits@ =~= bits_succ(head) + zero_bits((start.len() - i) as nat));
    } else {
        assert(start.take(0) =~= Seq::<char>::empty());
        assert(bits@ =~= bits_succ(start.take(0)) + zero_bits(start.len()));
    }
}

/// Appends zero bits to `bits` until it is `width` long.
pub fn pad_zero_bits(bits: &mut Vec<char>, width: usize)
    ensures
        old(bits)@.len() <= width ==> final(bits)@ == old(bits)@ + zero_bits(
            (width - old(bits)@.len()) as nat,
        ),
        old(bits)@.len() > width ==> final(bits)@ == old(bits)@,
{
    let ghost start = bits@;
    assert(start + zero_bits(0) =~= start);
    while bits.len() < width
        invariant
            start.len() <= bits@.len(),
            bits@.len() <= width || bits@.len() == start.len(),
            bits@ == start + zero_bits((bits@.len() - start.len()) as nat),
        decreases width - bits@.len(),
    {
        let ghost before = bits@;
        bits.push('0');
        assert(bits@ =~= start + zero_bits((before.len() + 1 - start.len()) as nat));
    }
    assert(start.len() > width ==> bits@ =~= start);
}

/// The characters of `bits` as a string.
pub fn string_of_chars(bits: &Vec<char>) -> (text: String)
    ensures
        text@ == bits@,
{
    let mut text = String::new();
    let mut i: usize = 0;
    while i < bits.len()
        invariant
            i <= bits@.len(),
            text@ == bits@.take(i as int),
        decreases bits@.len() - i,
    {
        text.push(bits[i]);
        assert(text@ =~= bits@.take(i + 1));
        i = i + 1;
    }
    assert(bits@.take(i as int) =~= bits@);
    text
}

} // verus!
