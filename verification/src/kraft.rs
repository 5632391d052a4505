//! Kraft sums of code lengths, and why canonical codes are prefix-free.

use crate::bits::{lemma_to_bits_injective, lemma_to_bits_len, lemma_to_bits_take, to_bits};
use crate::canonical::{
    assign_codes, canon_value, canonical_codes, canonical_order, code_lengths,
    lemma_canonical_order_total, LengthEntry,
};
use crate::huffman::{tree_codes, HuffNode, SymbolCode};
use vstd::arithmetic::power2::{lemma_pow2_adds, lemma_pow2_pos, lemma_pow2_unfold, pow2};
use vstd::prelude::*;
use vstd::relations::sorted_by;
use vstd::seq_lib::{to_multiset_build, to_multiset_remove};

verus! {

/// The share of a code of `len` bits in the space of all bit strings of
/// `bound` bits: the number of such strings that begin with the code.
pub open spec fn length_weight(len: nat, bound: nat) -> nat {
    if len <= bound {
        pow2((bound - len) as nat)
    } else {
        0
    }
}

/// The Kraft sum of a list of code lengths, scaled by two to the power of
/// `bound`: the sum of the shares of its codes.
pub open spec fn kraft_sum(entries: Seq<LengthEntry>, bound: nat) -> nat
    decreases entries.len(),
{
    if entries.len() == 0 {
        0
    } else {
        kraft_sum(entries.drop_last(), bound) + length_weight(entries.last().0, bound)
    }
}

/// Whether no code is longer than `bound` bits.
pub open spec fn lengths_within(entries: Seq<LengthEntry>, bound: nat) -> bool {
    forall|i: int| 0 <= i < entries.len() ==> (#[trigger] entries[i]).0 <= bound
}

/// Whether `a` is a prefix of `b`.
pub open spec fn is_prefix(a: Seq<char>, b: Seq<char>) -> bool {
    a.len() <= b.len() && b.take(a.len() as int) == a
}

/// Whether no code of the list is a prefix of a code at another place.
pub open spec fn prefix_free(codes: Seq<SymbolCode>) -> bool {
    forall|i: int, j: int|
        0 <= i < codes.len() && 0 <= j < codes.len() && i != j ==> !is_prefix(
            (#[trigger] codes[i]).1,
            (#[trigger] codes[j]).1,
        )
}

/// The Kraft sum of two lists together is the sum of their Kraft sums.
pub proof fn lemma_kraft_concat(a: Seq<LengthEntry>, b: Seq<LengthEntry>, bound: nat)
    ensures
        kraft_sum(a + b, bound) == kraft_sum(a, bound) + kraft_sum(b, bound),
    decreases b.len(),
{
    if b.len() == 0 {
        assert(a + b =~= a);
    } else {
        lemma_kraft_concat(a, b.drop_last(), bound);
        assert((a + b).drop_last() =~= a + b.drop_last());
        assert((a + b).last() == b.last());
    }
}

/// An entry taken out of a list takes its share out of the Kraft sum.
pub proof fn lemma_kraft_remove(entries: Seq<LengthEntry>, at: int, bound: nat)
    requires
        0 <= at < entries.len(),
    ensures
        kraft_sum(entries, bound) == kraft_sum(entries.remove(at), bound) + length_weight(
            entries[at].0,
            bound,
        ),
    decreases entries.len(),
{
    if at == entries.len() - 1 {
        assert(entries.remove(at) =~= entries.drop_last());
    } else {
        lemma_kraft_remove(entries.drop_last(), at, bound);
        assert(entries.remove(at).drop_last() =~= entries.drop_last().remove(at));
        assert(entries.remove(at).last() == entries.last());
    }
}

/// The Kraft sum does not depend on the order of the entries.
pub proof fn lemma_kraft_permutation(a: Seq<LengthEntry>, b: Seq<LengthEntry>, bound: nat)
    requires
        a.to_multiset() == b.to_multiset(),
    ensures
        kraft_sum(a, bound) == kraft_sum(b, bound),
        lengths_within(a, bound) ==> lengths_within(b, bound),
    decreases a.len(),
{
    broadcast use vstd::seq_lib::group_to_multiset_ensures;

    if a.len() == 0 {
        assert(b.len() == b.to_multiset().len());
        assert(b.len() == 0);
    } else {
        let last = a.last();
        let front = a.drop_last();
        assert(a =~= front.push(last));
        to_multiset_build(front, last);
        assert(a.to_multiset().count(last) > 0);
        assert(b.contains(last));
        let at = choose|at: int| 0 <= at < b.len() && b[at] == last;
        to_multiset_remove(b, at);
        assert(front.to_multiset() =~= b.remove(at).to_multiset());
        lemma_kraft_permutation(front, b.remove(at), bound);
        lemma_kraft_remove(b, at, bound);
        if lengths_within(a, bound) {
            assert forall|i: int| 0 <= i < b.len() implies (#[trigger] b[i]).0 <= bound by {
                if i < at {
                    assert(b.remove(at)[i] == b[i]);
                } else if i > at {
                    assert(b.remove(at)[i - 1] == b[i]);
                } else {
                    assert(a[a.len() - 1].0 <= bound);
                }
            }
            assert forall|i: int| 0 <= i < front.len() implies (#[trigger] front[i]).0 <= bound by {
                assert(a[i].0 <= bound);
            }
        }
    }
}

/// The Kraft sum of the first entries of a list grows with their number.
pub proof fn lemma_kraft_take(entries: Seq<LengthEntry>, i: int, j: int, bound: nat)
    requires
        0 <= i <= j <= entries.len(),
    ensures
        kraft_sum(entries.take(i), bound) <= kraft_sum(entries.take(j), bound),
    decreases j - i,
{
    if i < j {
        lemma_kraft_take(entries, i, j - 1, bound);
        assert(entries.take(j).drop_last() =~= entries.take(j - 1));
    }
}

/// Kraft equality for a prefix tree: the codes of the leaves below a node
/// share out, without rest, the bit strings that begin with the way to the
/// node. It holds for every node that is reached by at least one step and
/// for every inner node.
pub proof fn lemma_tree_kraft(node: HuffNode, prefix: Seq<char>, bound: nat)
    requires
        prefix.len() + node.height() <= bound,
        node is Internal || prefix.len() > 0,
    ensures
        kraft_sum(code_lengths(tree_codes(node, prefix)), bound) == pow2(
            (bound - prefix.len()) as nat,
        ),
        lengths_within(code_lengths(tree_codes(node, prefix)), bound),
    decreases node,
{
    match node {
        HuffNode::Leaf { character, .. } => {
            let codes = code_lengths(tree_codes(node, prefix));
            assert(codes.drop_last() =~= Seq::<LengthEntry>::empty());
            assert(kraft_sum(codes.drop_last(), bound) == 0);
        },
        HuffNode::Internal { left, right, .. } => {
            let left_codes = tree_codes(*left, prefix.push('0'));
            let right_codes = tree_codes(*right, prefix.push('1'));
            lemma_tree_kraft(*left, prefix.push('0'), bound);
            lemma_tree_kraft(*right, prefix.push('1'), bound);
            assert(code_lengths(left_codes + right_codes) =~= code_lengths(left_codes)
                + code_lengths(right_codes));
            lemma_kraft_concat(code_lengths(left_codes), code_lengths(right_codes), bound);
            lemma_pow2_unfold((bound - prefix.len()) as nat);
        },
    }
}

/// Every code of the leaves below a node begins with the way to the node.
pub proof fn lemma_tree_codes_begin(node: HuffNode, prefix: Seq<char>)
    ensures
        forall|i: int|
            0 <= i < tree_codes(node, prefix).len() ==> is_prefix(
                prefix,
                (#[trigger] tree_codes(node, prefix)[i]).1,
            ),
    decreases node,
{
    let codes = tree_codes(node, prefix);
    match node {
        HuffNode::Leaf { .. } => {
            assert(codes[0].1.take(prefix.len() as int) =~= prefix);
        },
        HuffNode::Internal { left, right, .. } => {
            let left_codes = tree_codes(*left, prefix.push('0'));
            let right_codes = tree_codes(*right, prefix.push('1'));
            lemma_tree_codes_begin(*left, prefix.push('0'));
            lemma_tree_codes_begin(*right, prefix.push('1'));
            assert forall|i: int| 0 <= i < codes.len() implies is_prefix(
                prefix,
                (#[trigger] codes[i]).1,
            ) by {
                let longer = if i < left_codes.len() {
                    assert(codes[i] == left_codes[i]);
                    prefix.push('0')
                } else {
                    assert(codes[i] == right_codes[i - left_codes.len()]);
                    prefix.push('1')
                };
                assert(is_prefix(longer, codes[i].1));
                assert(codes[i].1.take(prefix.len() as int) =~= codes[i].1.take(
                    longer.len() as int,
                ).take(prefix.len() as int));
                assert(longer.take(prefix.len() as int) =~= prefix);
            }
        },
    }
}

/// The codes of the leaves of a tree are prefix-free: no code is a prefix
/// of the code of another leaf.
pub proof fn lemma_tree_codes_prefix_free(node: HuffNode, prefix: Seq<char>)
    ensures
        prefix_free(tree_codes(node, prefix)),
    decreases node,
{
    let codes = tree_codes(node, prefix);
    match node {
        HuffNode::Leaf { .. } => {},
        HuffNode::Internal { left, right, .. } => {
            let left_codes = tree_codes(*left, prefix.push('0'));
            let right_codes = tree_codes(*right, prefix.push('1'));
            lemma_tree_codes_prefix_free(*left, prefix.push('0'));
            lemma_tree_codes_prefix_free(*right, prefix.push('1'));
            lemma_tree_codes_begin(*left, prefix.push('0'));
            lemma_tree_codes_begin(*right, prefix.push('1'));
            let at = prefix.len() as int;
            assert forall|i: int, j: int|
                0 <= i < codes.len() && 0 <= j < codes.len() && i != j implies !is_prefix(
                (#[trigger] codes[i]).1,
                (#[trigger] codes[j]).1,
            ) by {
                let split = left_codes.len() as int;
                if i < split && j < split {
                    assert(codes[i] == left_codes[i]);
                    assert(codes[j] == left_codes[j]);
                } else if i >= split && j >= split {
                    assert(codes[i] == right_codes[i - split]);
                    assert(codes[j] == right_codes[j - split]);
                } else {
                    let (in_left, in_right) = if i < split {
                        (i, j)
                    } else {
                        (j, i)
                    };
                    assert(codes[in_left] == left_codes[in_left]);
                    assert(codes[in_right] == right_codes[in_right - split]);
                    let a = codes[in_left].1;
                    let b = codes[in_right].1;
                    assert(a.take(at + 1)[at] == prefix.push('0')[at]);
                    assert(b.take(at + 1)[at] == prefix.push('1')[at]);
                    assert(a[at] == '0' && b[at] == '1');
                    if is_prefix(codes[i].1, codes[j].1) {
                        assert(codes[j].1.take(codes[i].1.len() as int)[at] == codes[i].1[at]);
                    }
                }
            }
        },
    }
}

/// The one leaf of a tree without inner nodes takes half of the space.
pub proof fn lemma_single_leaf_kraft(node: HuffNode, bound: nat)
    requires
        node is Leaf,
        bound >= 1,
    ensures
        kraft_sum(code_lengths(tree_codes(node, Seq::empty())), bound) == pow2(
            (bound - 1) as nat,
        ),
        lengths_within(code_lengths(tree_codes(node, Seq::empty())), bound),
{
    let codes = code_lengths(tree_codes(node, Seq::empty()));
    assert(codes.drop_last() =~= Seq::<LengthEntry>::empty());
    assert(kraft_sum(codes.drop_last(), bound) == 0);
}

/// The number of a canonical code, counted in bit strings of `bound` bits,
/// is the Kraft sum of the codes before it.
pub proof fn lemma_canon_value_kraft(sorted: Seq<LengthEntry>, i: int, bound: nat)
    requires
        sorted_by(sorted, canonical_order()),
        lengths_within(sorted, bound),
        0 <= i < sorted.len(),
    ensures
        canon_value(sorted, i) * pow2((bound - sorted[i].0) as nat) == kraft_sum(
            sorted.take(i),
            bound,
        ),
    decreases i,
{
    reveal(canon_value);
    if i == 0 {
        assert(sorted.take(0) =~= Seq::<LengthEntry>::empty());
        assert(0 * pow2((bound - sorted[0].0) as nat) == 0);
    } else {
        lemma_canon_value_kraft(sorted, i - 1, bound);
        assert(canonical_order()(sorted[i - 1], sorted[i]));
        let before = canon_value(sorted, i - 1);
        let gap = (sorted[i].0 - sorted[i - 1].0) as nat;
        let room = (bound - sorted[i].0) as nat;
        let room_before = (bound - sorted[i - 1].0) as nat;
        lemma_pow2_adds(gap, room);
        assert(sorted.take(i).drop_last() =~= sorted.take(i - 1));
        assert(sorted.take(i).last() == sorted[i - 1]);
        assert(((before + 1) * pow2(gap)) * pow2(room) == before * pow2(room_before) + pow2(
            room_before,
        )) by (nonlinear_arith)
            requires
                pow2(gap) * pow2(room) == pow2(room_before),
        ;
    }
}

/// Under the Kraft inequality every canonical code fits its length.
pub proof fn lemma_canon_value_fits(sorted: Seq<LengthEntry>, i: int, bound: nat)
    requires
        sorted_by(sorted, canonical_order()),
        lengths_within(sorted, bound),
        kraft_sum(sorted, bound) <= pow2(bound),
        0 <= i < sorted.len(),
    ensures
        canon_value(sorted, i) < pow2(sorted[i].0),
{
    lemma_canon_value_kraft(sorted, i, bound);
    lemma_kraft_take(sorted, i + 1, sorted.len() as int, bound);
    assert(sorted.take(sorted.len() as int) =~= sorted);
    assert(sorted.take(i + 1).drop_last() =~= sorted.take(i));
    assert(sorted.take(i + 1).last() == sorted[i]);
    let value = canon_value(sorted, i);
    let len = sorted[i].0;
    let room = (bound - len) as nat;
    lemma_pow2_adds(len, room);
    lemma_pow2_pos(room);
    assert(value < pow2(len)) by (nonlinear_arith)
        requires
            value * pow2(room) + pow2(room) <= pow2(len) * pow2(room),
            pow2(room) > 0,
    ;
}

/// A later canonical code, cut to the length of an earlier one, is a
/// larger number than the earlier code.
pub proof fn lemma_canon_value_gap(sorted: Seq<LengthEntry>, j: int, i: int, bound: nat)
    requires
        sorted_by(sorted, canonical_order()),
        lengths_within(sorted, bound),
        0 <= j < i < sorted.len(),
    ensures
        sorted[j].0 <= sorted[i].0,
        canon_value(sorted, i) / pow2((sorted[i].0 - sorted[j].0) as nat) > canon_value(sorted, j),
{
    assert(canonical_order()(sorted[j], sorted[i]));
    lemma_canon_value_kraft(sorted, i, bound);
    lemma_canon_value_kraft(sorted, j, bound);
    lemma_kraft_take(sorted, j + 1, i, bound);
    assert(sorted.take(j + 1).drop_last() =~= sorted.take(j));
    assert(sorted.take(j + 1).last() == sorted[j]);
    let later = canon_value(sorted, i);
    let earlier = canon_value(sorted, j);
    let gap = (sorted[i].0 - sorted[j].0) as nat;
    let room = (bound - sorted[i].0) as nat;
    let room_earlier = (bound - sorted[j].0) as nat;
    lemma_pow2_adds(gap, room);
    lemma_pow2_pos(room);
    lemma_pow2_pos(gap);
    assert(later >= (earlier + 1) * pow2(gap)) by (nonlinear_arith)
        requires
            later * pow2(room) >= earlier * pow2(room_earlier) + pow2(room_earlier),
            pow2(gap) * pow2(room) == pow2(room_earlier),
            pow2(room) > 0,
    ;
    let least = (earlier + 1) * pow2(gap);
    vstd::arithmetic::div_mod::lemma_div_is_ordered(least as int, later as int, pow2(gap) as int);
    vstd::arithmetic::div_mod::lemma_div_by_multiple((earlier + 1) as int, pow2(gap) as int);
    assert(least as int / pow2(gap) as int == earlier + 1);
}

/// Canonical codes given out under the Kraft inequality are prefix-free.
pub proof fn lemma_assigned_prefix_free(sorted: Seq<LengthEntry>, bound: nat)
    requires
        sorted_by(sorted, canonical_order()),
        lengths_within(sorted, bound),
        kraft_sum(sorted, bound) <= pow2(bound),
    ensures
        prefix_free(assign_codes(sorted)),
{
    let codes = assign_codes(sorted);
    assert forall|i: int, j: int|
        0 <= i < codes.len() && 0 <= j < codes.len() && i != j implies !is_prefix(
        (#[trigger] codes[i]).1,
        (#[trigger] codes[j]).1,
    ) by {
        let low = if i < j { i } else { j };
        let high = if i < j { j } else { i };
        let short = sorted[low].0;
        let long = sorted[high].0;
        lemma_canon_value_gap(sorted, low, high, bound);
        lemma_canon_value_fits(sorted, low, bound);
        lemma_canon_value_fits(sorted, high, bound);
        lemma_to_bits_len(canon_value(sorted, low), short);
        lemma_to_bits_len(canon_value(sorted, high), long);
        if is_prefix(codes[i].1, codes[j].1) {
            // The prefix is the shorter code, so it is the one at `low`.
            assert(codes[i].1.len() <= codes[j].1.len());
            assert(sorted[i].0 == short);
            let gap = (long - short) as nat;
            let cut = canon_value(sorted, high) / pow2(gap);
            lemma_to_bits_take(canon_value(sorted, high), long, short);
            assert(to_bits(cut, short) == to_bits(canon_value(sorted, low), short)) by {
                if i < j {
                    assert(codes[j].1.take(short as int) == codes[i].1);
                } else {
                    // Both codes have the same length: the prefix is the whole code.
                    assert(long == short);
                    assert(codes[j].1.take(short as int) =~= codes[j].1);
                    assert(pow2(0) == 1) by {
                        vstd::arithmetic::power2::lemma2_to64();
                    }
                }
            }
            lemma_pow2_adds(short, gap);
            lemma_pow2_pos(gap);
            let whole = pow2(short) * pow2(gap);
            assert(whole == pow2(long));
            vstd::arithmetic::div_mod::lemma_div_by_multiple_is_strongly_ordered(
                canon_value(sorted, high) as int,
                whole as int,
                pow2(short) as int,
                pow2(gap) as int,
            );
            vstd::arithmetic::div_mod::lemma_div_by_multiple(pow2(short) as int, pow2(gap) as int);
            assert(cut < pow2(short));
            lemma_to_bits_injective(cut, canon_value(sorted, low), short);
            assert(false);
        }
    }
}

/// Canonical codes are prefix-free wherever the lengths of the base codes
/// obey the Kraft inequality: no canonical code is a prefix of the
/// canonical code of another entry.
pub proof fn lemma_canonical_prefix_free(base: Seq<SymbolCode>, bound: nat)
    requires
        lengths_within(code_lengths(base), bound),
        kraft_sum(code_lengths(base), bound) <= pow2(bound),
    ensures
        prefix_free(canonical_codes(base)),
{
    let lengths = code_lengths(base);
    let sorted = lengths.sort_by(canonical_order());
    lemma_canonical_order_total();
    lengths.lemma_sort_by_ensures(canonical_order());
    lemma_kraft_permutation(lengths, sorted, bound);
    lemma_assigned_prefix_free(sorted, bound);
}

/// Canonical codes keep the Kraft sum of the base codes: each symbol's
/// canonical code is as long as its base code.
pub proof fn lemma_canonical_kraft(base: Seq<SymbolCode>, bound: nat)
    ensures
        kraft_sum(code_lengths(canonical_codes(base)), bound) == kraft_sum(
            code_lengths(base),
            bound,
        ),
        code_lengths(canonical_codes(base)) == code_lengths(base).sort_by(canonical_order()),
{
    let lengths = code_lengths(base);
    let sorted = lengths.sort_by(canonical_order());
    lemma_canonical_order_total();
    lengths.lemma_sort_by_ensures(canonical_order());
    lemma_kraft_permutation(lengths, sorted, bound);
    assert(code_lengths(assign_codes(sorted)) =~= sorted) by {
        assert forall|i: int| 0 <= i < sorted.len() implies code_lengths(assign_codes(sorted))[i]
            == sorted[i] by {
            lemma_to_bits_len(canon_value(sorted, i), sorted[i].0);
        }
    }
}

/// Kraft equality for the canonical codes of a tree with at least two
/// leaves: the shares of the codes add up to the whole space.
pub proof fn lemma_canonical_kraft_equality(root: HuffNode, bound: nat)
    requires
        root is Internal,
        root.height() <= bound,
    ensures
        kraft_sum(code_lengths(canonical_codes(tree_codes(root, Seq::empty()))), bound) == pow2(
            bound,
        ),
{
    lemma_tree_kraft(root, Seq::empty(), bound);
    lemma_canonical_kraft(tree_codes(root, Seq::empty()), bound);
}

} // verus!
