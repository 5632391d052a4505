//! What holds of the prefix tree that is built from a frequency table: it
//! has one leaf for each symbol, it weighs what the table weighs, and it
//! stays low.

use crate::huffman::{
    enqueue, huffman_tree, leaf_for, leaf_queue, lemma_enqueue_sorted, lemma_queue_rank_bounds,
    lemma_queue_weight_first, lemma_queue_weight_nonnegative, merge_queue, merged_front,
    queue_rank, queue_sorted, queue_weight, total_weight, tree_codes, HuffNode, SymbolCode,
};
use crate::symbol_map::{entry_count, lemma_entry_count_concat};
use vstd::arithmetic::power2::pow2;
use vstd::prelude::*;

verus! {

/// The number of leaves for `symbol` in the trees of a queue.
pub open spec fn queue_leaf_count(queue: Seq<HuffNode>, symbol: char) -> nat
    decreases queue.len(),
{
    if queue.len() == 0 {
        0
    } else {
        queue_leaf_count(queue.drop_last(), symbol) + queue.last().leaf_count(symbol)
    }
}

/// The number of leaves in the trees of a queue.
pub open spec fn queue_leaf_total(queue: Seq<HuffNode>) -> nat
    decreases queue.len(),
{
    if queue.len() == 0 {
        0
    } else {
        queue_leaf_total(queue.drop_last()) + queue.last().leaf_total()
    }
}

/// Whether every tree of a queue is well formed.
pub open spec fn queue_wf(queue: Seq<HuffNode>) -> bool {
    forall|i: int| 0 <= i < queue.len() ==> (#[trigger] queue[i]).wf()
}

/// A tree put into a queue adds its leaves to the queue's.
pub proof fn lemma_queue_leaves_insert(queue: Seq<HuffNode>, at: int, node: HuffNode, symbol: char)
    requires
        0 <= at <= queue.len(),
    ensures
        queue_leaf_count(queue.insert(at, node), symbol) == queue_leaf_count(queue, symbol)
            + node.leaf_count(symbol),
        queue_leaf_total(queue.insert(at, node)) == queue_leaf_total(queue) + node.leaf_total(),
    decreases queue.len(),
{
    let after = queue.insert(at, node);
    if at == queue.len() {
        assert(after.drop_last() =~= queue);
    } else {
        assert(after.drop_last() =~= queue.drop_last().insert(at, node));
        assert(after.last() == queue.last());
        lemma_queue_leaves_insert(queue.drop_last(), at, node, symbol);
    }
}

/// The first tree of a queue holds its leaves apart from the rest.
pub proof fn lemma_queue_leaves_first(queue: Seq<HuffNode>, symbol: char)
    requires
        queue.len() > 0,
    ensures
        queue_leaf_count(queue, symbol) == queue[0].leaf_count(symbol) + queue_leaf_count(
            queue.skip(1),
            symbol,
        ),
        queue_leaf_total(queue) == queue[0].leaf_total() + queue_leaf_total(queue.skip(1)),
    decreases queue.len(),
{
    if queue.len() == 1 {
        assert(queue.drop_last() =~= queue.skip(1));
        assert(queue_leaf_count(queue.drop_last(), symbol) == 0);
        assert(queue_leaf_total(queue.drop_last()) == 0);
    } else {
        lemma_queue_leaves_first(queue.drop_last(), symbol);
        assert(queue.drop_last().skip(1) =~= queue.skip(1).drop_last());
        assert(queue.skip(1).last() == queue.last());
    }
}

/// Joining the lightest trees of a queue until one is left keeps every
/// leaf, keeps the weight, and keeps the trees well formed.
pub proof fn lemma_merge_queue(queue: Seq<HuffNode>, symbol: char)
    requires
        queue_sorted(queue),
        queue_wf(queue),
        queue_weight(queue) <= u64::MAX,
    ensures
        merge_queue(queue).len() == if queue.len() == 0 {
            0nat
        } else {
            1nat
        },
        queue_wf(merge_queue(queue)),
        queue_weight(merge_queue(queue)) == queue_weight(queue),
        queue_leaf_count(merge_queue(queue), symbol) == queue_leaf_count(queue, symbol),
        queue_leaf_total(merge_queue(queue)) == queue_leaf_total(queue),
    decreases queue.len(),
{
    if queue.len() >= 2 {
        let rest = queue.skip(2);
        let merged = merged_front(queue);
        let next = enqueue(rest, merged);
        lemma_queue_weight_first(queue);
        lemma_queue_weight_first(queue.skip(1));
        lemma_queue_leaves_first(queue, symbol);
        lemma_queue_leaves_first(queue.skip(1), symbol);
        assert(queue.skip(1).skip(1) =~= rest);
        lemma_queue_weight_nonnegative(rest);
        assert(queue_sorted(rest)) by {
            assert forall|i: int, j: int| 0 <= i < j < rest.len() implies (
            #[trigger] rest[i]).weight_of() <= (#[trigger] rest[j]).weight_of() by {
                assert(rest[i] == queue[i + 2]);
                assert(rest[j] == queue[j + 2]);
            }
        }
        lemma_enqueue_sorted(rest, merged);
        let at = queue_rank(rest, merged.weight_of());
        lemma_queue_rank_bounds(rest, merged.weight_of());
        lemma_queue_leaves_insert(rest, at, merged, symbol);
        assert(merged.wf());
        assert(queue_wf(next)) by {
            assert forall|i: int| 0 <= i < next.len() implies (#[trigger] next[i]).wf() by {
                if i < at {
                    assert(next[i] == queue[i + 2]);
                } else if i > at {
                    assert(next[i] == queue[i + 1]);
                }
            }
        }
        lemma_merge_queue(next, symbol);
    }
}

/// The queue of leaves holds one leaf for each entry of the table.
pub proof fn lemma_leaf_queue(table: Seq<(char, u64)>, symbol: char)
    ensures
        leaf_queue(table).len() == table.len(),
        queue_sorted(leaf_queue(table)),
        queue_wf(leaf_queue(table)),
        queue_weight(leaf_queue(table)) == total_weight(table),
        queue_leaf_count(leaf_queue(table), symbol) == entry_count(table, symbol),
        queue_leaf_total(leaf_queue(table)) == table.len(),
    decreases table.len(),
{
    if table.len() > 0 {
        let front = leaf_queue(table.drop_last());
        let leaf = leaf_for(table.last());
        lemma_leaf_queue(table.drop_last(), symbol);
        lemma_enqueue_sorted(front, leaf);
        let at = queue_rank(front, leaf.weight_of());
        lemma_queue_rank_bounds(front, leaf.weight_of());
        lemma_queue_leaves_insert(front, at, leaf, symbol);
        let queue = leaf_queue(table);
        assert(queue == front.insert(at, leaf));
        assert forall|i: int| 0 <= i < queue.len() implies (#[trigger] queue[i]).wf() by {
            if i < at {
                assert(queue[i] == front[i]);
            } else if i > at {
                assert(queue[i] == front[i - 1]);
            }
        }
    }
}

/// The prefix tree of a frequency table has exactly one leaf for each
/// entry of the table, the weight of the whole table, and inner nodes that
/// weigh what their children weigh together. Only the empty table has no
/// tree.
pub proof fn lemma_huffman_tree(table: Seq<(char, u64)>, symbol: char)
    requires
        total_weight(table) <= u64::MAX,
    ensures
        huffman_tree(table) is None <==> table.len() == 0,
        huffman_tree(table) matches Some(root) ==> {
            &&& root.wf()
            &&& root.weight_of() == total_weight(table)
            &&& root.leaf_count(symbol) == entry_count(table, symbol)
            &&& root.leaf_total() == table.len()
        },
{
    lemma_leaf_queue(table, symbol);
    lemma_merge_queue(leaf_queue(table), symbol);
    let queue = merge_queue(leaf_queue(table));
    if queue.len() > 0 {
        assert(queue.drop_last() =~= Seq::<HuffNode>::empty());
        assert(queue.last() == queue[0]);
        assert(queue_weight(queue.drop_last()) == 0);
        assert(queue_leaf_count(queue.drop_last(), symbol) == 0);
        assert(queue_leaf_total(queue.drop_last()) == 0);
    }
}

/// Each leaf gets one code: a symbol has as many codes as the tree has
/// leaves for it.
pub proof fn lemma_tree_codes_count(node: HuffNode, prefix: Seq<char>, symbol: char)
    ensures
        entry_count(tree_codes(node, prefix), symbol) == node.leaf_count(symbol),
        tree_codes(node, prefix).len() == node.leaf_total(),
    decreases node,
{
    match node {
        HuffNode::Leaf { character, .. } => {
            let codes = tree_codes(node, prefix);
            assert(codes.drop_last() =~= Seq::<SymbolCode>::empty());
            assert(entry_count(codes.drop_last(), symbol) == 0);
        },
        HuffNode::Internal { left, right, .. } => {
            lemma_tree_codes_count(*left, prefix.push('0'), symbol);
            lemma_tree_codes_count(*right, prefix.push('1'), symbol);
            lemma_entry_count_concat(
                tree_codes(*left, prefix.push('0')),
                tree_codes(*right, prefix.push('1')),
                symbol,
            );
        },
    }
}

/// No leaf is left without a bit: every code of a tree is at least one
/// character long, and at least as long as the way to the node.
pub proof fn lemma_tree_codes_nonempty(node: HuffNode, prefix: Seq<char>)
    ensures
        forall|i: int|
            0 <= i < tree_codes(node, prefix).len() ==> (#[trigger] tree_codes(node, prefix)[i]).1.len()
                >= 1 && tree_codes(node, prefix)[i].1.len() >= prefix.len(),
    decreases node,
{
    let codes = tree_codes(node, prefix);
    match node {
        HuffNode::Leaf { .. } => {
            assert(codes[0].1.len() >= 1);
        },
        HuffNode::Internal { left, right, .. } => {
            let left_codes = tree_codes(*left, prefix.push('0'));
            let right_codes = tree_codes(*right, prefix.push('1'));
            lemma_tree_codes_nonempty(*left, prefix.push('0'));
            lemma_tree_codes_nonempty(*right, prefix.push('1'));
            assert forall|i: int| 0 <= i < codes.len() implies (#[trigger] codes[i]).1.len() >= 1
                && codes[i].1.len() >= prefix.len() by {
                if i < left_codes.len() {
                    assert(codes[i] == left_codes[i]);
                } else {
                    assert(codes[i] == right_codes[i - left_codes.len()]);
                }
            }
        },
    }
}

/// A tree is lower than it has leaves.
pub proof fn lemma_height_bound(node: HuffNode)
    ensures
        node.height() + 1 <= node.leaf_total(),
    decreases node,
{
    match node {
        HuffNode::Leaf { .. } => {},
        HuffNode::Internal { left, right, .. } => {
            lemma_height_bound(*left);
            lemma_height_bound(*right);
        },
    }
}

/// The least weight of a tree of height `height` in which siblings
/// dominate and every leaf weighs at least one: the weights grow as the
/// Fibonacci numbers do.
pub open spec fn least_weight(height: nat) -> nat
    decreases height,
{
    if height == 0 {
        1
    } else if height == 1 {
        2
    } else {
        least_weight((height - 1) as nat) + least_weight((height - 2) as nat)
    }
}

/// The least weight grows with the height.
pub proof fn lemma_least_weight_grows(low: nat, high: nat)
    requires
        low <= high,
    ensures
        1 <= least_weight(low) <= least_weight(high),
    decreases high,
{
    if low < high {
        lemma_least_weight_grows(low, (high - 1) as nat);
        if high >= 2 {
            lemma_least_weight_grows(0, (high - 2) as nat);
        }
    } else if low >= 2 {
        lemma_least_weight_grows(0, (low - 1) as nat);
        lemma_least_weight_grows(0, (low - 2) as nat);
    }
}

/// Two more levels at least double the least weight.
pub proof fn lemma_least_weight_doubles(half: nat)
    ensures
        least_weight(2 * half) >= pow2(half),
    decreases half,
{
    if half == 0 {
        vstd::arithmetic::power2::lemma2_to64();
    } else {
        let less = (half - 1) as nat;
        lemma_least_weight_doubles(less);
        lemma_least_weight_grows(2 * less, 2 * less + 1);
        vstd::arithmetic::power2::lemma_pow2_unfold(half);
        assert(least_weight(2 * half) == least_weight((2 * less + 1) as nat) + least_weight(
            2 * less,
        ));
    }
}

/// A tree in which siblings dominate weighs at least what its height asks
/// for.
pub proof fn lemma_weight_of_height(node: HuffNode)
    requires
        node.wf(),
        node.siblings_dominate(),
        node.leaves_positive(),
    ensures
        node.weight_of() >= least_weight(node.height()),
    decreases node,
{
    match node {
        HuffNode::Leaf { .. } => {},
        HuffNode::Internal { left, right, .. } => {
            lemma_weight_of_height(*left);
            lemma_weight_of_height(*right);
            lemma_least_weight_grows(0, left.height());
            lemma_least_weight_grows(0, right.height());
            let (tall, short) = if left.height() >= right.height() {
                (*left, *right)
            } else {
                (*right, *left)
            };
            assert(node.height() == tall.height() + 1);
            assert(tall.wf() && tall.siblings_dominate() && tall.leaves_positive());
            match tall {
                HuffNode::Leaf { .. } => {},
                HuffNode::Internal { left: below_left, right: below_right, .. } => {
                    lemma_weight_of_height(*below_left);
                    lemma_weight_of_height(*below_right);
                    let below = if below_left.height() >= below_right.height() {
                        *below_left
                    } else {
                        *below_right
                    };
                    assert(tall.height() == below.height() + 1);
                    assert(short.weight_of() >= below.weight_of());
                },
            }
        },
    }
}

/// A tree in which siblings dominate and whose weight fits 64 bits is
/// lower than 130 levels.
pub proof fn lemma_height_of_weight(node: HuffNode)
    requires
        node.wf(),
        node.siblings_dominate(),
        node.leaves_positive(),
    ensures
        node.height() < 130,
{
    lemma_weight_of_height(node);
    if node.height() >= 130 {
        lemma_least_weight_grows(130, node.height());
        lemma_least_weight_doubles(65);
        vstd::arithmetic::power2::lemma2_to64();
        vstd::arithmetic::power2::lemma_pow2_unfold(65);
    }
}

/// Whether siblings dominate in every tree of a queue, no tree of the
/// queue weighs less than a child of another, and every leaf weighs at
/// least one.
pub open spec fn queue_dominated(queue: Seq<HuffNode>) -> bool {
    &&& forall|i: int|
        0 <= i < queue.len() ==> (#[trigger] queue[i]).siblings_dominate()
            && queue[i].leaves_positive()
    &&& forall|i: int, j: int|
        0 <= i < queue.len() && 0 <= j < queue.len() ==> (#[trigger] queue[i]).children_within(
            (#[trigger] queue[j]).weight_of(),
        )
}

/// Joining the two lightest trees again and again leaves a tree in which
/// siblings dominate.
pub proof fn lemma_merge_queue_dominated(queue: Seq<HuffNode>)
    requires
        queue_sorted(queue),
        queue_wf(queue),
        queue_weight(queue) <= u64::MAX,
        queue_dominated(queue),
    ensures
        queue_dominated(merge_queue(queue)),
    decreases queue.len(),
{
    if queue.len() >= 2 {
        let rest = queue.skip(2);
        let merged = merged_front(queue);
        let next = enqueue(rest, merged);
        lemma_queue_weight_first(queue);
        lemma_queue_weight_first(queue.skip(1));
        assert(queue.skip(1).skip(1) =~= rest);
        lemma_queue_weight_nonnegative(rest);
        assert(queue_sorted(rest)) by {
            assert forall|i: int, j: int| 0 <= i < j < rest.len() implies (
            #[trigger] rest[i]).weight_of() <= (#[trigger] rest[j]).weight_of() by {
                assert(rest[i] == queue[i + 2]);
                assert(rest[j] == queue[j + 2]);
            }
        }
        lemma_enqueue_sorted(rest, merged);
        let at = queue_rank(rest, merged.weight_of());
        lemma_queue_rank_bounds(rest, merged.weight_of());
        assert(queue[0].children_within(queue[1].weight_of()));
        assert(queue[1].children_within(queue[0].weight_of()));
        assert(merged.siblings_dominate());
        assert(merged.leaves_positive());
        assert(merged.wf());
        let from = |i: int| if i < at { i + 2 } else { i + 1 };
        assert forall|i: int| 0 <= i < next.len() && i != at implies #[trigger] next[i]
            == queue[from(i)] by {}
        assert(queue_wf(next)) by {
            assert forall|i: int| 0 <= i < next.len() implies (#[trigger] next[i]).wf() by {
                if i != at {
                    assert(next[i] == queue[from(i)]);
                }
            }
        }
        assert(queue_dominated(next)) by {
            assert forall|i: int| 0 <= i < next.len() implies (
            #[trigger] next[i]).siblings_dominate() && next[i].leaves_positive() by {
                if i != at {
                    assert(next[i] == queue[from(i)]);
                }
            }
            assert forall|i: int, j: int|
                0 <= i < next.len() && 0 <= j < next.len() implies (
            #[trigger] next[i]).children_within((#[trigger] next[j]).weight_of()) by {
                if i != at && j != at {
                    assert(next[i] == queue[from(i)]);
                    assert(next[j] == queue[from(j)]);
                } else if i != at {
                    assert(next[i] == queue[from(i)]);
                    assert(queue[from(i)].children_within(queue[0].weight_of()));
                } else if j != at {
                    assert(next[j] == queue[from(j)]);
                    assert(queue[0].weight_of() <= queue[from(j)].weight_of());
                    assert(queue[1].weight_of() <= queue[from(j)].weight_of());
                }
            }
        }
        lemma_merge_queue_dominated(next);
    }
}

/// In the queue of leaves of a table without zero counts, nothing has
/// children and every leaf weighs at least one.
pub proof fn lemma_leaf_queue_dominated(table: Seq<(char, u64)>)
    requires
        forall|i: int| 0 <= i < table.len() ==> (#[trigger] table[i]).1 >= 1,
    ensures
        queue_dominated(leaf_queue(table)),
        forall|i: int| 0 <= i < leaf_queue(table).len() ==> (#[trigger] leaf_queue(table)[i]) is Leaf,
    decreases table.len(),
{
    if table.len() > 0 {
        let front_table = table.drop_last();
        assert forall|i: int| 0 <= i < front_table.len() implies (#[trigger] front_table[i]).1
            >= 1 by {
            assert(front_table[i] == table[i]);
        }
        lemma_leaf_queue_dominated(front_table);
        let front = leaf_queue(front_table);
        let leaf = leaf_for(table.last());
        assert(table[table.len() - 1].1 >= 1);
        let at = queue_rank(front, leaf.weight_of());
        lemma_queue_rank_bounds(front, leaf.weight_of());
        let queue = leaf_queue(table);
        assert(queue == front.insert(at, leaf));
        assert forall|i: int| 0 <= i < queue.len() implies (#[trigger] queue[i]) is Leaf
            && queue[i].leaves_positive() by {
            if i < at {
                assert(queue[i] == front[i]);
            } else if i > at {
                assert(queue[i] == front[i - 1]);
            }
        }
    }
}

/// The prefix tree of a frequency table without zero counts is lower than
/// 130 levels: the weight of a tree grows with its height as the Fibonacci
/// numbers do, and the weight of the whole table fits 64 bits.
pub proof fn lemma_huffman_tree_height(table: Seq<(char, u64)>)
    requires
        total_weight(table) <= u64::MAX,
        forall|i: int| 0 <= i < table.len() ==> (#[trigger] table[i]).1 >= 1,
    ensures
        huffman_tree(table) matches Some(root) ==> root.height() < 130,
{
    lemma_leaf_queue(table, 'a');
    lemma_leaf_queue_dominated(table);
    lemma_merge_queue(leaf_queue(table), 'a');
    lemma_merge_queue_dominated(leaf_queue(table));
    let queue = merge_queue(leaf_queue(table));
    if queue.len() > 0 {
        lemma_height_of_weight(queue[0]);
    }
}

} // verus!
