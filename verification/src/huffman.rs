//! The prefix tree: its nodes, how it is built from a frequency table, and
//! the codes that its leaves stand for.

use crate::symbol_map::{
    has_symbol, index_of_symbol, lemma_rank_split, lemma_with_entry, rank_of, symbols_increasing,
    with_entry, SymbolMap,
};
use std::collections::VecDeque;
use vstd::prelude::*;

verus! {

/// A node of a prefix tree: a leaf for one symbol, or an inner node with
/// exactly two children.
#[derive(Debug)]
pub enum HuffNode {
    Leaf { character: char, weight: u64 },
    Internal { weight: u64, left: Box<HuffNode>, right: Box<HuffNode> },
}

/// A prefix tree, held by its root.
#[derive(Debug)]
pub struct HuffTree {
    pub root: Box<HuffNode>,
}

impl HuffNode {
    /// The weight stored in the node.
    pub open spec fn weight_of(self) -> u64 {
        match self {
            HuffNode::Leaf { weight, .. } => weight,
            HuffNode::Internal { weight, .. } => weight,
        }
    }

    /// Whether the weight of every inner node is the sum of its children's
    /// weights.
    pub open spec fn wf(self) -> bool
        decreases self,
    {
        match self {
            HuffNode::Leaf { .. } => true,
            HuffNode::Internal { weight, left, right } => {
                &&& weight == left.weight_of() + right.weight_of()
                &&& left.wf()
                &&& right.wf()
            },
        }
    }

    /// The number of edges on the longest way from the node down to a leaf.
    pub open spec fn height(self) -> nat
        decreases self,
    {
        match self {
            HuffNode::Leaf { .. } => 0,
            HuffNode::Internal { left, right, .. } => {
                if left.height() >= right.height() {
                    left.height() + 1
                } else {
                    right.height() + 1
                }
            },
        }
    }

    /// The number of leaves for `symbol`.
    pub open spec fn leaf_count(self, symbol: char) -> nat
        decreases self,
    {
        match self {
            HuffNode::Leaf { character, .. } => if character == symbol {
                1
            } else {
                0
            },
            HuffNode::Internal { left, right, .. } => left.leaf_count(symbol) + right.leaf_count(
                symbol,
            ),
        }
    }

    /// The number of leaves.
    pub open spec fn leaf_total(self) -> nat
        decreases self,
    {
        match self {
            HuffNode::Leaf { .. } => 1,
            HuffNode::Internal { left, right, .. } => left.leaf_total() + right.leaf_total(),
        }
    }

    /// Whether neither child of the node, if it has children, weighs more
    /// than `weight`.
    pub open spec fn children_within(self, weight: u64) -> bool {
        match self {
            HuffNode::Leaf { .. } => true,
            HuffNode::Internal { left, right, .. } => left.weight_of() <= weight
                && right.weight_of() <= weight,
        }
    }

    /// Whether, all through the tree, no node weighs less than a child of
    /// the node beside it. Joining the two lightest nodes first makes every
    /// tree so.
    pub open spec fn siblings_dominate(self) -> bool
        decreases self,
    {
        match self {
            HuffNode::Leaf { .. } => true,
            HuffNode::Internal { left, right, .. } => {
                &&& left.children_within(right.weight_of())
                &&& right.children_within(left.weight_of())
                &&& left.siblings_dominate()
                &&& right.siblings_dominate()
            },
        }
    }

    /// Whether every leaf weighs at least one.
    pub open spec fn leaves_positive(self) -> bool
        decreases self,
    {
        match self {
            HuffNode::Leaf { weight, .. } => weight >= 1,
            HuffNode::Internal { left, right, .. } => left.leaves_positive()
                && right.leaves_positive(),
        }
    }

    /// A leaf for `character`.
    pub fn new_leaf(character: char, weight: u64) -> (node: Self)
        ensures
            node == (HuffNode::Leaf { character, weight }),
    {
        HuffNode::Leaf { character, weight }
    }

    /// An inner node above `left` and `right`.
    pub fn new_internal(weight: u64, left: HuffNode, right: HuffNode) -> (node: Self)
        ensures
            node == (HuffNode::Internal { weight, left: Box::new(left), right: Box::new(right) }),
    {
        HuffNode::Internal { weight, left: Box::new(left), right: Box::new(right) }
    }

    /// The weight stored in the node.
    pub fn weight(&self) -> (weight: u64)
        ensures
            weight == self.weight_of(),
    {
        match self {
            HuffNode::Leaf { weight, .. } => *weight,
            HuffNode::Internal { weight, .. } => *weight,
        }
    }
}

/// A symbol with the bit string that stands for it.
pub type SymbolCode = (char, Seq<char>);

/// The codes of the leaves below `node`, from left to right, where `prefix`
/// leads to `node`: a step to the left adds `'0'`, a step to the right
/// `'1'`. A leaf that is reached by no step at all gets the code `"0"`, so
/// that the one symbol of a tree without inner nodes has a bit to be
/// written with.
pub open spec fn tree_codes(node: HuffNode, prefix: Seq<char>) -> Seq<SymbolCode>
    decreases node,
{
    match node {
        HuffNode::Leaf { character, .. } => seq![
            (
                character,
                if prefix.len() == 0 {
                    seq!['0']
                } else {
                    prefix
                },
            ),
        ],
        HuffNode::Internal { left, right, .. } => tree_codes(*left, prefix.push('0')) + tree_codes(
            *right,
            prefix.push('1'),
        ),
    }
}

/// The codes held by a map from symbols to code strings, as plain values.
pub open spec fn code_entries(entries: Seq<(char, String)>) -> Seq<SymbolCode> {
    entries.map_values(|entry: (char, String)| (entry.0, entry.1@))
}

/// The entries of a map after `codes` were stored in it one after the
/// other.
pub open spec fn with_codes(entries: Seq<SymbolCode>, codes: Seq<SymbolCode>) -> Seq<SymbolCode>
    decreases codes.len(),
{
    if codes.len() == 0 {
        entries
    } else {
        with_entry(with_codes(entries, codes.drop_last()), codes.last().0, codes.last().1)
    }
}

/// Storing two runs of codes one after the other is storing their
/// concatenation.
pub proof fn lemma_with_codes_concat(
    entries: Seq<SymbolCode>,
    first: Seq<SymbolCode>,
    second: Seq<SymbolCode>,
)
    ensures
        with_codes(with_codes(entries, first), second) == with_codes(entries, first + second),
    decreases second.len(),
{
    if second.len() == 0 {
        assert(first + second =~= first);
    } else {
        lemma_with_codes_concat(entries, first, second.drop_last());
        assert((first + second).drop_last() =~= first + second.drop_last());
        assert((first + second).last() == second.last());
    }
}

/// Storing a code string in a map of strings stores its characters in the
/// map's plain values.
pub proof fn lemma_code_entries_with_entry(entries: Seq<(char, String)>, symbol: char, code: String)
    requires
        symbols_increasing(entries),
    ensures
        code_entries(with_entry(entries, symbol, code)) == with_entry(
            code_entries(entries),
            symbol,
            code@,
        ),
{
    lemma_code_entries_rank(entries, symbol);
    let plain = code_entries(entries);
    if has_symbol(entries, symbol) {
        let i = index_of_symbol(entries, symbol);
        assert(plain[i].0 == symbol);
    }
    if has_symbol(plain, symbol) {
        let i = index_of_symbol(plain, symbol);
        assert(entries[i].0 == symbol);
    }
    let at = lemma_rank_split(entries, symbol);
    assert(code_entries(with_entry(entries, symbol, code)) =~= with_entry(plain, symbol, code@));
}

/// The rank of a symbol depends on the symbols alone.
pub proof fn lemma_code_entries_rank(entries: Seq<(char, String)>, symbol: char)
    ensures
        rank_of(code_entries(entries), symbol) == rank_of(entries, symbol),
    decreases entries.len(),
{
    if entries.len() > 0 {
        lemma_code_entries_rank(entries.drop_last(), symbol);
        assert(code_entries(entries).drop_last() =~= code_entries(entries.drop_last()));
    }
}

/// Walks the tree below `node` and stores the code of each leaf in
/// `base_codes`, where `code` leads to `node`. A code stored for a symbol
/// takes the place of an earlier one.
pub fn generate_base_codes(node: HuffNode, base_codes: &mut SymbolMap<String>, code: String)
    requires
        old(base_codes).wf(),
    ensures
        final(base_codes).wf(),
        code_entries(final(base_codes)@) == with_codes(
            code_entries(old(base_codes)@),
            tree_codes(node, code@),
        ),
    decreases node,
{
    match node {
        HuffNode::Leaf { character, .. } => {
            let ghost prefix = code@;
            let mut code = code;
            if code.as_str().is_empty() {
                code.push('0');
            }
            proof {
                lemma_code_entries_with_entry(base_codes@, character, code);
                lemma_with_entry(base_codes@, character, code);
                let codes = tree_codes(node, prefix);
                assert(codes.drop_last() =~= Seq::<SymbolCode>::empty());
                assert(code@ =~= codes.last().1);
                assert(with_codes(code_entries(base_codes@), codes.drop_last()) == code_entries(
                    base_codes@,
                ));
            }
            base_codes.insert(character, code);
        },
        HuffNode::Internal { left, right, .. } => {
            let mut left_code = code.clone();
            left_code.push('0');
            let mut right_code = code;
            right_code.push('1');
            generate_base_codes(*left, base_codes, left_code);
            generate_base_codes(*right, base_codes, right_code);
            proof {
                lemma_with_codes_concat(
                    code_entries(old(base_codes)@),
                    tree_codes(*left, left_code@),
                    tree_codes(*right, right_code@),
                );
            }
        },
    }
}

/// The sum of the counts of a frequency table.
pub open spec fn total_weight(table: Seq<(char, u64)>) -> int
    decreases table.len(),
{
    if table.len() == 0 {
        0
    } else {
        total_weight(table.drop_last()) + table.last().1
    }
}

/// The first entries of a table weigh no more than the whole table.
pub proof fn lemma_total_weight_grows(table: Seq<(char, u64)>, n: int)
    requires
        0 <= n <= table.len(),
    ensures
        total_weight(table.take(n)) <= total_weight(table),
    decreases table.len() - n,
{
    if n < table.len() {
        lemma_total_weight_grows(table, n + 1);
        assert(table.take(n + 1).drop_last() =~= table.take(n));
    } else {
        assert(table.take(n) =~= table);
    }
}

/// The sum of the weights of the nodes of a queue.
pub open spec fn queue_weight(queue: Seq<HuffNode>) -> int
    decreases queue.len(),
{
    if queue.len() == 0 {
        0
    } else {
        queue_weight(queue.drop_last()) + queue.last().weight_of()
    }
}

/// Whether the weights of a queue never fall from one node to the next.
pub open spec fn queue_sorted(queue: Seq<HuffNode>) -> bool {
    forall|i: int, j: int|
        0 <= i < j < queue.len() ==> (#[trigger] queue[i]).weight_of() <= (
        #[trigger] queue[j]).weight_of()
}

/// The number of nodes of a queue that weigh no more than `weight`.
pub open spec fn queue_rank(queue: Seq<HuffNode>, weight: u64) -> int
    decreases queue.len(),
{
    if queue.len() == 0 {
        0
    } else {
        queue_rank(queue.drop_last(), weight) + if queue.last().weight_of() <= weight {
            1int
        } else {
            0int
        }
    }
}

/// The queue with `node` added behind every node that weighs no more than
/// it does: among nodes of equal weight, the one that came first leaves
/// first.
pub open spec fn enqueue(queue: Seq<HuffNode>, node: HuffNode) -> Seq<HuffNode> {
    queue.insert(queue_rank(queue, node.weight_of()), node)
}

/// The leaf for an entry of a frequency table.
pub open spec fn leaf_for(entry: (char, u64)) -> HuffNode {
    HuffNode::Leaf { character: entry.0, weight: entry.1 }
}

/// The queue that holds one leaf for each entry of a frequency table, the
/// entries added in their order.
pub open spec fn leaf_queue(table: Seq<(char, u64)>) -> Seq<HuffNode>
    decreases table.len(),
{
    if table.len() == 0 {
        Seq::empty()
    } else {
        enqueue(leaf_queue(table.drop_last()), leaf_for(table.last()))
    }
}

/// The inner node above the two lightest nodes of a queue.
pub open spec fn merged_front(queue: Seq<HuffNode>) -> HuffNode {
    HuffNode::Internal {
        weight: (queue[0].weight_of() + queue[1].weight_of()) as u64,
        left: Box::new(queue[0]),
        right: Box::new(queue[1]),
    }
}

/// The queue after its two lightest nodes were joined under a new node and
/// that node was added, again and again until at most one node is left.
pub open spec fn merge_queue(queue: Seq<HuffNode>) -> Seq<HuffNode>
    decreases queue.len(),
{
    if queue.len() < 2 {
        queue
    } else {
        proof {
            lemma_queue_rank_bounds(queue.skip(2), merged_front(queue).weight_of());
        }
        merge_queue(enqueue(queue.skip(2), merged_front(queue)))
    }
}

/// The prefix tree of a frequency table: one leaf for each symbol, the two
/// lightest nodes joined first. `None` for the empty table.
pub open spec fn huffman_tree(table: Seq<(char, u64)>) -> Option<HuffNode> {
    let queue = merge_queue(leaf_queue(table));
    if queue.len() == 0 {
        None
    } else {
        Some(queue[0])
    }
}

/// In a sorted queue the rank of a weight is the place behind the last node
/// that weighs no more.
pub proof fn lemma_queue_rank(queue: Seq<HuffNode>, weight: u64, at: int)
    requires
        0 <= at <= queue.len(),
        forall|i: int| 0 <= i < at ==> (#[trigger] queue[i]).weight_of() <= weight,
        forall|i: int| at <= i < queue.len() ==> (#[trigger] queue[i]).weight_of() > weight,
    ensures
        queue_rank(queue, weight) == at,
    decreases queue.len(),
{
    if queue.len() > 0 {
        let front = queue.drop_last();
        if at == queue.len() {
            lemma_queue_rank(front, weight, at - 1);
            assert(queue[at - 1] == queue.last());
        } else {
            lemma_queue_rank(front, weight, at);
        }
    }
}

/// The rank of a weight lies within the queue.
pub proof fn lemma_queue_rank_bounds(queue: Seq<HuffNode>, weight: u64)
    ensures
        0 <= queue_rank(queue, weight) <= queue.len(),
    decreases queue.len(),
{
    if queue.len() > 0 {
        lemma_queue_rank_bounds(queue.drop_last(), weight);
    }
}

/// A node added anywhere adds its weight to the queue's.
pub proof fn lemma_queue_weight_insert(queue: Seq<HuffNode>, at: int, node: HuffNode)
    requires
        0 <= at <= queue.len(),
    ensures
        queue_weight(queue.insert(at, node)) == queue_weight(queue) + node.weight_of(),
    decreases queue.len(),
{
    let after = queue.insert(at, node);
    if at == queue.len() {
        assert(after.drop_last() =~= queue);
    } else {
        assert(after.drop_last() =~= queue.drop_last().insert(at, node));
        assert(after.last() == queue.last());
        lemma_queue_weight_insert(queue.drop_last(), at, node);
    }
}

/// The first node of a queue carries its weight apart from the rest.
pub proof fn lemma_queue_weight_first(queue: Seq<HuffNode>)
    requires
        queue.len() > 0,
    ensures
        queue_weight(queue) == queue[0].weight_of() + queue_weight(queue.skip(1)),
    decreases queue.len(),
{
    if queue.len() == 1 {
        assert(queue.drop_last() =~= queue.skip(1));
        assert(queue_weight(queue.drop_last()) == 0);
    } else {
        lemma_queue_weight_first(queue.drop_last());
        assert(queue.drop_last().skip(1) =~= queue.skip(1).drop_last());
        assert(queue.skip(1).last() == queue.last());
    }
}

/// Adding a node keeps a sorted queue sorted.
pub proof fn lemma_enqueue_sorted(queue: Seq<HuffNode>, node: HuffNode)
    requires
        queue_sorted(queue),
    ensures
        queue_sorted(enqueue(queue, node)),
        enqueue(queue, node).len() == queue.len() + 1,
        queue_weight(enqueue(queue, node)) == queue_weight(queue) + node.weight_of(),
{
    let at = lemma_queue_rank_split(queue, node.weight_of());
    lemma_queue_weight_insert(queue, at, node);
    let after = enqueue(queue, node);
    assert forall|i: int, j: int| 0 <= i < j < after.len() implies (#[trigger] after[i]).weight_of()
        <= (#[trigger] after[j]).weight_of() by {
        if i != at {
            assert(after[i] == queue[if i < at { i } else { i - 1 }]);
        }
        if j != at {
            assert(after[j] == queue[if j < at { j } else { j - 1 }]);
        }
    }
}

/// The rank of a weight splits a sorted queue into the nodes that weigh no
/// more and the nodes that weigh more.
pub proof fn lemma_queue_rank_split(queue: Seq<HuffNode>, weight: u64) -> (at: int)
    requires
        queue_sorted(queue),
    ensures
        at == queue_rank(queue, weight),
        0 <= at <= queue.len(),
        forall|i: int| 0 <= i < at ==> (#[trigger] queue[i]).weight_of() <= weight,
        forall|i: int| at <= i < queue.len() ==> (#[trigger] queue[i]).weight_of() > weight,
    decreases queue.len(),
{
    let at = queue_rank(queue, weight);
    if queue.len() > 0 {
        let front = queue.drop_last();
        let front_at = lemma_queue_rank_split(front, weight);
        assert forall|i: int| 0 <= i < at implies (#[trigger] queue[i]).weight_of() <= weight by {
            if i < front.len() {
                assert(front[i] == queue[i]);
                if i >= front_at {
                    assert(queue[i].weight_of() <= queue[queue.len() - 1].weight_of());
                }
            }
        }
        assert forall|i: int| at <= i < queue.len() implies (#[trigger] queue[i]).weight_of()
            > weight by {
            if i < front.len() {
                assert(front[i] == queue[i]);
                if queue.last().weight_of() <= weight {
                    assert(queue[i].weight_of() <= queue[queue.len() - 1].weight_of());
                }
            }
        }
    }
    at
}

/// Adds `node` to a sorted queue, behind every node that weighs no more.
fn enqueue_node(queue: &mut VecDeque<HuffNode>, node: HuffNode)
    requires
        queue_sorted(old(queue)@),
    ensures
        final(queue)@ == enqueue(old(queue)@, node),
        queue_sorted(final(queue)@),
{
    let weight = node.weight();
    let mut low: usize = 0;
    let mut high: usize = queue.len();
    while low < high
        invariant
            queue_sorted(queue@),
            low <= high <= queue@.len(),
            forall|i: int| 0 <= i < low ==> (#[trigger] queue@[i]).weight_of() <= weight,
            forall|i: int| high <= i < queue@.len() ==> (#[trigger] queue@[i]).weight_of() > weight,
        decreases high - low,
    {
        let mid = low + (high - low) / 2;
        if queue[mid].weight() <= weight {
            assert forall|i: int| 0 <= i < mid + 1 implies (#[trigger] queue@[i]).weight_of()
                <= weight by {
                if i < mid {
                    assert(queue@[i].weight_of() <= queue@[mid as int].weight_of());
                }
            }
            low = mid + 1;
        } else {
            assert forall|i: int| mid <= i < queue@.len() implies (#[trigger] queue@[i]).weight_of()
                > weight by {
                if i > mid {
                    assert(queue@[mid as int].weight_of() <= queue@[i].weight_of());
                }
            }
            high = mid;
        }
    }
    proof {
        lemma_queue_rank(queue@, weight, low as int);
        lemma_enqueue_sorted(queue@, node);
    }
    queue.insert(low, node);
}

impl HuffTree {
    /// Whether the counts of a frequency table add up to a number of 64
    /// bits, so that a tree can be built from it.
    pub fn weights_fit(char_map: &SymbolMap<u64>) -> (fit: bool)
        ensures
            fit == (total_weight(char_map@) <= u64::MAX),
    {
        let entries = char_map.as_slice();
        let mut sum: u64 = 0;
        let mut i: usize = 0;
        assert(total_weight(entries@.take(0)) == 0);
        while i < entries.len()
            invariant
                entries@ == char_map@,
                i <= entries@.len(),
                sum == total_weight(entries@.take(i as int)),
            decreases entries@.len() - i,
        {
            assert(entries@.take(i + 1).drop_last() =~= entries@.take(i as int));
            match sum.checked_add(entries[i].1) {
                Some(more) => {
                    sum = more;
                },
                None => {
                    proof {
                        lemma_total_weight_grows(entries@, i + 1);
                    }
                    return false;
                },
            }
            i = i + 1;
        }
        assert(entries@.take(i as int) =~= entries@);
        true
    }

    /// Builds the prefix tree of a frequency table: one leaf for each
    /// symbol, then the two lightest nodes joined under a node that weighs
    /// their sum until one node is left. Of nodes that weigh the same the
    /// one that entered the queue first is taken first. The empty table has
    /// no tree. The table is left as it was.
    pub fn build_huffman_tree(char_map: &mut SymbolMap<u64>) -> (tree: Option<HuffTree>)
        requires
            total_weight(old(char_map)@) <= u64::MAX,
        ensures
            *final(char_map) == *old(char_map),
            match tree {
                Some(t) => Some(*t.root) == huffman_tree(old(char_map)@),
                None => huffman_tree(old(char_map)@) is None,
            },
            tree is None <==> old(char_map)@.len() == 0,
    {
        let entries = char_map.as_slice();
        let ghost table = char_map@;
        let mut queue: VecDeque<HuffNode> = VecDeque::new();
        let mut i: usize = 0;
        while i < entries.len()
            invariant
                entries@ == table,
                i <= table.len(),
                queue@ == leaf_queue(table.take(i as int)),
                queue_sorted(queue@),
                queue@.len() == i,
                queue_weight(queue@) == total_weight(table.take(i as int)),
            decreases table.len() - i,
        {
            let character = entries[i].0;
            let weight = entries[i].1;
            proof {
                assert(table.take(i + 1).drop_last() =~= table.take(i as int));
                lemma_enqueue_sorted(queue@, leaf_for((character, weight)));
            }
            enqueue_node(&mut queue, HuffNode::new_leaf(character, weight));
            i = i + 1;
        }
        assert(table.take(i as int) =~= table);
        while queue.len() > 1
            invariant
                queue_sorted(queue@),
                queue_weight(queue@) <= u64::MAX,
                merge_queue(queue@) == merge_queue(leaf_queue(table)),
                queue@.len() == 0 <==> table.len() == 0,
            decreases queue@.len(),
        {
            let ghost before = queue@;
            proof {
                lemma_queue_weight_first(before);
                lemma_queue_weight_first(before.skip(1));
                assert(before.skip(1).skip(1) =~= before.skip(2));
                assert(before.subrange(1, before.len() as int) =~= before.skip(1));
                lemma_queue_weight_nonnegative(before.skip(2));
            }
            let left = queue.pop_front().unwrap();
            let right = queue.pop_front().unwrap();
            assert(queue@ =~= before.skip(2));
            let combined_weight = left.weight() + right.weight();
            let new_node = HuffNode::new_internal(combined_weight, left, right);
            assert(new_node == merged_front(before));
            proof {
                lemma_enqueue_sorted(queue@, new_node);
            }
            enqueue_node(&mut queue, new_node);
        }
        match queue.pop_front() {
            Some(node) => Some(HuffTree { root: Box::new(node) }),
            None => None,
        }
    }
}

/// No queue weighs less than nothing.
pub proof fn lemma_queue_weight_nonnegative(queue: Seq<HuffNode>)
    ensures
        queue_weight(queue) >= 0,
    decreases queue.len(),
{
    if queue.len() > 0 {
        lemma_queue_weight_nonnegative(queue.drop_last());
    }
}

} // verus!
