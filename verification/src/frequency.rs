//! The frequency table of a text.

use crate::huffman::total_weight;
use crate::symbol_map::{
    has_symbol, lemma_rank_split, lemma_with_entry, symbols_increasing, value_of, with_entry,
};
use vstd::prelude::*;

verus! {

/// The count that a frequency table holds for `symbol`: zero where it has
/// no entry for it.
pub open spec fn count_in(table: Seq<(char, u64)>, symbol: char) -> int {
    if has_symbol(table, symbol) {
        value_of(table, symbol) as int
    } else {
        0
    }
}

/// The frequency table of a text: one entry for each character that
/// occurs in it, in the order of the code points, with the number of times
/// that the character occurs. Characters that end a line are counted like
/// any other.
pub open spec fn frequency_table(text: Seq<char>) -> Seq<(char, u64)>
    decreases text.len(),
{
    if text.len() == 0 {
        Seq::empty()
    } else {
        let before = frequency_table(text.drop_last());
        with_entry(before, text.last(), (count_in(before, text.last()) + 1) as u64)
    }
}

/// The number of times that `symbol` occurs in `text`.
pub open spec fn occurrences(text: Seq<char>, symbol: char) -> int
    decreases text.len(),
{
    if text.len() == 0 {
        0
    } else {
        occurrences(text.drop_last(), symbol) + if text.last() == symbol {
            1int
        } else {
            0int
        }
    }
}

/// No character occurs more often than the text is long.
pub proof fn lemma_occurrences_bound(text: Seq<char>, symbol: char)
    ensures
        0 <= occurrences(text, symbol) <= text.len(),
        occurrences(text, symbol) > 0 <==> text.contains(symbol),
    decreases text.len(),
{
    if text.len() > 0 {
        let front = text.drop_last();
        lemma_occurrences_bound(front, symbol);
        if front.contains(symbol) {
            let i = choose|i: int| 0 <= i < front.len() && front[i] == symbol;
            assert(text[i] == symbol);
        }
        if text.last() == symbol {
            assert(text[text.len() - 1] == symbol);
        }
        if text.contains(symbol) {
            let i = choose|i: int| 0 <= i < text.len() && text[i] == symbol;
            if i < front.len() {
                assert(front[i] == symbol);
            }
        }
    }
}

/// The frequency table of a text lists the characters of the text, each
/// once and in rising order, with the number of times that it occurs.
pub proof fn lemma_frequency_table(text: Seq<char>)
    requires
        text.len() <= u64::MAX,
    ensures
        symbols_increasing(frequency_table(text)),
        forall|c: char| has_symbol(frequency_table(text), c) <==> text.contains(c),
        forall|c: char| count_in(frequency_table(text), c) == occurrences(text, c),
    decreases text.len(),
{
    let table = frequency_table(text);
    if text.len() == 0 {
        assert forall|c: char| !has_symbol(table, c) by {}
    } else {
        let front = text.drop_last();
        let before = frequency_table(front);
        let last = text.last();
        lemma_frequency_table(front);
        lemma_occurrences_bound(front, last);
        lemma_with_entry(before, last, (count_in(before, last) + 1) as u64);
        assert forall|c: char| (has_symbol(table, c) <==> text.contains(c)) && count_in(table, c)
            == occurrences(text, c) by {
            lemma_occurrences_bound(text, c);
            lemma_occurrences_bound(front, c);
        }
    }
}

/// An entry put into a frequency table adds its count to the total.
pub proof fn lemma_total_weight_insert(table: Seq<(char, u64)>, at: int, entry: (char, u64))
    requires
        0 <= at <= table.len(),
    ensures
        total_weight(table.insert(at, entry)) == total_weight(table) + entry.1,
    decreases table.len(),
{
    let after = table.insert(at, entry);
    if at == table.len() {
        assert(after.drop_last() =~= table);
    } else {
        assert(after.drop_last() =~= table.drop_last().insert(at, entry));
        assert(after.last() == table.last());
        lemma_total_weight_insert(table.drop_last(), at, entry);
    }
}

/// An entry that takes the place of another changes the total by the
/// difference of their counts.
pub proof fn lemma_total_weight_update(table: Seq<(char, u64)>, at: int, entry: (char, u64))
    requires
        0 <= at < table.len(),
    ensures
        total_weight(table.update(at, entry)) == total_weight(table) - table[at].1 + entry.1,
    decreases table.len(),
{
    let after = table.update(at, entry);
    if at == table.len() - 1 {
        assert(after.drop_last() =~= table.drop_last());
    } else {
        assert(after.drop_last() =~= table.drop_last().update(at, entry));
        assert(after.last() == table.last());
        lemma_total_weight_update(table.drop_last(), at, entry);
    }
}

/// The counts of the frequency table of a text add up to the length of
/// the text.
pub proof fn lemma_frequency_total(text: Seq<char>)
    requires
        text.len() <= u64::MAX,
    ensures
        total_weight(frequency_table(text)) == text.len(),
    decreases text.len(),
{
    if text.len() > 0 {
        let front = text.drop_last();
        let before = frequency_table(front);
        let last = text.last();
        let count = (count_in(before, last) + 1) as u64;
        lemma_frequency_total(front);
        lemma_frequency_table(front);
        lemma_occurrences_bound(front, last);
        let at = lemma_rank_split(before, last);
        if has_symbol(before, last) {
            lemma_total_weight_update(before, at, (last, count));
        } else {
            lemma_total_weight_insert(before, at, (last, count));
        }
    }
}

} // verus!
