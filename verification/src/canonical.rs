//! Canonical codes: the codes that follow from the code lengths alone.

use crate::bits::{
    bits_succ, increment_bits, lemma_bits_succ_len, lemma_to_bits_len, lemma_to_bits_shift, lemma_to_bits_succ,
    pad_zero_bits, string_of_chars, to_bits, zero_bits,
};
use crate::encoder::{codes_view, Code};
use crate::huffman::{code_entries, lemma_code_entries_with_entry, with_codes, SymbolCode};
use crate::symbol_map::{entry_count, SymbolMap};
use crate::utils::is_bit_string;
use vstd::arithmetic::power2::pow2;
use vstd::prelude::*;
use vstd::relations::{sorted_by, total_ordering};
use vstd::seq_lib::{lemma_sorted_unique, to_multiset_build, to_multiset_insert};

verus! {

/// The length of a code with the symbol that the code is for.
pub type LengthEntry = (nat, char);

/// Whether `a` comes no later than `b` in canonical order: shorter codes
/// first, and among codes of one length the lower code point first.
pub open spec fn length_then_symbol(a: LengthEntry, b: LengthEntry) -> bool {
    a.0 < b.0 || (a.0 == b.0 && a.1 as u32 <= b.1 as u32)
}

/// The canonical order as a relation.
pub open spec fn canonical_order() -> spec_fn(LengthEntry, LengthEntry) -> bool {
    |a: LengthEntry, b: LengthEntry| length_then_symbol(a, b)
}

/// The canonical order is a total order.
pub proof fn lemma_canonical_order_total()
    ensures
        total_ordering(canonical_order()),
{
    let order = canonical_order();
    assert forall|x: LengthEntry, y: LengthEntry| #[trigger] order(x, y) && #[trigger] order(
        y,
        x,
    ) implies x == y by {
        vstd::utf8::char_u32_cast(x.1, x.1 as u32);
        vstd::utf8::char_u32_cast(y.1, y.1 as u32);
    }
}

/// The lengths of a list of codes, each with its symbol.
pub open spec fn code_lengths(codes: Seq<SymbolCode>) -> Seq<LengthEntry> {
    codes.map_values(|entry: SymbolCode| (entry.1.len(), entry.0))
}

/// The number whose bits are the canonical code of entry `i` of a list in
/// canonical order. The first code is zero. Each later one is the code
/// before it plus one, shifted to the left by as many places as its length
/// exceeds the length before.
#[verifier::opaque]
pub open spec fn canon_value(sorted: Seq<LengthEntry>, i: int) -> nat
    decreases i,
{
    if i <= 0 {
        0
    } else {
        (canon_value(sorted, i - 1) + 1) * pow2((sorted[i].0 - sorted[i - 1].0) as nat)
    }
}

/// The canonical codes of a list in canonical order: entry `i` gets the
/// lowest bits of its number, as many as its length says.
pub open spec fn assign_codes(sorted: Seq<LengthEntry>) -> Seq<SymbolCode> {
    Seq::new(sorted.len(), |i: int| (sorted[i].1, to_bits(canon_value(sorted, i), sorted[i].0)))
}

/// The canonical codes for a list of codes, in canonical order. Of the
/// given codes only the lengths count.
pub open spec fn canonical_codes(base: Seq<SymbolCode>) -> Seq<SymbolCode> {
    assign_codes(code_lengths(base).sort_by(canonical_order()))
}

/// The first canonical code is made of zero bits.
pub proof fn lemma_first_code(sorted: Seq<LengthEntry>)
    ensures
        to_bits(canon_value(sorted, 0), sorted[0].0) == zero_bits(sorted[0].0),
{
    reveal(canon_value);
    lemma_to_bits_shift(0, 0, sorted[0].0);
    assert(0 * pow2(sorted[0].0) == 0nat);
    assert(to_bits(0, 0) + zero_bits(sorted[0].0) =~= zero_bits(sorted[0].0));
}

/// Each later canonical code is the bit string after the code before it,
/// with zero bits appended up to its own length.
pub proof fn lemma_next_code(sorted: Seq<LengthEntry>, i: int)
    requires
        sorted_by(sorted, canonical_order()),
        0 < i < sorted.len(),
    ensures
        sorted[i - 1].0 <= sorted[i].0,
        to_bits(canon_value(sorted, i), sorted[i].0) == bits_succ(
            to_bits(canon_value(sorted, i - 1), sorted[i - 1].0),
        ) + zero_bits((sorted[i].0 - sorted[i - 1].0) as nat),
{
    reveal(canon_value);
    assert(canonical_order()(sorted[i - 1], sorted[i]));
    let before = canon_value(sorted, i - 1);
    let width = sorted[i - 1].0;
    let shift = (sorted[i].0 - width) as nat;
    lemma_to_bits_succ(before, width);
    lemma_to_bits_shift(before + 1, width, shift);
}

/// The number of entries for `symbol` in a list of code lengths.
pub open spec fn length_count(entries: Seq<LengthEntry>, symbol: char) -> nat
    decreases entries.len(),
{
    if entries.len() == 0 {
        0
    } else {
        length_count(entries.drop_last(), symbol) + if entries.last().1 == symbol {
            1nat
        } else {
            0nat
        }
    }
}

/// An entry taken out of a list of code lengths is no longer counted.
pub proof fn lemma_length_count_remove(entries: Seq<LengthEntry>, at: int, symbol: char)
    requires
        0 <= at < entries.len(),
    ensures
        length_count(entries, symbol) == length_count(entries.remove(at), symbol) + if entries[at].1
            == symbol {
            1nat
        } else {
            0nat
        },
    decreases entries.len(),
{
    if at == entries.len() - 1 {
        assert(entries.remove(at) =~= entries.drop_last());
    } else {
        lemma_length_count_remove(entries.drop_last(), at, symbol);
        assert(entries.remove(at).drop_last() =~= entries.drop_last().remove(at));
        assert(entries.remove(at).last() == entries.last());
    }
}

/// The count of a symbol does not depend on the order of the entries.
pub proof fn lemma_length_count_permutation(a: Seq<LengthEntry>, b: Seq<LengthEntry>, symbol: char)
    requires
        a.to_multiset() == b.to_multiset(),
    ensures
        length_count(a, symbol) == length_count(b, symbol),
        a.len() == b.len(),
    decreases a.len(),
{
    broadcast use vstd::seq_lib::group_to_multiset_ensures;

    if a.len() == 0 {
        assert(b.len() == b.to_multiset().len());
    } else {
        let last = a.last();
        let front = a.drop_last();
        assert(a =~= front.push(last));
        to_multiset_build(front, last);
        assert(a.to_multiset().count(last) > 0);
        assert(b.contains(last));
        let at = choose|at: int| 0 <= at < b.len() && b[at] == last;
        vstd::seq_lib::to_multiset_remove(b, at);
        assert(front.to_multiset() =~= b.remove(at).to_multiset());
        lemma_length_count_permutation(front, b.remove(at), symbol);
        lemma_length_count_remove(b, at, symbol);
    }
}

/// A symbol has as many code lengths as it has codes.
pub proof fn lemma_code_lengths_count(codes: Seq<SymbolCode>, symbol: char)
    ensures
        length_count(code_lengths(codes), symbol) == entry_count(codes, symbol),
    decreases codes.len(),
{
    if codes.len() > 0 {
        lemma_code_lengths_count(codes.drop_last(), symbol);
        assert(code_lengths(codes).drop_last() =~= code_lengths(codes.drop_last()));
    }
}

/// A symbol gets as many canonical codes as it has code lengths.
pub proof fn lemma_assign_codes_count(sorted: Seq<LengthEntry>, symbol: char)
    ensures
        entry_count(assign_codes(sorted), symbol) == length_count(sorted, symbol),
{
    let codes = assign_codes(sorted);
    assert(code_lengths(codes) =~= sorted) by {
        assert forall|i: int| 0 <= i < sorted.len() implies code_lengths(codes)[i] == sorted[i] by {
            lemma_to_bits_len(canon_value(sorted, i), sorted[i].0);
        }
    }
    lemma_code_lengths_count(codes, symbol);
}

/// Canonical codes are for the symbols of the base codes: each symbol has
/// as many canonical codes as it has base codes, and every canonical code
/// is a string of bits.
pub proof fn lemma_canonical_symbols(base: Seq<SymbolCode>, symbol: char)
    ensures
        canonical_codes(base).len() == base.len(),
        entry_count(canonical_codes(base), symbol) == entry_count(base, symbol),
        forall|i: int|
            0 <= i < base.len() ==> is_bit_string((#[trigger] canonical_codes(base)[i]).1),
{
    let lengths = code_lengths(base);
    let sorted = lengths.sort_by(canonical_order());
    lemma_canonical_order_total();
    lengths.lemma_sort_by_ensures(canonical_order());
    lemma_length_count_permutation(lengths, sorted, symbol);
    lemma_code_lengths_count(base, symbol);
    lemma_assign_codes_count(sorted, symbol);
    assert forall|i: int| 0 <= i < base.len() implies is_bit_string(
        (#[trigger] canonical_codes(base)[i]).1,
    ) by {
        lemma_to_bits_len(canon_value(sorted, i), sorted[i].0);
    }
}

/// Canonical codes depend on the lengths of the base codes alone: two
/// lists of base codes that give the same symbols the same code lengths,
/// in whatever order and with whatever bits, have the same canonical codes.
pub proof fn lemma_canonical_codes_depend_on_lengths(a: Seq<SymbolCode>, b: Seq<SymbolCode>)
    requires
        code_lengths(a).to_multiset() == code_lengths(b).to_multiset(),
    ensures
        canonical_codes(a) == canonical_codes(b),
{
    lemma_canonical_order_total();
    code_lengths(a).lemma_sort_by_ensures(canonical_order());
    code_lengths(b).lemma_sort_by_ensures(canonical_order());
    lemma_sorted_unique(
        code_lengths(a).sort_by(canonical_order()),
        code_lengths(b).sort_by(canonical_order()),
        canonical_order(),
    );
}

/// Lengths and symbols as plain values.
pub open spec fn lengths_view(pairs: Seq<(usize, char)>) -> Seq<LengthEntry> {
    pairs.map_values(|pair: (usize, char)| (pair.0 as nat, pair.1))
}

fn in_canonical_order(a: (usize, char), b: (usize, char)) -> (le: bool)
    ensures
        le == length_then_symbol((a.0 as nat, a.1), (b.0 as nat, b.1)),
{
    a.0 < b.0 || (a.0 == b.0 && a.1 as u32 <= b.1 as u32)
}

/// Sorts lengths and symbols into canonical order.
pub fn sort_lengths(pairs: &Vec<(usize, char)>) -> (sorted: Vec<(usize, char)>)
    ensures
        lengths_view(sorted@) == lengths_view(pairs@).sort_by(canonical_order()),
{
    let mut sorted: Vec<(usize, char)> = Vec::new();
    let mut i: usize = 0;
    proof {
        lemma_canonical_order_total();
        assert(lengths_view(pairs@).take(0) =~= Seq::<LengthEntry>::empty());
        assert(lengths_view(sorted@) =~= Seq::<LengthEntry>::empty());
    }
    while i < pairs.len()
        invariant
            i <= pairs@.len(),
            sorted@.len() == i,
            total_ordering(canonical_order()),
            sorted_by(lengths_view(sorted@), canonical_order()),
            lengths_view(sorted@).to_multiset() == lengths_view(pairs@).take(i as int).to_multiset(),
        decreases pairs@.len() - i,
    {
        let pair = pairs[i];
        let ghost entry = (pair.0 as nat, pair.1);
        let ghost before = lengths_view(sorted@);
        let mut low: usize = 0;
        let mut high: usize = sorted.len();
        while low < high
            invariant
                low <= high <= sorted@.len(),
                before == lengths_view(sorted@),
                entry == (pair.0 as nat, pair.1),
                total_ordering(canonical_order()),
                sorted_by(before, canonical_order()),
                forall|k: int| 0 <= k < low ==> length_then_symbol(#[trigger] before[k], entry),
                forall|k: int|
                    high <= k < before.len() ==> length_then_symbol(entry, #[trigger] before[k]),
            decreases high - low,
        {
            let mid = low + (high - low) / 2;
            assert(before[mid as int] == (sorted@[mid as int].0 as nat, sorted@[mid as int].1));
            if in_canonical_order(sorted[mid], pair) {
                assert forall|k: int| 0 <= k < mid + 1 implies length_then_symbol(
                    #[trigger] before[k],
                    entry,
                ) by {
                    if k < mid {
                        assert(canonical_order()(before[k], before[mid as int]));
                    }
                }
                low = mid + 1;
            } else {
                assert forall|k: int| mid <= k < before.len() implies length_then_symbol(
                    entry,
                    #[trigger] before[k],
                ) by {
                    if k > mid {
                        assert(canonical_order()(before[mid as int], before[k]));
                    }
                }
                high = mid;
            }
        }
        sorted.insert(low, pair);
        proof {
            let after = lengths_view(sorted@);
            assert(after =~= before.insert(low as int, entry));
            assert forall|a: int, b: int| 0 <= a < b < after.len() implies #[trigger] canonical_order()(
                after[a],
                after[b],
            ) by {
                let oa = if a < low { a } else { a - 1 };
                let ob = if b < low { b } else { b - 1 };
                if a != low && b != low {
                    assert(canonical_order()(before[oa], before[ob]));
                } else if a == low {
                    assert(length_then_symbol(entry, before[ob]));
                } else {
                    assert(length_then_symbol(before[oa], entry));
                }
            }
            let done = lengths_view(pairs@).take(i + 1);
            let earlier = lengths_view(pairs@).take(i as int);
            assert(done =~= earlier.push(entry));
            to_multiset_insert(before, low as int, entry);
            to_multiset_build(earlier, entry);
        }
        i = i + 1;
    }
    proof {
        let all = lengths_view(pairs@);
        assert(all.take(i as int) =~= all);
        all.lemma_sort_by_ensures(canonical_order());
        lemma_sorted_unique(lengths_view(sorted@), all.sort_by(canonical_order()), canonical_order());
    }
    sorted
}

/// The canonical codes for a list of codes, in canonical order: shorter
/// codes first, and among codes of one length the lower code point first.
/// Of the given codes only the lengths count.
pub fn canonical_code_list(base_codes: &Vec<Code>) -> (codes: Vec<Code>)
    ensures
        codes_view(codes@) == canonical_codes(codes_view(base_codes@)),
{
    let mut pairs: Vec<(usize, char)> = Vec::new();
    let mut i: usize = 0;
    while i < base_codes.len()
        invariant
            i <= base_codes@.len(),
            pairs@.len() == i,
            forall|k: int|
                0 <= k < i ==> (#[trigger] pairs@[k]).0 == base_codes@[k].code@.len()
                    && pairs@[k].1 == base_codes@[k].c,
        decreases base_codes@.len() - i,
    {
        let len = base_codes[i].code.as_str().unicode_len();
        pairs.push((len, base_codes[i].symbol()));
        i = i + 1;
    }
    assert(lengths_view(pairs@) =~= code_lengths(codes_view(base_codes@)));
    let sorted = sort_lengths(&pairs);
    proof {
        lemma_canonical_order_total();
        code_lengths(codes_view(base_codes@)).lemma_sort_by_ensures(canonical_order());
    }
    assign_canonical(&sorted)
}

/// The code lengths and canonical codes that belong to a table of base
/// codes.
pub struct Canonical {
    pub base_codes: SymbolMap<String>,
    /// The symbols with their canonical codes.
    pub canon_codes: SymbolMap<String>,
    /// The code lengths of the symbols of `code_chars`, place by place.
    pub code_lens: Vec<usize>,
    /// The symbols whose code lengths `code_lens` holds.
    pub code_chars: Vec<char>,
}

/// The lengths and symbols of two lists taken together place by place, as
/// far as both lists reach.
pub open spec fn zipped_lengths(lens: Seq<usize>, symbols: Seq<char>) -> Seq<LengthEntry> {
    Seq::new(
        if lens.len() <= symbols.len() {
            lens.len()
        } else {
            symbols.len()
        },
        |i: int| (lens[i] as nat, symbols[i]),
    )
}

/// The lengths of the codes of a map from symbols to code strings.
pub open spec fn entry_lengths(entries: Seq<(char, String)>) -> Seq<usize> {
    entries.map_values(|entry: (char, String)| entry.1@.len() as usize)
}

/// The symbols of a map from symbols to code strings.
pub open spec fn entry_symbols(entries: Seq<(char, String)>) -> Seq<char> {
    entries.map_values(|entry: (char, String)| entry.0)
}

impl Default for Canonical {
    fn default() -> (canonical: Self)
        ensures
            canonical.base_codes.wf(),
            canonical.base_codes@.len() == 0,
            canonical.canon_codes.wf(),
            canonical.canon_codes@.len() == 0,
            canonical.code_lens@.len() == 0,
            canonical.code_chars@.len() == 0,
    {
        Canonical {
            base_codes: SymbolMap::new(),
            canon_codes: SymbolMap::new(),
            code_lens: Vec::new(),
            code_chars: Vec::new(),
        }
    }
}

impl Canonical {
    /// Derives the canonical codes from the base codes. The length and the
    /// symbol of each base code are appended to `code_lens` and
    /// `code_chars`; the two lists, taken together place by place, are put
    /// into canonical order; and each symbol's canonical code is stored in
    /// `canon_codes`, in place of a code stored for it before.
    pub fn generate_canon_codes(&mut self)
        requires
            old(self).base_codes.wf(),
            old(self).canon_codes.wf(),
        ensures
            final(self).base_codes == old(self).base_codes,
            final(self).code_lens@ == old(self).code_lens@ + entry_lengths(old(self).base_codes@),
            final(self).code_chars@ == old(self).code_chars@ + entry_symbols(
                old(self).base_codes@,
            ),
            final(self).canon_codes.wf(),
            code_entries(final(self).canon_codes@) == with_codes(
                code_entries(old(self).canon_codes@),
                assign_codes(
                    zipped_lengths(final(self).code_lens@, final(self).code_chars@).sort_by(
                        canonical_order(),
                    ),
                ),
            ),
    {
        let ghost base = self.base_codes@;
        let ghost old_lens = self.code_lens@;
        let ghost old_chars = self.code_chars@;
        let entries = self.base_codes.as_slice();
        let mut i: usize = 0;
        while i < entries.len()
            invariant
                i <= base.len(),
                entries@ == base,
                self.base_codes == old(self).base_codes,
                self.canon_codes == old(self).canon_codes,
                self.code_lens@ == old_lens + entry_lengths(base.take(i as int)),
                self.code_chars@ == old_chars + entry_symbols(base.take(i as int)),
            decreases base.len() - i,
        {
            let len = entries[i].1.as_str().unicode_len();
            self.code_lens.push(len);
            self.code_chars.push(entries[i].0);
            assert(self.code_lens@ =~= old_lens + entry_lengths(base.take(i + 1)));
            assert(self.code_chars@ =~= old_chars + entry_symbols(base.take(i + 1)));
            i = i + 1;
        }
        assert(base.take(i as int) =~= base);
        let mut pairs: Vec<(usize, char)> = Vec::new();
        let mut j: usize = 0;
        while j < self.code_lens.len() && j < self.code_chars.len()
            invariant
                j <= self.code_lens@.len(),
                j <= self.code_chars@.len(),
                pairs@.len() == j,
                forall|k: int|
                    0 <= k < j ==> #[trigger] pairs@[k] == (self.code_lens@[k], self.code_chars@[k]),
            decreases self.code_lens@.len() - j,
        {
            pairs.push((self.code_lens[j], self.code_chars[j]));
            j = j + 1;
        }
        assert(lengths_view(pairs@) =~= zipped_lengths(self.code_lens@, self.code_chars@));
        let sorted = sort_lengths(&pairs);
        proof {
            lemma_canonical_order_total();
            lengths_view(pairs@).lemma_sort_by_ensures(canonical_order());
        }
        let codes = assign_canonical(&sorted);
        let ghost assigned = codes_view(codes@);
        let ghost start = code_entries(self.canon_codes@);
        let mut k: usize = 0;
        while k < codes.len()
            invariant
                k <= codes@.len(),
                assigned == codes_view(codes@),
                self.base_codes == old(self).base_codes,
                self.code_lens@ == old_lens + entry_lengths(base),
                self.code_chars@ == old_chars + entry_symbols(base),
                self.canon_codes.wf(),
                code_entries(self.canon_codes@) == with_codes(start, assigned.take(k as int)),
            decreases codes@.len() - k,
        {
            let symbol = codes[k].symbol();
            let code = codes[k].code.clone();
            proof {
                lemma_code_entries_with_entry(self.canon_codes@, symbol, code);
                assert(assigned.take(k + 1).drop_last() =~= assigned.take(k as int));
                assert(assigned.take(k + 1).last() == (symbol, code@));
            }
            self.canon_codes.insert(symbol, code);
            k = k + 1;
        }
        assert(assigned.take(k as int) =~= assigned);
    }
}

fn symbol_at(pairs: &Vec<(usize, char)>, i: usize) -> (symbol: char)
    requires
        i < pairs@.len(),
    ensures
        symbol == pairs@[i as int].1,
{
    pairs[i].1
}

/// Assigns the canonical codes to lengths and symbols in canonical order.
pub fn assign_canonical(sorted: &Vec<(usize, char)>) -> (codes: Vec<Code>)
    requires
        sorted_by(lengths_view(sorted@), canonical_order()),
    ensures
        codes_view(codes@) == assign_codes(lengths_view(sorted@)),
{
    let ghost entries = lengths_view(sorted@);
    let mut codes: Vec<Code> = Vec::new();
    let mut current: Vec<char> = Vec::new();
    let mut i: usize = 0;
    while i < sorted.len()
        invariant
            i <= sorted@.len(),
            entries == lengths_view(sorted@),
            sorted_by(entries, canonical_order()),
            codes@.len() == i,
            forall|k: int| 0 <= k < i ==> (#[trigger] codes@[k])@ == assign_codes(entries)[k],
            i > 0 ==> current@ == to_bits(canon_value(entries, i - 1), entries[i - 1].0),
            i == 0 ==> current@.len() == 0,
        decreases sorted@.len() - i,
    {
        let len = sorted[i].0;
        let symbol = symbol_at(sorted, i);
        assert(entries[i as int] == (len as nat, symbol));
        proof {
            if i > 0 {
                lemma_next_code(entries, i as int);
                lemma_to_bits_len(canon_value(entries, i - 1), entries[i - 1].0);
                lemma_bits_succ_len(current@);
            } else {
                lemma_first_code(entries);
                assert(current@ + zero_bits(len as nat) =~= zero_bits(len as nat));
            }
        }
        if i > 0 {
            increment_bits(&mut current);
        }
        pad_zero_bits(&mut current, len);
        assert(current@ == to_bits(canon_value(entries, i as int), len as nat));
        let code = string_of_chars(&current);
        codes.push(Code::new(code, symbol));
        i = i + 1;
    }
    assert(codes_view(codes@) =~= assign_codes(entries));
    codes
}

} // verus!
