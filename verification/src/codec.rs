//! The whole way from a text to a container and back, and what holds of it.

use crate::bits::zero_bits;
use crate::canonical::{
    canonical_codes, canonical_order, code_lengths, lemma_canonical_codes_depend_on_lengths,
    lemma_canonical_order_total, lemma_canonical_symbols, lemma_first_code,
};
use crate::container::{
    hides_end_marker, lemma_container_round_trip, lemma_first_code_exists, marker_free,
};
use crate::decoder::{decode_payload, is_scalar_value, lookup_map, parse_container, Decoder};
use crate::encoder::{
    code_of, codes_fit, codes_view, header_bytes, is_first_code, payload_bytes, Code, Encoder,
};
use crate::error::CodecError;
use crate::frequency::{
    count_in, frequency_table, lemma_frequency_table, lemma_frequency_total,
    lemma_occurrences_bound, occurrences,
};
use crate::huffman::{huffman_tree, total_weight, tree_codes, HuffNode, HuffTree, SymbolCode};
use crate::kraft::{
    kraft_sum, lemma_canonical_kraft, lemma_canonical_prefix_free, lemma_kraft_permutation,
    lemma_single_leaf_kraft, lemma_tree_kraft, lengths_within, prefix_free,
};
use crate::tree_shape::{
    lemma_height_bound, lemma_huffman_tree, lemma_huffman_tree_height, lemma_tree_codes_count,
};
use crate::symbol_map::{
    entry_count, has_symbol, lemma_entries_unique, lemma_entry_count_increasing,
    lemma_entry_count_positive, lemma_entry_found, symbols_increasing, value_of,
};
use crate::utils::is_bit_string;
use crate::{generate_base_codes, generate_canonical_codes};
use vstd::arithmetic::power2::pow2;
use vstd::prelude::*;
use vstd::seq_lib::lemma_sorted_unique;

verus! {

/// The base codes of the prefix tree of a frequency table: none for the
/// empty table.
pub open spec fn base_codes_of(table: Seq<(char, u64)>) -> Seq<SymbolCode> {
    match huffman_tree(table) {
        Some(root) => tree_codes(root, Seq::empty()),
        None => Seq::empty(),
    }
}

/// The canonical codes that a text is written with.
pub open spec fn codes_of_text(text: Seq<char>) -> Seq<SymbolCode> {
    canonical_codes(base_codes_of(frequency_table(text)))
}

/// The container for a text: the header with the canonical codes of the
/// text, then the payload.
pub open spec fn compressed(text: Seq<char>) -> Result<Seq<u8>, CodecError> {
    match header_bytes(codes_of_text(text)) {
        Err(e) => Err(e),
        Ok(header) => match payload_bytes(text, codes_of_text(text)) {
            Err(e) => Err(e),
            Ok(payload) => Ok(header + payload),
        },
    }
}

/// The text that a container holds.
pub open spec fn decompressed(bytes: Seq<u8>) -> Result<Seq<char>, CodecError> {
    match parse_container(bytes) {
        Err(e) => Err(e),
        Ok((header, data)) => {
            if forall|i: int| 0 <= i < header.len() ==> is_scalar_value((#[trigger] header[i]).0) {
                decode_payload(data, lookup_map(header))
            } else {
                Err(CodecError::InvalidSymbol)
            }
        },
    }
}

/// The canonical codes of a text are for the characters of the text: each
/// character that occurs has exactly one code, and no other symbol has one.
pub proof fn lemma_codes_of_text_symbols(text: Seq<char>, symbol: char)
    requires
        text.len() <= usize::MAX,
    ensures
        entry_count(codes_of_text(text), symbol) == if text.contains(symbol) {
            1nat
        } else {
            0nat
        },
        codes_of_text(text).len() == frequency_table(text).len(),
{
    let table = frequency_table(text);
    let base = base_codes_of(table);
    lemma_frequency_table(text);
    lemma_frequency_total(text);
    lemma_entry_count_increasing(table, symbol);
    lemma_huffman_tree(table, symbol);
    match huffman_tree(table) {
        Some(root) => {
            lemma_tree_codes_count(root, Seq::empty(), symbol);
        },
        None => {},
    }
    lemma_canonical_symbols(base, symbol);
}

/// The lengths of the base codes of a frequency table obey the Kraft
/// inequality, and no code is longer than the table has entries.
pub proof fn lemma_base_codes_kraft(table: Seq<(char, u64)>)
    requires
        total_weight(table) <= u64::MAX,
    ensures
        lengths_within(code_lengths(base_codes_of(table)), table.len()),
        kraft_sum(code_lengths(base_codes_of(table)), table.len()) <= pow2(table.len()),
        table.len() >= 2 ==> kraft_sum(code_lengths(base_codes_of(table)), table.len()) == pow2(
            table.len(),
        ),
        table.len() >= 2 ==> forall|i: int|
            0 <= i < base_codes_of(table).len() ==> (#[trigger] code_lengths(
                base_codes_of(table),
            )[i]).0 < table.len(),
{
    let bound = table.len();
    let base = base_codes_of(table);
    lemma_huffman_tree(table, 'a');
    match huffman_tree(table) {
        Some(root) => {
            lemma_height_bound(root);
            if root is Internal {
                lemma_tree_kraft(root, Seq::empty(), bound);
                lemma_tree_kraft(root, Seq::empty(), (bound - 1) as nat);
            } else {
                lemma_single_leaf_kraft(root, bound);
                vstd::arithmetic::power2::lemma_pow2_unfold(bound);
            }
        },
        None => {
            assert(kraft_sum(code_lengths(base), bound) == 0);
        },
    }
}

/// The canonical codes of a text are prefix-free strings of bits: no
/// code is a prefix of the code of another symbol.
pub proof fn lemma_codes_of_text_prefix_free(text: Seq<char>)
    requires
        text.len() <= usize::MAX,
    ensures
        prefix_free(codes_of_text(text)),
        forall|i: int|
            0 <= i < codes_of_text(text).len() ==> is_bit_string(
                (#[trigger] codes_of_text(text)[i]).1,
            ),
{
    let table = frequency_table(text);
    lemma_frequency_total(text);
    lemma_base_codes_kraft(table);
    lemma_canonical_prefix_free(base_codes_of(table), table.len());
    lemma_canonical_symbols(base_codes_of(table), 'a');
}

/// Kraft equality: for a text with at least two different characters the
/// code lengths add up to the whole code space, that is, the sum of two to
/// the power of minus the length, over all codes, is one.
pub proof fn lemma_codes_of_text_kraft(text: Seq<char>)
    requires
        text.len() <= usize::MAX,
        frequency_table(text).len() >= 2,
    ensures
        kraft_sum(code_lengths(codes_of_text(text)), frequency_table(text).len()) == pow2(
            frequency_table(text).len(),
        ),
{
    let table = frequency_table(text);
    lemma_frequency_total(text);
    lemma_base_codes_kraft(table);
    lemma_canonical_kraft(base_codes_of(table), table.len());
}

/// The header does not depend on how a frequency table came about: two
/// tables that hold the same symbols with the same counts, whatever the
/// order in which the symbols were counted, lead to the same header.
pub proof fn lemma_header_of_equal_tables(a: Seq<(char, u64)>, b: Seq<(char, u64)>)
    requires
        symbols_increasing(a),
        symbols_increasing(b),
        forall|c: char| has_symbol(a, c) <==> has_symbol(b, c),
        forall|c: char| has_symbol(a, c) ==> value_of(a, c) == value_of(b, c),
    ensures
        header_bytes(canonical_codes(base_codes_of(a))) == header_bytes(
            canonical_codes(base_codes_of(b)),
        ),
{
    lemma_entries_unique(a, b);
}

/// The header does not depend on the shape of the tree beyond the code
/// lengths: two lists of base codes that give the same symbols the same
/// code lengths, as the trees of two ways through ties may do, lead to the
/// same header, byte for byte.
pub proof fn lemma_header_depends_on_lengths(a: Seq<SymbolCode>, b: Seq<SymbolCode>)
    requires
        code_lengths(a).to_multiset() == code_lengths(b).to_multiset(),
    ensures
        header_bytes(canonical_codes(a)) == header_bytes(canonical_codes(b)),
{
    lemma_canonical_codes_depend_on_lengths(a, b);
}

/// A text of one character, however often repeated, is written with the
/// one-bit code `"0"`.
pub proof fn lemma_single_symbol_code(text: Seq<char>)
    requires
        0 < text.len() <= usize::MAX,
        forall|i: int| 0 <= i < text.len() ==> #[trigger] text[i] == text[0],
    ensures
        codes_of_text(text) == seq![(text[0], seq!['0'])],
{
    let table = frequency_table(text);
    let symbol = text[0];
    lemma_frequency_table(text);
    lemma_frequency_total(text);
    assert(text.contains(symbol));
    assert(has_symbol(table, symbol));
    assert(table.len() == 1) by {
        if table.len() >= 2 {
            lemma_entry_found(table, 0);
            lemma_entry_found(table, 1);
            assert(text.contains(table[0].0));
            assert(text.contains(table[1].0));
            let k0 = choose|k: int| 0 <= k < text.len() && text[k] == table[0].0;
            let k1 = choose|k: int| 0 <= k < text.len() && text[k] == table[1].0;
            assert(text[k0] == text[0]);
            assert(text[k1] == text[0]);
            assert(table[0].0 != table[1].0);
        }
    }
    lemma_huffman_tree(table, symbol);
    let root = huffman_tree(table)->Some_0;
    assert(root is Leaf) by {
        if let HuffNode::Internal { left, right, .. } = root {
            lemma_height_bound(*left);
            lemma_height_bound(*right);
        }
    }
    lemma_entry_count_increasing(table, symbol);
    assert(root.leaf_count(symbol) == 1);
    let base = base_codes_of(table);
    assert(base =~= seq![(symbol, seq!['0'])]);
    let lengths = code_lengths(base);
    let sorted = lengths.sort_by(canonical_order());
    lemma_canonical_order_total();
    lengths.lemma_sort_by_ensures(canonical_order());
    lemma_sorted_unique(sorted, lengths, canonical_order());
    assert(sorted =~= seq![(1nat, symbol)]);
    lemma_first_code(sorted);
    assert(zero_bits(1) =~= seq!['0']);
    assert(codes_of_text(text) =~= seq![(symbol, seq!['0'])]);
}

/// Where every character of a text has a code that fits the length byte,
/// the payload can be written.
pub proof fn lemma_payload_written(text: Seq<char>, codes: Seq<SymbolCode>)
    requires
        codes_fit(codes),
        forall|i: int| 0 <= i < text.len() ==> has_symbol(codes, #[trigger] text[i]),
    ensures
        payload_bytes(text, codes) is Ok,
    decreases text.len(),
{
    if text.len() > 0 {
        let front = text.drop_last();
        assert forall|i: int| 0 <= i < front.len() implies has_symbol(
            codes,
            #[trigger] front[i],
        ) by {
            assert(front[i] == text[i]);
        }
        lemma_payload_written(front, codes);
        let last = text.last();
        assert(has_symbol(codes, text[text.len() - 1]));
        lemma_first_code_exists(codes, last);
        let at = choose|at: int| is_first_code(codes, last, at);
        assert(code_of(codes, last) == codes[at].1);
    }
}

/// No code of a text is longer than 129 bits, so every code fits the length
/// byte: every count of the frequency table is at least one, and the
/// weight of a tree grows with its height as the Fibonacci numbers do.
pub proof fn lemma_codes_of_text_fit(text: Seq<char>)
    requires
        text.len() <= usize::MAX,
    ensures
        forall|i: int|
            0 <= i < codes_of_text(text).len() ==> (#[trigger] codes_of_text(text)[i]).1.len()
                <= 129,
        codes_fit(codes_of_text(text)),
{
    let table = frequency_table(text);
    let base = base_codes_of(table);
    let codes = codes_of_text(text);
    let bound: nat = 129;
    lemma_frequency_total(text);
    lemma_frequency_table(text);
    assert forall|i: int| 0 <= i < table.len() implies (#[trigger] table[i]).1 >= 1 by {
        lemma_entry_found(table, i);
        lemma_occurrences_bound(text, table[i].0);
        assert(count_in(table, table[i].0) == occurrences(text, table[i].0));
    }
    lemma_huffman_tree(table, 'a');
    lemma_huffman_tree_height(table);
    let lengths = code_lengths(base);
    match huffman_tree(table) {
        Some(root) => {
            if root is Internal {
                lemma_tree_kraft(root, Seq::empty(), bound);
            } else {
                lemma_single_leaf_kraft(root, bound);
            }
        },
        None => {},
    }
    assert(lengths_within(lengths, bound));
    lemma_canonical_order_total();
    lengths.lemma_sort_by_ensures(canonical_order());
    lemma_kraft_permutation(lengths, lengths.sort_by(canonical_order()), bound);
    lemma_canonical_kraft(base, bound);
    assert forall|i: int| 0 <= i < codes.len() implies (#[trigger] codes[i]).1.len() <= 129 by {
        assert(code_lengths(codes)[i].0 <= bound);
    }
}

/// Every text can be encoded: each of its characters has a code, and each
/// code fits the length byte.
pub proof fn lemma_compressed_ok(text: Seq<char>)
    requires
        text.len() <= usize::MAX,
    ensures
        compressed(text) is Ok,
{
    let codes = codes_of_text(text);
    lemma_codes_of_text_fit(text);
    assert forall|i: int| 0 <= i < text.len() implies has_symbol(codes, #[trigger] text[i]) by {
        lemma_codes_of_text_symbols(text, text[i]);
        lemma_entry_count_positive(codes, text[i]);
    }
    lemma_payload_written(text, codes);
}

/// Round trip: every text can be encoded, and the container is decoded to
/// the same text. The text must not hold a character whose header entry
/// begins with the two bytes of the end marker, for the parser ends the
/// header there.
pub proof fn lemma_round_trip(text: Seq<char>)
    requires
        text.len() <= usize::MAX,
        forall|i: int| 0 <= i < text.len() ==> !hides_end_marker(#[trigger] text[i]),
    ensures
        compressed(text) is Ok,
        decompressed(compressed(text)->Ok_0) == Ok::<Seq<char>, CodecError>(text),
{
    let codes = codes_of_text(text);
    lemma_compressed_ok(text);
    lemma_codes_of_text_prefix_free(text);
    assert(marker_free(codes)) by {
        assert forall|i: int| 0 <= i < codes.len() implies !hides_end_marker(
            (#[trigger] codes[i]).0,
        ) by {
            let symbol = codes[i].0;
            lemma_codes_of_text_symbols(text, symbol);
            lemma_entry_count_positive(codes, symbol);
            let k = choose|k: int| 0 <= k < text.len() && text[k] == symbol;
            assert(!hides_end_marker(text[k]));
        }
    }
    lemma_container_round_trip(text, codes);
}

/// Encodes a text as a container: counts the characters, builds the
/// prefix tree, derives the canonical codes, and writes header and payload.
/// Every text can be encoded.
pub fn compress(text: String) -> (result: Result<Vec<u8>, CodecError>)
    ensures
        result matches Ok(bytes) && compressed(text@) == Ok::<Seq<u8>, CodecError>(bytes@),
{
    let mut encoder = Encoder::new(text);
    encoder.count_chars();
    proof {
        lemma_compressed_ok(text@);
    }
    let mut base_codes: Vec<Code> = Vec::new();
    match HuffTree::build_huffman_tree(&mut encoder.char_map) {
        Some(tree) => {
            generate_base_codes(*tree.root, &mut base_codes, String::new());
        },
        None => {},
    }
    assert(codes_view(base_codes@) =~= base_codes_of(frequency_table(text@)));
    encoder.canon_codes = generate_canonical_codes(base_codes);
    let mut bytes = encoder.write_header_data()?;
    let mut payload = encoder.encode()?;
    bytes.append(&mut payload);
    Ok(bytes)
}

/// Decodes a container back into its text.
pub fn decompress(bytes: &[u8]) -> (result: Result<String, CodecError>)
    ensures
        match decompressed(bytes@) {
            Ok(text) => result matches Ok(decoded) && decoded@ == text,
            Err(e) => result matches Err(err) && err == e,
        },
{
    let mut decoder = Decoder::new();
    decoder.parse_header_and_data(bytes)?;
    assert(decoder.header_view() =~= parse_container(bytes@)->Ok_0.0);
    assert(decoder.data@ =~= parse_container(bytes@)->Ok_0.1);
    let lookup_table = decoder.header_to_lookup_table()?;
    decoder.decode(lookup_table)
}

} // verus!
