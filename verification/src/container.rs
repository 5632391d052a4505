//! A written container is read back as what it was written from.

use crate::decoder::{
    decode_payload, end_marker_at, entry_at, entry_end, entry_key, is_scalar_value, lookup_map,
    parse_container, parse_entries, u32_from_le, HeaderEntry,
};
use crate::codec::decompressed;
use crate::encoder::{
    code_of, codes_fit, entry_bytes, header_body, header_bytes, header_entry_bytes,
    is_first_code, payload_bytes, u32_to_le, END_PATTERN, MAX_CODE_BITS, START_PATTERN,
};
use crate::error::CodecError;
use crate::huffman::SymbolCode;
use crate::kraft::{is_prefix, prefix_free};
use crate::symbol_map::has_symbol;
use crate::utils::{is_bit_string, lemma_pack_bits_prefix, pack_bits, packed_len};
use vstd::prelude::*;

verus! {

/// The header entry that the parser reads back for a code: the code point
/// of the symbol, and the length byte followed by the packed bits.
pub open spec fn header_entry(code: SymbolCode) -> HeaderEntry {
    (code.0 as u32, entry_bytes(code.1))
}

/// The header entries that the parser reads back for a list of codes.
pub open spec fn header_entries(table: Seq<SymbolCode>) -> Seq<HeaderEntry> {
    table.map_values(|code: SymbolCode| header_entry(code))
}

/// Whether the header entry of `symbol` begins with the two bytes of the
/// end marker. The parser takes such an entry for the end of the header.
pub open spec fn hides_end_marker(symbol: char) -> bool {
    (symbol as u32) % 0x10000 == 0x01EF
}

/// Whether no symbol of the list has a header entry that begins like the
/// end marker.
pub open spec fn marker_free(table: Seq<SymbolCode>) -> bool {
    forall|i: int| 0 <= i < table.len() ==> !hides_end_marker((#[trigger] table[i]).0)
}

/// Whether the header entry of `symbol` begins with the two bytes of the
/// end marker.
pub fn symbol_hides_end_marker(symbol: char) -> (hides: bool)
    ensures
        hides == hides_end_marker(symbol),
{
    symbol as u32 % 0x10000 == 0x01EF
}

/// Whether no character of `text` has a header entry that begins like the
/// end marker, so that the container of the text can be read back.
pub fn text_is_marker_free(text: &str) -> (free: bool)
    ensures
        free == forall|i: int| 0 <= i < text@.len() ==> !hides_end_marker(#[trigger] text@[i]),
{
    for c in it: text.chars()
        invariant
            it.seq() == text@,
            forall|i: int| 0 <= i < it.index() ==> !hides_end_marker(#[trigger] text@[i]),
    {
        if symbol_hides_end_marker(c) {
            assert(hides_end_marker(text@[it.index()]));
            return false;
        }
    }
    true
}

/// Four bytes in little-endian order spell the number they were made from.
pub proof fn lemma_u32_le_round_trip(value: u32)
    ensures
        u32_to_le(value).len() == 4,
        u32_from_le(
            u32_to_le(value)[0],
            u32_to_le(value)[1],
            u32_to_le(value)[2],
            u32_to_le(value)[3],
        ) == value,
{
}

/// The header entries of a list begin with the entry of its first code.
pub proof fn lemma_header_body_first(table: Seq<SymbolCode>)
    requires
        table.len() > 0,
    ensures
        header_body(table) == header_entry_bytes(table[0]) + header_body(table.drop_first()),
    decreases table.len(),
{
    if table.len() == 1 {
        assert(table.drop_last() =~= Seq::<SymbolCode>::empty());
        assert(table.drop_first() =~= Seq::<SymbolCode>::empty());
        assert(header_body(table.drop_last()) =~= Seq::<u8>::empty());
        assert(header_body(table) =~= header_entry_bytes(table[0]) + header_body(
            table.drop_first(),
        ));
    } else {
        let front = table.drop_last();
        lemma_header_body_first(front);
        assert(front.drop_first() =~= table.drop_first().drop_last());
        assert(table.drop_first().last() == table.last());
        assert(header_body(table) =~= header_entry_bytes(table[0]) + header_body(
            table.drop_first(),
        ));
    }
}

/// The parser reads a written header back entry by entry and stops behind
/// its end marker, provided that every code fits the length byte and no
/// entry begins like the end marker.
pub proof fn lemma_parse_entries_written(
    before: Seq<u8>,
    table: Seq<SymbolCode>,
    after: Seq<u8>,
)
    requires
        codes_fit(table),
        marker_free(table),
    ensures
        parse_entries(before + header_body(table) + END_PATTERN@ + after, before.len() as int)
            == Some(
            (header_entries(table), before.len() as int + header_body(table).len() as int + 2),
        ),
    decreases table.len(),
{
    let bytes = before + header_body(table) + END_PATTERN@ + after;
    let pos = before.len() as int;
    if table.len() == 0 {
        assert(header_body(table) =~= Seq::<u8>::empty());
        assert(bytes[pos] == END_PATTERN@[0]);
        assert(bytes[pos + 1] == END_PATTERN@[1]);
        assert(header_entries(table) =~= Seq::<HeaderEntry>::empty());
    } else {
        let first = table[0];
        let rest = table.drop_first();
        let entry = header_entry_bytes(first);
        let point = u32_to_le(first.0 as u32);
        lemma_header_body_first(table);
        lemma_u32_le_round_trip(first.0 as u32);
        assert(first.1.len() <= MAX_CODE_BITS);
        assert(entry.len() == 5 + packed_len(first.1.len()));
        assert forall|k: int| 0 <= k < entry.len() implies bytes[pos + k] == entry[k] by {}
        assert(bytes[pos] == point[0]);
        assert(bytes[pos + 1] == point[1]);
        assert(bytes[pos + 2] == point[2]);
        assert(bytes[pos + 3] == point[3]);
        assert(bytes[pos + 4] == first.1.len() as u8);
        assert(!hides_end_marker(first.0));
        assert(!end_marker_at(bytes, pos)) by {
            let value = first.0 as u32;
            if point[0] == 0xEF && point[1] == 0x01 {
                assert(value % 256 == 0xEF);
                assert(value / 256 % 256 == 0x01);
                assert(value % 0x10000 == 0x01EF);
            }
        }
        assert(entry_end(bytes, pos) == pos + entry.len());
        assert(entry_at(bytes, pos) == header_entry(first)) by {
            assert(bytes.subrange(pos + 4, pos + entry.len()) =~= entry_bytes(first.1));
        }
        assert(codes_fit(rest)) by {
            assert forall|i: int| 0 <= i < rest.len() implies (#[trigger] rest[i]).1.len()
                <= MAX_CODE_BITS by {
                assert(rest[i] == table[i + 1]);
            }
        }
        assert(marker_free(rest)) by {
            assert forall|i: int| 0 <= i < rest.len() implies !hides_end_marker(
                (#[trigger] rest[i]).0,
            ) by {
                assert(rest[i] == table[i + 1]);
            }
        }
        lemma_parse_entries_written(before + entry, rest, after);
        assert(before + entry + header_body(rest) + END_PATTERN@ + after =~= bytes);
        assert(header_entries(table) =~= seq![header_entry(first)] + header_entries(rest));
    }
}

/// A container that was written from a list of codes is parsed back into
/// the header entries of those codes and the payload that follows them.
pub proof fn lemma_parse_written(table: Seq<SymbolCode>, payload: Seq<u8>)
    requires
        codes_fit(table),
        marker_free(table),
    ensures
        header_bytes(table) is Ok,
        parse_container(header_bytes(table)->Ok_0 + payload) == Ok::<
            (Seq<HeaderEntry>, Seq<u8>),
            crate::error::CodecError,
        >((header_entries(table), payload)),
{
    let header = header_bytes(table)->Ok_0;
    let bytes = header + payload;
    lemma_parse_entries_written(START_PATTERN@, table, payload);
    assert(START_PATTERN@ + header_body(table) + END_PATTERN@ + payload =~= bytes);
    assert(bytes[0] == START_PATTERN@[0]);
    assert(bytes[1] == START_PATTERN@[1]);
    assert(bytes.skip(header_body(table).len() as int + 4) =~= payload);
}

/// Whether no two entries of a header are looked up under the same key.
pub open spec fn keys_distinct(header: Seq<HeaderEntry>) -> bool {
    forall|i: int, j: int|
        0 <= i < header.len() && 0 <= j < header.len() && i != j ==> entry_key(
            #[trigger] header[i],
        ) != entry_key(#[trigger] header[j])
}

/// Where no key occurs twice, the lookup table of a header holds for each
/// entry the character that its code point stands for.
pub proof fn lemma_lookup_map_entry(header: Seq<HeaderEntry>, i: int)
    requires
        keys_distinct(header),
        0 <= i < header.len(),
    ensures
        lookup_map(header).contains_key(entry_key(header[i])),
        lookup_map(header)[entry_key(header[i])] == header[i].0 as char,
    decreases header.len(),
{
    let front = header.drop_last();
    if i < header.len() - 1 {
        assert(keys_distinct(front)) by {
            assert forall|a: int, b: int|
                0 <= a < front.len() && 0 <= b < front.len() && a != b implies entry_key(
                #[trigger] front[a],
            ) != entry_key(#[trigger] front[b]) by {
                assert(front[a] == header[a]);
                assert(front[b] == header[b]);
            }
        }
        lemma_lookup_map_entry(front, i);
        assert(front[i] == header[i]);
        assert(entry_key(header[i]) != entry_key(header[header.len() - 1]));
    }
}

/// Codes that are prefix-free bit strings are packed into different bytes.
pub proof fn lemma_written_keys_distinct(table: Seq<SymbolCode>)
    requires
        prefix_free(table),
        forall|i: int| 0 <= i < table.len() ==> is_bit_string((#[trigger] table[i]).1),
    ensures
        keys_distinct(header_entries(table)),
        forall|i: int|
            0 <= i < table.len() ==> entry_key(#[trigger] header_entries(table)[i]) == pack_bits(
                table[i].1,
            ),
{
    let header = header_entries(table);
    assert forall|i: int| 0 <= i < table.len() implies entry_key(#[trigger] header[i])
        == pack_bits(table[i].1) by {
        assert(entry_bytes(table[i].1).skip(1) =~= pack_bits(table[i].1));
    }
    assert forall|i: int, j: int|
        0 <= i < header.len() && 0 <= j < header.len() && i != j implies entry_key(
        #[trigger] header[i],
    ) != entry_key(#[trigger] header[j]) by {
        let a = table[i].1;
        let b = table[j].1;
        if pack_bits(a) == pack_bits(b) {
            if a.len() <= b.len() {
                lemma_pack_bits_prefix(a, b);
                assert(is_prefix(table[i].1, table[j].1));
            } else {
                lemma_pack_bits_prefix(b, a);
                assert(is_prefix(table[j].1, table[i].1));
            }
        }
    }
}

/// A payload that decodes, followed by more payload, decodes to the text
/// of the first followed by the text of the second.
pub proof fn lemma_decode_append(first: Seq<u8>, second: Seq<u8>, table: Map<Seq<u8>, char>)
    requires
        decode_payload(first, table) is Ok,
    ensures
        decode_payload(first + second, table) == match decode_payload(second, table) {
            Ok(text) => Ok::<Seq<char>, CodecError>(decode_payload(first, table)->Ok_0 + text),
            Err(e) => Err(e),
        },
    decreases first.len(),
{
    let both = first + second;
    if first.len() == 0 {
        assert(both =~= second);
        match decode_payload(second, table) {
            Ok(text) => {
                assert(Seq::<char>::empty() + text =~= text);
            },
            Err(_) => {},
        }
    } else {
        let n = packed_len(first[0] as nat) as int;
        assert(both[0] == first[0]);
        assert(both.subrange(1, 1 + n) =~= first.subrange(1, 1 + n));
        assert(both.skip(1 + n) =~= first.skip(1 + n) + second);
        lemma_decode_append(first.skip(1 + n), second, table);
        let symbol = table[first.subrange(1, 1 + n)];
        match decode_payload(second, table) {
            Ok(text) => {
                let rest = decode_payload(first.skip(1 + n), table)->Ok_0;
                assert(seq![symbol] + (rest + text) =~= (seq![symbol] + rest) + text);
            },
            Err(_) => {},
        }
    }
}

/// One payload entry decodes to the character stored under its packed bits.
pub proof fn lemma_decode_entry(code: Seq<char>, table: Map<Seq<u8>, char>)
    requires
        code.len() <= MAX_CODE_BITS,
        table.contains_key(pack_bits(code)),
    ensures
        decode_payload(entry_bytes(code), table) == Ok::<Seq<char>, CodecError>(
            seq![table[pack_bits(code)]],
        ),
{
    let data = entry_bytes(code);
    let n = packed_len(code.len()) as int;
    assert(data[0] == code.len() as u8);
    assert(data.subrange(1, 1 + n) =~= pack_bits(code));
    assert(data.skip(1 + n) =~= Seq::<u8>::empty());
    assert(decode_payload(data.skip(1 + n), table) == Ok::<Seq<char>, CodecError>(Seq::empty()));
    assert(seq![table[pack_bits(code)]] + Seq::<char>::empty() =~= seq![table[pack_bits(code)]]);
}

/// A written payload decodes to the text it was written for, under every
/// lookup table that leads from the packed bits of each code back to the
/// symbol of the code.
pub proof fn lemma_decode_written(
    text: Seq<char>,
    codes: Seq<SymbolCode>,
    table: Map<Seq<u8>, char>,
)
    requires
        payload_bytes(text, codes) is Ok,
        forall|i: int|
            0 <= i < codes.len() ==> table.contains_key(pack_bits((#[trigger] codes[i]).1))
                && table[pack_bits(codes[i].1)] == codes[i].0,
    ensures
        decode_payload(payload_bytes(text, codes)->Ok_0, table) == Ok::<Seq<char>, CodecError>(
            text,
        ),
    decreases text.len(),
{
    if text.len() > 0 {
        let front = text.drop_last();
        let last = text.last();
        lemma_decode_written(front, codes, table);
        let at = choose|at: int| is_first_code(codes, last, at);
        assert(has_symbol(codes, last));
        assert(is_first_code(codes, last, at)) by {
            lemma_first_code_exists(codes, last);
        }
        let code = code_of(codes, last);
        assert(code == codes[at].1);
        lemma_decode_entry(code, table);
        lemma_decode_append(payload_bytes(front, codes)->Ok_0, entry_bytes(code), table);
        assert(payload_bytes(text, codes)->Ok_0 == payload_bytes(front, codes)->Ok_0
            + entry_bytes(code));
        assert(front + seq![last] =~= text);
    } else {
        assert(text =~= Seq::<char>::empty());
    }
}

/// A symbol that has a code has a first code.
pub proof fn lemma_first_code_exists(codes: Seq<SymbolCode>, symbol: char)
    requires
        has_symbol(codes, symbol),
    ensures
        exists|at: int| is_first_code(codes, symbol, at),
    decreases codes.len(),
{
    let front = codes.drop_last();
    if has_symbol(front, symbol) {
        lemma_first_code_exists(front, symbol);
        let at = choose|at: int| is_first_code(front, symbol, at);
        assert(codes[at] == front[at]);
        assert forall|k: int| 0 <= k < at implies (#[trigger] codes[k]).0 != symbol by {
            assert(codes[k] == front[k]);
        }
        assert(is_first_code(codes, symbol, at));
    } else {
        let i = choose|i: int| 0 <= i < codes.len() && (#[trigger] codes[i]).0 == symbol;
        if i < front.len() {
            assert(front[i].0 == symbol);
        }
        assert forall|k: int| 0 <= k < codes.len() - 1 implies (#[trigger] codes[k]).0
            != symbol by {
            if codes[k].0 == symbol {
                assert(front[k].0 == symbol);
            }
        }
        assert(is_first_code(codes, symbol, codes.len() - 1));
    }
}

/// A container written with prefix-free codes is read back as the text it
/// was written for, provided that no header entry begins like the end
/// marker.
pub proof fn lemma_container_round_trip(text: Seq<char>, codes: Seq<SymbolCode>)
    requires
        prefix_free(codes),
        forall|i: int| 0 <= i < codes.len() ==> is_bit_string((#[trigger] codes[i]).1),
        marker_free(codes),
        header_bytes(codes) is Ok,
        payload_bytes(text, codes) is Ok,
    ensures
        decompressed(header_bytes(codes)->Ok_0 + payload_bytes(text, codes)->Ok_0) == Ok::<
            Seq<char>,
            CodecError,
        >(text),
{
    let payload = payload_bytes(text, codes)->Ok_0;
    let header = header_entries(codes);
    lemma_parse_written(codes, payload);
    lemma_written_keys_distinct(codes);
    assert forall|i: int| 0 <= i < header.len() implies is_scalar_value(
        (#[trigger] header[i]).0,
    ) by {
        vstd::utf8::char_is_scalar(codes[i].0);
    }
    let table = lookup_map(header);
    assert forall|i: int| 0 <= i < codes.len() implies table.contains_key(
        pack_bits((#[trigger] codes[i]).1),
    ) && table[pack_bits(codes[i].1)] == codes[i].0 by {
        lemma_lookup_map_entry(header, i);
        assert(entry_key(header[i]) == pack_bits(codes[i].1));
        vstd::utf8::char_u32_cast(codes[i].0, codes[i].0 as u32);
    }
    lemma_decode_written(text, codes, table);
}

} // verus!
