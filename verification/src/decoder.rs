//! Reading a container: the header entries, the lookup table that they
//! spell out, and the text of the payload.

use crate::encoder::{END_PATTERN, START_PATTERN};
use crate::error::CodecError;
use crate::lookup::LookupTable;
use crate::utils::packed_len;
use vstd::prelude::*;
use vstd::slice::slice_subrange;

verus! {

/// A header entry as the parser keeps it: the stored code point, and the
/// length byte followed by the packed code.
pub type HeaderEntry = (u32, Seq<u8>);

/// The number that four bytes spell in little-endian order.
pub open spec fn u32_from_le(b0: u8, b1: u8, b2: u8, b3: u8) -> u32 {
    (b0 as int + 256 * (b1 as int) + 65536 * (b2 as int) + 16777216 * (b3 as int)) as u32
}

/// Whether the two bytes at `pos` are the end marker.
pub open spec fn end_marker_at(bytes: Seq<u8>, pos: int) -> bool {
    bytes[pos] == END_PATTERN[0] && bytes[pos + 1] == END_PATTERN[1]
}

/// The header entry that starts at `pos`: four bytes of code point, then
/// the length byte together with the packed bytes that it announces.
pub open spec fn entry_at(bytes: Seq<u8>, pos: int) -> HeaderEntry {
    (
        u32_from_le(bytes[pos], bytes[pos + 1], bytes[pos + 2], bytes[pos + 3]),
        bytes.subrange(pos + 4, pos + 5 + packed_len(bytes[pos + 4] as nat)),
    )
}

/// The position behind the header entry that starts at `pos`.
pub open spec fn entry_end(bytes: Seq<u8>, pos: int) -> int {
    pos + 5 + packed_len(bytes[pos + 4] as nat)
}

/// The header entries from `pos` up to the first end marker that stands
/// where an entry could start, with the position behind that marker.
/// `None` where the bytes run out before the marker.
pub open spec fn parse_entries(bytes: Seq<u8>, pos: int) -> Option<(Seq<HeaderEntry>, int)>
    decreases bytes.len() - pos,
{
    if pos < 0 || pos + 2 > bytes.len() {
        None
    } else if end_marker_at(bytes, pos) {
        Some((Seq::empty(), pos + 2))
    } else if pos + 5 > bytes.len() || entry_end(bytes, pos) > bytes.len() {
        None
    } else {
        match parse_entries(bytes, entry_end(bytes, pos)) {
            Some((rest, end)) => Some((seq![entry_at(bytes, pos)] + rest, end)),
            None => None,
        }
    }
}

/// A container split into its header entries and its payload: the start
/// marker, the entries, the end marker, and all that follows it.
pub open spec fn parse_container(bytes: Seq<u8>) -> Result<
    (Seq<HeaderEntry>, Seq<u8>),
    CodecError,
> {
    if bytes.len() < 2 || bytes[0] != START_PATTERN[0] || bytes[1] != START_PATTERN[1] {
        Err(CodecError::Format)
    } else {
        match parse_entries(bytes, 2) {
            Some((header, end)) => Ok((header, bytes.skip(end))),
            None => Err(CodecError::Format),
        }
    }
}

/// Whether `code_point` is a Unicode scalar value: a code point that is no
/// surrogate.
pub open spec fn is_scalar_value(code_point: u32) -> bool {
    code_point <= 0xD7FF || 0xE000 <= code_point <= 0x10FFFF
}

/// The key under which a header entry is looked up: its packed bytes,
/// without the length byte in front of them.
pub open spec fn entry_key(entry: HeaderEntry) -> Seq<u8> {
    if entry.1.len() == 0 {
        entry.1
    } else {
        entry.1.skip(1)
    }
}

/// The table from packed bytes to symbols that a header spells out. Of two
/// entries with the same packed bytes the later one counts.
pub open spec fn lookup_map(header: Seq<HeaderEntry>) -> Map<Seq<u8>, char>
    decreases header.len(),
{
    if header.len() == 0 {
        Map::empty()
    } else {
        lookup_map(header.drop_last()).insert(entry_key(header.last()), header.last().0 as char)
    }
}

/// The text that a payload spells out under a lookup table. Each payload
/// entry is a length byte and the packed bytes that it announces. An entry
/// that is cut short is a format error; packed bytes that the table does
/// not hold are an unknown encoding. The first fault decides.
pub open spec fn decode_payload(data: Seq<u8>, table: Map<Seq<u8>, char>) -> Result<
    Seq<char>,
    CodecError,
>
    decreases data.len(),
{
    if data.len() == 0 {
        Ok(Seq::empty())
    } else {
        let n = packed_len(data[0] as nat) as int;
        if 1 + n > data.len() {
            Err(CodecError::Format)
        } else if !table.contains_key(data.subrange(1, 1 + n)) {
            Err(CodecError::UnknownEncoding)
        } else {
            match decode_payload(data.skip(1 + n), table) {
                Ok(rest) => Ok(seq![table[data.subrange(1, 1 + n)]] + rest),
                Err(e) => Err(e),
            }
        }
    }
}

/// Header entries as plain values.
pub open spec fn entries_view(entries: Seq<(u32, Vec<u8>)>) -> Seq<HeaderEntry> {
    entries.map_values(|entry: (u32, Vec<u8>)| (entry.0, entry.1@))
}

/// A header that is not closed by the end marker is rejected: where the
/// two bytes of the end marker stand nowhere behind the start marker, the
/// container is a format error.
pub proof fn lemma_missing_end_marker(bytes: Seq<u8>)
    requires
        forall|pos: int| 2 <= pos && pos + 2 <= bytes.len() ==> !end_marker_at(bytes, pos),
    ensures
        parse_container(bytes) == Err::<(Seq<HeaderEntry>, Seq<u8>), CodecError>(
            CodecError::Format,
        ),
{
    lemma_entries_without_end(bytes, 2);
}

/// From a place behind which the end marker does not stand, no header can
/// be read.
pub proof fn lemma_entries_without_end(bytes: Seq<u8>, from: int)
    requires
        2 <= from,
        forall|pos: int| 2 <= pos && pos + 2 <= bytes.len() ==> !end_marker_at(bytes, pos),
    ensures
        parse_entries(bytes, from) is None,
    decreases bytes.len() - from,
{
    if from + 5 <= bytes.len() && entry_end(bytes, from) <= bytes.len() {
        lemma_entries_without_end(bytes, entry_end(bytes, from));
    }
}

/// The parsed parts of a container: the header entries and the payload.
#[derive(Debug)]
pub struct Decoder {
    pub header: Vec<(u32, Vec<u8>)>,
    pub data: Vec<u8>,
}

impl Decoder {
    /// A decoder that has parsed nothing yet.
    pub fn new() -> (decoder: Decoder)
        ensures
            decoder.header@.len() == 0,
            decoder.data@.len() == 0,
    {
        Self { header: Vec::new(), data: Vec::new() }
    }

    /// The header entries as plain values.
    pub open spec fn header_view(&self) -> Seq<HeaderEntry> {
        entries_view(self.header@)
    }

    /// Splits a container into header entries and payload and appends them
    /// to what the decoder holds. A container that does not begin with the
    /// start marker, whose header is not closed by the end marker, or whose
    /// last header entry is cut short is rejected, and the decoder stays as
    /// it was.
    pub fn parse_header_and_data(&mut self, raw_bytes: &[u8]) -> (result: Result<(), CodecError>)
        ensures
            match parse_container(raw_bytes@) {
                Ok((header, data)) => {
                    &&& result is Ok
                    &&& final(self).header_view() == old(self).header_view() + header
                    &&& final(self).data@ == old(self).data@ + data
                },
                Err(e) => result == Err::<(), CodecError>(e) && *final(self) == *old(self),
            },
    {
        let n = raw_bytes.len();
        if n < 2 || raw_bytes[0] != START_PATTERN[0] || raw_bytes[1] != START_PATTERN[1] {
            return Err(CodecError::Format);
        }
        let mut header: Vec<(u32, Vec<u8>)> = Vec::new();
        let mut i: usize = 2;
        loop
            invariant_except_break
                2 <= i <= n,
                n == raw_bytes@.len(),
                parse_entries(raw_bytes@, 2) == (match parse_entries(raw_bytes@, i as int) {
                    Some((rest, end)) => Some((entries_view(header@) + rest, end)),
                    None => None,
                }),
            ensures
                2 <= i <= n,
                n == raw_bytes@.len(),
                parse_entries(raw_bytes@, 2) == Some((entries_view(header@), i as int)),
            decreases n - i,
        {
            if n - i < 2 {
                return Err(CodecError::Format);
            }
            if raw_bytes[i] == END_PATTERN[0] && raw_bytes[i + 1] == END_PATTERN[1] {
                i = i + 2;
                assert(entries_view(header@) + Seq::<HeaderEntry>::empty() =~= entries_view(header@));
                break ;
            }
            if n - i < 5 {
                return Err(CodecError::Format);
            }
            let character = u32_of_le_bytes(
                raw_bytes[i],
                raw_bytes[i + 1],
                raw_bytes[i + 2],
                raw_bytes[i + 3],
            );
            let encoding_len = packed_size(raw_bytes[i + 4]);
            if n - i - 5 < encoding_len {
                return Err(CodecError::Format);
            }
            let encoding = copy_range(raw_bytes, i + 4, i + 5 + encoding_len);
            let ghost before = entries_view(header@);
            header.push((character, encoding));
            proof {
                let entry = entry_at(raw_bytes@, i as int);
                assert(entries_view(header@) =~= before + seq![entry]);
                match parse_entries(raw_bytes@, entry_end(raw_bytes@, i as int)) {
                    Some((rest, end)) => {
                        assert(before + (seq![entry] + rest) =~= (before + seq![entry]) + rest);
                    },
                    None => {},
                }
            }
            i = i + 5 + encoding_len;
        }
        let ghost old_header = entries_view(self.header@);
        let ghost parsed = entries_view(header@);
        self.header.append(&mut header);
        assert(entries_view(self.header@) =~= old_header + parsed);
        let ghost old_data = self.data@;
        let mut j: usize = i;
        while j < n
            invariant
                i <= j <= n,
                n == raw_bytes@.len(),
                self.data@ == old_data + raw_bytes@.subrange(i as int, j as int),
                entries_view(self.header@) == old_header + parsed,
            decreases n - j,
        {
            self.data.push(raw_bytes[j]);
            assert(self.data@ =~= old_data + raw_bytes@.subrange(i as int, j + 1));
            j = j + 1;
        }
        assert(raw_bytes@.subrange(i as int, n as int) =~= raw_bytes@.skip(i as int));
        Ok(())
    }

    /// Builds the table from packed code bytes to symbols. A stored code
    /// point that is no Unicode scalar value is reported, not dropped.
    pub fn header_to_lookup_table(&self) -> (result: Result<LookupTable, CodecError>)
        ensures
            match result {
                Ok(table) => {
                    &&& table.wf()
                    &&& table@ == lookup_map(self.header_view())
                    &&& forall|i: int|
                        0 <= i < self.header@.len() ==> is_scalar_value(
                            #[trigger] self.header_view()[i].0,
                        )
                },
                Err(e) => {
                    &&& e == CodecError::InvalidSymbol
                    &&& exists|i: int|
                        0 <= i < self.header@.len() && !is_scalar_value(
                            #[trigger] self.header_view()[i].0,
                        )
                },
            },
    {
        let mut lookup_table = LookupTable::new();
        let mut i: usize = 0;
        while i < self.header.len()
            invariant
                i <= self.header@.len(),
                lookup_table.wf(),
                lookup_table@ == lookup_map(self.header_view().take(i as int)),
                forall|j: int| 0 <= j < i ==> is_scalar_value(#[trigger] self.header_view()[j].0),
            decreases self.header@.len() - i,
        {
            let code_point = self.header[i].0;
            let encoding = &self.header[i].1;
            let symbol = match char::from_u32(code_point) {
                Some(c) => c,
                None => {
                    assert(!is_scalar_value(self.header_view()[i as int].0));
                    return Err(CodecError::InvalidSymbol);
                },
            };
            let start: usize = if encoding.len() == 0 {
                0
            } else {
                1
            };
            let key = copy_range(encoding.as_slice(), start, encoding.len());
            lookup_table.insert(key, symbol);
            proof {
                let done = self.header_view().take(i + 1);
                assert(done.drop_last() =~= self.header_view().take(i as int));
                assert(done.last() == self.header_view()[i as int]);
                assert(key@ =~= entry_key(done.last()));
                vstd::utf8::char_u32_cast(symbol, code_point);
            }
            i = i + 1;
        }
        assert(self.header_view().take(i as int) =~= self.header_view());
        Ok(lookup_table)
    }

    /// Reads the payload entry by entry and looks each one up. A payload
    /// entry that is cut short or that the table does not hold is an error.
    pub fn decode(&self, lookup_table: LookupTable) -> (result: Result<String, CodecError>)
        requires
            lookup_table.wf(),
        ensures
            match decode_payload(self.data@, lookup_table@) {
                Ok(text) => result matches Ok(decoded) && decoded@ == text,
                Err(e) => result matches Err(err) && err == e,
            },
    {
        let n = self.data.len();
        let mut text = String::new();
        let mut i: usize = 0;
        proof {
            assert(self.data@.skip(0) =~= self.data@);
            match decode_payload(self.data@, lookup_table@) {
                Ok(rest) => {
                    assert(text@ + rest =~= rest);
                },
                Err(_) => {},
            }
        }
        while i < n
            invariant
                i <= n,
                n == self.data@.len(),
                lookup_table.wf(),
                decode_payload(self.data@, lookup_table@) == (match decode_payload(
                    self.data@.skip(i as int),
                    lookup_table@,
                ) {
                    Ok(rest) => Ok(text@ + rest),
                    Err(e) => Err(e),
                }),
            decreases n - i,
        {
            let ghost rest = self.data@.skip(i as int);
            let encoding_len = packed_size(self.data[i]);
            if n - i - 1 < encoding_len {
                return Err(CodecError::Format);
            }
            let encoding = slice_subrange(self.data.as_slice(), i + 1, i + 1 + encoding_len);
            assert(encoding@ =~= rest.subrange(1, 1 + encoding_len));
            let symbol = match lookup_table.get(encoding) {
                Some(c) => c,
                None => {
                    return Err(CodecError::UnknownEncoding);
                },
            };
            let ghost before = text@;
            text.push(symbol);
            proof {
                assert(rest.skip(1 + encoding_len) =~= self.data@.skip(i + 1 + encoding_len));
                match decode_payload(self.data@.skip(i + 1 + encoding_len), lookup_table@) {
                    Ok(tail) => {
                        assert(before + (seq![symbol] + tail) =~= text@ + tail);
                    },
                    Err(_) => {},
                }
            }
            i = i + 1 + encoding_len;
        }
        assert(text@ + Seq::<char>::empty() =~= text@);
        Ok(text)
    }
}

/// The number that four bytes spell in little-endian order.
pub fn u32_of_le_bytes(b0: u8, b1: u8, b2: u8, b3: u8) -> (value: u32)
    ensures
        value == u32_from_le(b0, b1, b2, b3),
{
    (b0 as u32) + 256 * (b1 as u32) + 65536 * (b2 as u32) + 16777216 * (b3 as u32)
}

/// The number of bytes that a code of `bit_len` bits is packed into.
pub fn packed_size(bit_len: u8) -> (n: usize)
    ensures
        n == packed_len(bit_len as nat),
{
    (bit_len as usize + 7) / 8
}

/// A copy of the bytes from `from` up to, not including, `to`.
pub fn copy_range(bytes: &[u8], from: usize, to: usize) -> (copy: Vec<u8>)
    requires
        from <= to <= bytes@.len(),
    ensures
        copy@ == bytes@.subrange(from as int, to as int),
{
    let mut copy: Vec<u8> = Vec::new();
    let mut i: usize = from;
    while i < to
        invariant
            from <= i <= to <= bytes@.len(),
            copy@ == bytes@.subrange(from as int, i as int),
        decreases to - i,
    {
        copy.push(bytes[i]);
        assert(copy@ =~= bytes@.subrange(from as int, i + 1));
        i = i + 1;
    }
    copy
}

} // verus!
