//! Writing a container: the codes of the symbols, the layout of header
//! and payload, and the encoder that counts and writes.

use crate::error::CodecError;
use crate::frequency::{
    frequency_table, lemma_frequency_table, lemma_frequency_total, lemma_occurrences_bound,
};
use crate::huffman::{total_weight, SymbolCode};
use crate::symbol_map::{has_symbol, lemma_with_entry, value_of, SymbolMap};
use crate::utils::{pack_bits, pack_str};
use vstd::prelude::*;
use vstd::relations::{sorted_by, total_ordering};

verus! {

/// The two bytes that open a container.
pub const START_PATTERN: [u8; 2] = [0xAB, 0xCD];

/// The two bytes that close the header of a container.
pub const END_PATTERN: [u8; 2] = [0xEF, 0x01];

/// The longest code, in bits, that the one-byte length field can announce.
pub const MAX_CODE_BITS: usize = 255;

/// A symbol together with the bit string that stands for it, written with
/// the characters `'0'` and `'1'`.
#[derive(Debug, Default, Clone, Eq, PartialEq, Ord, PartialOrd)]
pub struct Code {
    pub code: String,
    pub c: char,
}

impl Code {
    /// The code `code` for the symbol `c`.
    pub fn new(code: String, c: char) -> (made: Code)
        ensures
            made.code == code,
            made.c == c,
    {
        Code { code, c }
    }

    /// The symbol that the code is for.
    pub fn symbol(&self) -> (c: char)
        ensures
            c == self.c,
    {
        self.c
    }
}

impl View for Code {
    type V = SymbolCode;

    open spec fn view(&self) -> SymbolCode {
        (self.c, self.code@)
    }
}

/// A list of codes as plain values.
pub open spec fn codes_view(codes: Seq<Code>) -> Seq<SymbolCode> {
    codes.map_values(|code: Code| code@)
}

/// Whether the text `a` comes before the text `b` in the lexicographic
/// order of code points: at the first place where they differ `a` has the
/// lower character, or `a` ends there and `b` goes on.
pub open spec fn text_before(a: Seq<char>, b: Seq<char>) -> bool
    decreases a.len(),
{
    if b.len() == 0 {
        false
    } else if a.len() == 0 {
        true
    } else if a[0] != b[0] {
        (a[0] as u32) < (b[0] as u32)
    } else {
        text_before(a.drop_first(), b.drop_first())
    }
}

/// Whether the code `a` comes no later than the code `b`: codes are
/// ordered by their bit strings, and codes with the same bit string by
/// their symbols.
pub open spec fn code_before_or_same(a: SymbolCode, b: SymbolCode) -> bool {
    text_before(a.1, b.1) || (a.1 == b.1 && a.0 as u32 <= b.0 as u32)
}

/// The order of codes as a relation.
pub open spec fn code_order() -> spec_fn(SymbolCode, SymbolCode) -> bool {
    |a: SymbolCode, b: SymbolCode| code_before_or_same(a, b)
}

/// Of two texts one comes before the other, or they are the same text, and
/// only one of the three holds.
pub proof fn lemma_text_before_trichotomy(a: Seq<char>, b: Seq<char>)
    ensures
        text_before(a, b) || text_before(b, a) || a == b,
        !(text_before(a, b) && text_before(b, a)),
        !(text_before(a, b) && a == b),
    decreases a.len(),
{
    if a.len() > 0 && b.len() > 0 {
        if a[0] == b[0] {
            lemma_text_before_trichotomy(a.drop_first(), b.drop_first());
            if a.drop_first() == b.drop_first() {
                assert(a =~= seq![a[0]] + a.drop_first());
                assert(b =~= seq![b[0]] + b.drop_first());
            }
        } else {
            vstd::utf8::char_u32_cast(a[0], a[0] as u32);
            vstd::utf8::char_u32_cast(b[0], b[0] as u32);
        }
    } else if a.len() == 0 && b.len() == 0 {
        assert(a =~= b);
    }
}

/// A text that comes before a second, which comes before a third, comes
/// before the third.
pub proof fn lemma_text_before_transitive(a: Seq<char>, b: Seq<char>, c: Seq<char>)
    requires
        text_before(a, b),
        text_before(b, c),
    ensures
        text_before(a, c),
    decreases a.len(),
{
    if a.len() > 0 {
        vstd::utf8::char_u32_cast(a[0], a[0] as u32);
        vstd::utf8::char_u32_cast(b[0], b[0] as u32);
        vstd::utf8::char_u32_cast(c[0], c[0] as u32);
        if a[0] == b[0] && b[0] == c[0] {
            lemma_text_before_transitive(a.drop_first(), b.drop_first(), c.drop_first());
        }
    }
}

/// The order of codes is a total order.
pub proof fn lemma_code_order_total()
    ensures
        total_ordering(code_order()),
{
    let order = code_order();
    assert forall|x: SymbolCode| #[trigger] order(x, x) by {}
    assert forall|x: SymbolCode, y: SymbolCode| #[trigger] order(x, y) && #[trigger] order(
        y,
        x,
    ) implies x == y by {
        lemma_text_before_trichotomy(x.1, y.1);
        vstd::utf8::char_u32_cast(x.0, x.0 as u32);
        vstd::utf8::char_u32_cast(y.0, y.0 as u32);
    }
    assert forall|x: SymbolCode, y: SymbolCode, z: SymbolCode| #[trigger] order(x, y)
        && #[trigger] order(y, z) implies order(x, z) by {
        if text_before(x.1, y.1) && text_before(y.1, z.1) {
            lemma_text_before_transitive(x.1, y.1, z.1);
        }
    }
    assert forall|x: SymbolCode, y: SymbolCode| #[trigger] order(x, y) || #[trigger] order(
        y,
        x,
    ) by {
        lemma_text_before_trichotomy(x.1, y.1);
    }
}

/// The characters of a string, one by one.
pub fn chars_of(text: &str) -> (chars: Vec<char>)
    ensures
        chars@ == text@,
{
    let mut chars: Vec<char> = Vec::new();
    for c in it: text.chars()
        invariant
            it.seq() == text@,
            chars@ == text@.take(it.index()),
    {
        chars.push(c);
        assert(chars@ =~= text@.take(it.index() + 1));
    }
    assert(text@.take(text@.len() as int) =~= text@);
    chars
}

/// Whether the code `a` comes no later than the code `b`.
fn code_no_later(a: &Code, b: &Code) -> (le: bool)
    ensures
        le == code_before_or_same(a@, b@),
{
    let left = chars_of(a.code.as_str());
    let right = chars_of(b.code.as_str());
    let mut i: usize = 0;
    assert(left@.skip(0) =~= left@);
    assert(right@.skip(0) =~= right@);
    while i < left.len() && i < right.len()
        invariant
            i <= left@.len(),
            i <= right@.len(),
            left@ == a.code@,
            right@ == b.code@,
            left@.take(i as int) == right@.take(i as int),
            text_before(left@, right@) == text_before(left@.skip(i as int), right@.skip(i as int)),
            text_before(right@, left@) == text_before(right@.skip(i as int), left@.skip(i as int)),
        decreases left@.len() - i,
    {
        let x = left[i] as u32;
        let y = right[i] as u32;
        if x != y {
            return x < y;
        }
        proof {
            vstd::utf8::char_u32_cast(left@[i as int], x);
            vstd::utf8::char_u32_cast(right@[i as int], y);
            assert(left@.skip(i as int).drop_first() =~= left@.skip(i + 1));
            assert(right@.skip(i as int).drop_first() =~= right@.skip(i + 1));
            assert(left@.take(i + 1) =~= left@.take(i as int).push(left@[i as int]));
            assert(right@.take(i + 1) =~= right@.take(i as int).push(right@[i as int]));
        }
        i = i + 1;
    }
    if i < right.len() {
        true
    } else if i < left.len() {
        proof {
            lemma_text_before_trichotomy(left@, right@);
        }
        false
    } else {
        proof {
            assert(left@.take(i as int) =~= left@);
            assert(right@.take(i as int) =~= right@);
            lemma_text_before_trichotomy(left@, right@);
        }
        a.symbol() as u32 <= b.symbol() as u32
    }
}

/// The place of the first code for `symbol` in a list of codes.
pub open spec fn is_first_code(table: Seq<SymbolCode>, symbol: char, at: int) -> bool {
    &&& 0 <= at < table.len()
    &&& table[at].0 == symbol
    &&& forall|k: int| 0 <= k < at ==> (#[trigger] table[k]).0 != symbol
}

/// The code that a list of codes holds for `symbol`: the first one, where
/// it holds several.
pub open spec fn code_of(table: Seq<SymbolCode>, symbol: char) -> Seq<char> {
    table[choose|at: int| is_first_code(table, symbol, at)].1
}

/// One code as it is written to a container: a byte with the number of
/// bits, then the bits packed into bytes.
pub open spec fn entry_bytes(code: Seq<char>) -> Seq<u8> {
    seq![code.len() as u8] + pack_bits(code)
}

/// A code point as four bytes in little-endian order.
pub open spec fn u32_to_le(value: u32) -> Seq<u8> {
    seq![
        (value % 256) as u8,
        (value / 256 % 256) as u8,
        (value / 65536 % 256) as u8,
        (value / 16777216) as u8,
    ]
}

/// One header entry: the code point, then the code.
pub open spec fn header_entry_bytes(entry: SymbolCode) -> Seq<u8> {
    u32_to_le(entry.0 as u32) + entry_bytes(entry.1)
}

/// The header entries of a list of codes, one after the other.
pub open spec fn header_body(table: Seq<SymbolCode>) -> Seq<u8>
    decreases table.len(),
{
    if table.len() == 0 {
        Seq::empty()
    } else {
        header_body(table.drop_last()) + header_entry_bytes(table.last())
    }
}

/// Whether every code of the list fits the one-byte length field.
pub open spec fn codes_fit(table: Seq<SymbolCode>) -> bool {
    forall|i: int| 0 <= i < table.len() ==> (#[trigger] table[i]).1.len() <= MAX_CODE_BITS
}

/// The header of a container: the start marker, one entry for each code
/// in the order of the list, and the end marker. A code of more than 255
/// bits cannot be written.
pub open spec fn header_bytes(table: Seq<SymbolCode>) -> Result<Seq<u8>, CodecError> {
    if codes_fit(table) {
        Ok(START_PATTERN@ + header_body(table) + END_PATTERN@)
    } else {
        Err(CodecError::Format)
    }
}

/// The payload of a container: for each character of the text, in the
/// order of the text, its code as an entry of its own. The first character
/// that has no code, or whose code does not fit the length field, decides
/// the error.
pub open spec fn payload_bytes(text: Seq<char>, table: Seq<SymbolCode>) -> Result<
    Seq<u8>,
    CodecError,
>
    decreases text.len(),
{
    if text.len() == 0 {
        Ok(Seq::empty())
    } else {
        match payload_bytes(text.drop_last(), table) {
            Err(e) => Err(e),
            Ok(bytes) => {
                if !has_symbol(table, text.last()) {
                    Err(CodecError::MissingCode)
                } else if code_of(table, text.last()).len() > MAX_CODE_BITS {
                    Err(CodecError::Format)
                } else {
                    Ok(bytes + entry_bytes(code_of(table, text.last())))
                }
            },
        }
    }
}

/// The first code for a symbol is the only place that `is_first_code`
/// accepts, and its code is the symbol's code.
pub proof fn lemma_first_code_unique(table: Seq<SymbolCode>, symbol: char, at: int)
    requires
        is_first_code(table, symbol, at),
    ensures
        has_symbol(table, symbol),
        code_of(table, symbol) == table[at].1,
{
    let chosen = choose|k: int| is_first_code(table, symbol, k);
    if chosen < at {
        assert(table[chosen].0 != symbol);
    } else if at < chosen {
        assert(table[at].0 != symbol);
    }
}

/// The four bytes of `value` in little-endian order, appended to `bytes`.
fn push_u32_le(bytes: &mut Vec<u8>, value: u32)
    ensures
        final(bytes)@ == old(bytes)@ + u32_to_le(value),
{
    bytes.push((value % 256) as u8);
    bytes.push((value / 256 % 256) as u8);
    bytes.push((value / 65536 % 256) as u8);
    bytes.push((value / 16777216) as u8);
    assert(bytes@ =~= old(bytes)@ + u32_to_le(value));
}

/// The length byte and the packed bits of `code`, appended to `bytes`.
/// Nothing is appended where the code has more than 255 bits.
fn push_entry(bytes: &mut Vec<u8>, code: &str) -> (fits: bool)
    ensures
        fits == (code@.len() <= MAX_CODE_BITS),
        fits ==> final(bytes)@ == old(bytes)@ + entry_bytes(code@),
        !fits ==> final(bytes)@ == old(bytes)@,
{
    let len = code.unicode_len();
    if len > MAX_CODE_BITS {
        return false;
    }
    bytes.push(len as u8);
    let mut packed = pack_str(code);
    bytes.append(&mut packed);
    assert(bytes@ =~= old(bytes)@ + entry_bytes(code@));
    true
}

/// For each symbol of `codes`, the place of its first code.
fn first_places(codes: &Vec<Code>) -> (places: SymbolMap<usize>)
    ensures
        places.wf(),
        forall|c: char| has_symbol(places@, c) <==> has_symbol(codes_view(codes@), c),
        forall|c: char|
            has_symbol(places@, c) ==> is_first_code(
                codes_view(codes@),
                c,
                #[trigger] value_of(places@, c) as int,
            ),
{
    let ghost table = codes_view(codes@);
    let mut places: SymbolMap<usize> = SymbolMap::new();
    let mut i: usize = 0;
    assert forall|c: char| !has_symbol(places@, c) by {}
    assert forall|c: char| !has_symbol(table.take(0), c) by {}
    while i < codes.len()
        invariant
            i <= codes@.len(),
            table == codes_view(codes@),
            places.wf(),
            forall|c: char| has_symbol(places@, c) <==> has_symbol(table.take(i as int), c),
            forall|c: char|
                has_symbol(places@, c) ==> is_first_code(
                    table,
                    c,
                    #[trigger] value_of(places@, c) as int,
                ),
        decreases codes@.len() - i,
    {
        let symbol = codes[i].symbol();
        let ghost before = places@;
        let ghost seen = table.take(i as int);
        let ghost next = table.take(i + 1);
        assert(table[i as int].0 == symbol);
        assert(next[i as int].0 == symbol);
        let known = places.get(symbol).is_some();
        if !known {
            proof {
                lemma_with_entry(before, symbol, i);
                assert forall|k: int| 0 <= k < i implies (#[trigger] table[k]).0 != symbol by {
                    if table[k].0 == symbol {
                        assert(seen[k].0 == symbol);
                    }
                }
                assert(is_first_code(table, symbol, i as int));
            }
            places.insert(symbol, i);
        }
        proof {
            assert(has_symbol(places@, symbol));
            assert forall|c: char| has_symbol(places@, c) <==> has_symbol(next, c) by {
                if c != symbol {
                    assert(has_symbol(places@, c) <==> has_symbol(before, c));
                }
                if has_symbol(seen, c) {
                    let k = choose|k: int| 0 <= k < seen.len() && (#[trigger] seen[k]).0 == c;
                    assert(next[k].0 == c);
                }
                if has_symbol(next, c) {
                    let k = choose|k: int| 0 <= k < next.len() && (#[trigger] next[k]).0 == c;
                    if k < i {
                        assert(seen[k].0 == c);
                    }
                }
            }
            assert forall|c: char| has_symbol(places@, c) implies is_first_code(
                table,
                c,
                #[trigger] value_of(places@, c) as int,
            ) by {
                if c != symbol {
                    assert(has_symbol(before, c));
                    assert(value_of(places@, c) == value_of(before, c));
                }
            }
        }
        i = i + 1;
    }
    assert(table.take(i as int) =~= table);
    places
}

/// The state of one encoding: the text, its frequency table, and the codes
/// derived from it.
pub struct Encoder {
    pub text: String,
    pub char_map: SymbolMap<u64>,
    pub base_codes: Vec<Code>,
    pub canon_codes: Vec<Code>,
}

impl Encoder {
    /// An encoder for `text`, with an empty frequency table and no codes.
    pub fn new(text: String) -> (encoder: Self)
        ensures
            encoder.text@ == text@,
            encoder.char_map.wf(),
            encoder.char_map@.len() == 0,
            encoder.base_codes@.len() == 0,
            encoder.canon_codes@.len() == 0,
    {
        Self {
            text,
            char_map: SymbolMap::new(),
            base_codes: Vec::new(),
            canon_codes: Vec::new(),
        }
    }

    /// Counts how often each character occurs in the text and keeps the
    /// counts as the frequency table, in place of what the table held.
    /// Every character counts, line ends too.
    pub fn count_chars(&mut self)
        ensures
            final(self).text == old(self).text,
            final(self).base_codes == old(self).base_codes,
            final(self).canon_codes == old(self).canon_codes,
            final(self).char_map.wf(),
            final(self).char_map@ == frequency_table(old(self).text@),
            total_weight(final(self).char_map@) == old(self).text@.len() <= usize::MAX,
    {
        let ghost text = self.text@;
        let total = self.text.as_str().unicode_len();
        let mut char_map: SymbolMap<u64> = SymbolMap::new();
        assert(char_map@ =~= frequency_table(text.take(0)));
        for c in it: self.text.as_str().chars()
            invariant
                it.seq() == text,
                text.len() == total,
                char_map.wf(),
                char_map@ == frequency_table(text.take(it.index())),
            {
            let ghost done = text.take(it.index());
            proof {
                lemma_frequency_table(done);
                lemma_occurrences_bound(done, c);
                assert(text.take(it.index() + 1).drop_last() =~= done);
            }
            let count: u64 = match char_map.get(c) {
                Some(n) => *n + 1,
                None => 1,
            };
            char_map.insert(c, count);
        }
        assert(text.take(text.len() as int) =~= text);
        proof {
            lemma_frequency_total(text);
        }
        self.char_map = char_map;
    }

    /// Sorts the base codes by their bit strings, read as texts, and codes
    /// with the same bit string by their symbols.
    pub fn sort_base(&mut self)
        ensures
            final(self).text == old(self).text,
            final(self).char_map == old(self).char_map,
            final(self).canon_codes == old(self).canon_codes,
            codes_view(final(self).base_codes@) == codes_view(old(self).base_codes@).sort_by(
                code_order(),
            ),
    {
        let ghost all = codes_view(self.base_codes@);
        let mut rest: Vec<Code> = Vec::new();
        core::mem::swap(&mut self.base_codes, &mut rest);
        let mut sorted: Vec<Code> = Vec::new();
        proof {
            lemma_code_order_total();
            assert(codes_view(sorted@) =~= Seq::<SymbolCode>::empty());
            assert(codes_view(sorted@).to_multiset().add(codes_view(rest@).to_multiset())
                =~= all.to_multiset()) by {
                broadcast use vstd::seq_lib::group_to_multiset_ensures;
                broadcast use vstd::multiset::group_multiset_axioms;

                assert(codes_view(sorted@).to_multiset().len() == 0);
            }
        }
        while rest.len() > 0
            invariant
                self.text == old(self).text,
                self.char_map == old(self).char_map,
                self.canon_codes == old(self).canon_codes,
                total_ordering(code_order()),
                sorted_by(codes_view(sorted@), code_order()),
                codes_view(sorted@).to_multiset().add(codes_view(rest@).to_multiset())
                    == all.to_multiset(),
            decreases rest@.len(),
        {
            let ghost waiting = codes_view(rest@);
            let code = rest.pop().unwrap();
            let ghost placed = codes_view(sorted@);
            let mut low: usize = 0;
            let mut high: usize = sorted.len();
            while low < high
                invariant
                    low <= high <= sorted@.len(),
                    placed == codes_view(sorted@),
                    total_ordering(code_order()),
                    sorted_by(placed, code_order()),
                    forall|k: int| 0 <= k < low ==> code_before_or_same(#[trigger] placed[k], code@),
                    forall|k: int|
                        high <= k < placed.len() ==> code_before_or_same(code@, #[trigger] placed[k]),
                decreases high - low,
            {
                let mid = low + (high - low) / 2;
                assert(placed[mid as int] == sorted@[mid as int]@);
                if code_no_later(&sorted[mid], &code) {
                    assert forall|k: int| 0 <= k < mid + 1 implies code_before_or_same(
                        #[trigger] placed[k],
                        code@,
                    ) by {
                        if k < mid {
                            assert(code_order()(placed[k], placed[mid as int]));
                            assert(code_order()(placed[mid as int], code@));
                        }
                    }
                    low = mid + 1;
                } else {
                    assert forall|k: int| mid <= k < placed.len() implies code_before_or_same(
                        code@,
                        #[trigger] placed[k],
                    ) by {
                        assert(code_order()(code@, placed[mid as int]) || code_order()(
                            placed[mid as int],
                            code@,
                        ));
                        if k > mid {
                            assert(code_order()(placed[mid as int], placed[k]));
                            assert(code_order()(code@, placed[mid as int]));
                        }
                    }
                    high = mid;
                }
            }
            let ghost item = code@;
            sorted.insert(low, code);
            proof {
                let after = codes_view(sorted@);
                assert(after =~= placed.insert(low as int, item));
                assert forall|a: int, b: int| 0 <= a < b < after.len() implies #[trigger] code_order()(
                    after[a],
                    after[b],
                ) by {
                    let oa = if a < low { a } else { a - 1 };
                    let ob = if b < low { b } else { b - 1 };
                    if a != low && b != low {
                        assert(code_order()(placed[oa], placed[ob]));
                    } else if a == low {
                        assert(code_before_or_same(item, placed[ob]));
                    } else {
                        assert(code_before_or_same(placed[oa], item));
                    }
                }
                assert(waiting =~= codes_view(rest@).push(item));
                vstd::seq_lib::to_multiset_build(codes_view(rest@), item);
                vstd::seq_lib::to_multiset_insert(placed, low as int, item);
                assert(after.to_multiset().add(codes_view(rest@).to_multiset())
                    =~= placed.to_multiset().add(waiting.to_multiset())) by {
                    broadcast use vstd::multiset::group_multiset_axioms;

                }
            }
        }
        proof {
            broadcast use vstd::seq_lib::group_to_multiset_ensures;
            broadcast use vstd::multiset::group_multiset_axioms;

            assert(codes_view(rest@).to_multiset().len() == 0);
            assert(codes_view(sorted@).to_multiset() =~= all.to_multiset());
            all.lemma_sort_by_ensures(code_order());
            vstd::seq_lib::lemma_sorted_unique(
                codes_view(sorted@),
                all.sort_by(code_order()),
                code_order(),
            );
        }
        self.base_codes = sorted;
    }

    /// Writes the header of the container from the canonical codes: the
    /// start marker, one entry for each code in the order of the list, and
    /// the end marker. A code of more than 255 bits is a format error.
    pub fn write_header_data(&self) -> (result: Result<Vec<u8>, CodecError>)
        ensures
            match header_bytes(codes_view(self.canon_codes@)) {
                Ok(header) => result matches Ok(bytes) && bytes@ == header,
                Err(e) => result matches Err(err) && err == e,
            },
    {
        let ghost table = codes_view(self.canon_codes@);
        let mut bytes: Vec<u8> = Vec::new();
        bytes.push(START_PATTERN[0]);
        bytes.push(START_PATTERN[1]);
        assert(bytes@ =~= START_PATTERN@ + header_body(table.take(0)));
        let mut i: usize = 0;
        while i < self.canon_codes.len()
            invariant
                i <= self.canon_codes@.len(),
                table == codes_view(self.canon_codes@),
                codes_fit(table.take(i as int)),
                bytes@ == START_PATTERN@ + header_body(table.take(i as int)),
            decreases self.canon_codes@.len() - i,
        {
            let symbol = self.canon_codes[i].symbol();
            let ghost before = bytes@;
            push_u32_le(&mut bytes, symbol as u32);
            let fits = push_entry(&mut bytes, self.canon_codes[i].code.as_str());
            if !fits {
                assert(table[i as int].1.len() > MAX_CODE_BITS);
                return Err(CodecError::Format);
            }
            proof {
                let done = table.take(i + 1);
                assert(done.drop_last() =~= table.take(i as int));
                assert(done.last() == table[i as int]);
                assert(bytes@ =~= START_PATTERN@ + header_body(done));
                assert forall|k: int| 0 <= k < done.len() implies (#[trigger] done[k]).1.len()
                    <= MAX_CODE_BITS by {
                    if k < i {
                        assert(table.take(i as int)[k] == done[k]);
                    }
                }
            }
            i = i + 1;
        }
        assert(table.take(i as int) =~= table);
        bytes.push(END_PATTERN[0]);
        bytes.push(END_PATTERN[1]);
        assert(bytes@ =~= START_PATTERN@ + header_body(table) + END_PATTERN@);
        Ok(bytes)
    }

    /// Writes the payload of the container: for each character of the
    /// text its canonical code, as an entry of its own. A character without
    /// a code is an error, and so is a code of more than 255 bits.
    pub fn encode(&self) -> (result: Result<Vec<u8>, CodecError>)
        ensures
            match payload_bytes(self.text@, codes_view(self.canon_codes@)) {
                Ok(payload) => result matches Ok(bytes) && bytes@ == payload,
                Err(e) => result matches Err(err) && err == e,
            },
    {
        let ghost text = self.text@;
        let ghost table = codes_view(self.canon_codes@);
        let places = first_places(&self.canon_codes);
        let mut bytes: Vec<u8> = Vec::new();
        assert(text.take(0) =~= Seq::<char>::empty());
        for c in it: self.text.as_str().chars()
            invariant
                it.seq() == text,
                text == self.text@,
                table == codes_view(self.canon_codes@),
                places.wf(),
                forall|c: char| has_symbol(places@, c) <==> has_symbol(table, c),
                forall|c: char|
                    has_symbol(places@, c) ==> is_first_code(
                        table,
                        c,
                        #[trigger] value_of(places@, c) as int,
                    ),
                payload_bytes(text.take(it.index()), table) == Ok::<Seq<u8>, CodecError>(bytes@),
            {
            proof {
                assert(text.take(it.index() + 1).drop_last() =~= text.take(it.index()));
                assert(text.take(it.index() + 1).last() == c);
            }
            let at = match places.get(c) {
                Some(at) => *at,
                None => {
                    proof {
                        assert(payload_bytes(text.take(it.index() + 1), table) == Err::<
                            Seq<u8>,
                            CodecError,
                        >(CodecError::MissingCode));
                        lemma_payload_fails(text, it.index() + 1, table);
                    }
                    return Err(CodecError::MissingCode);
                },
            };
            proof {
                lemma_first_code_unique(table, c, at as int);
            }
            let fits = push_entry(&mut bytes, self.canon_codes[at].code.as_str());
            if !fits {
                proof {
                    assert(payload_bytes(text.take(it.index() + 1), table) == Err::<
                        Seq<u8>,
                        CodecError,
                    >(CodecError::Format));
                    lemma_payload_fails(text, it.index() + 1, table);
                }
                return Err(CodecError::Format);
            }
        }
        assert(text.take(text.len() as int) =~= text);
        Ok(bytes)
    }
}

/// A payload that cannot be written for the first characters of a text
/// cannot be written for the text, and fails in the same way.
pub proof fn lemma_payload_fails(text: Seq<char>, n: int, table: Seq<SymbolCode>)
    requires
        0 <= n <= text.len(),
        payload_bytes(text.take(n), table) is Err,
    ensures
        payload_bytes(text, table) == payload_bytes(text.take(n), table),
    decreases text.len() - n,
{
    if n < text.len() {
        assert(text.take(n + 1).drop_last() =~= text.take(n));
        lemma_payload_fails(text, n + 1, table);
    } else {
        assert(text.take(n) =~= text);
    }
}

} // verus!
