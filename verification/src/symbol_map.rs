//! A map from symbols to values, kept in the order of the symbols.

use vstd::prelude::*;

verus! {

/// Whether the symbols of `entries` rise strictly by code point.
pub open spec fn symbols_increasing<V>(entries: Seq<(char, V)>) -> bool {
    forall|i: int, j: int|
        0 <= i < j < entries.len() ==> (#[trigger] entries[i]).0 as u32 <= (
        #[trigger] entries[j]).0 as u32 && entries[i].0 != entries[j].0
}

/// Whether `entries` holds an entry for `symbol`.
pub open spec fn has_symbol<V>(entries: Seq<(char, V)>, symbol: char) -> bool {
    exists|i: int| 0 <= i < entries.len() && (#[trigger] entries[i]).0 == symbol
}

/// The place of an entry for `symbol` in `entries`, where there is one.
pub open spec fn index_of_symbol<V>(entries: Seq<(char, V)>, symbol: char) -> int {
    choose|i: int| 0 <= i < entries.len() && (#[trigger] entries[i]).0 == symbol
}

/// The value that `entries` holds for `symbol`, where there is one.
pub open spec fn value_of<V>(entries: Seq<(char, V)>, symbol: char) -> V {
    entries[index_of_symbol(entries, symbol)].1
}

/// The number of entries whose symbol comes before `symbol`.
pub open spec fn rank_of<V>(entries: Seq<(char, V)>, symbol: char) -> int
    decreases entries.len(),
{
    if entries.len() == 0 {
        0
    } else {
        rank_of(entries.drop_last(), symbol) + if (entries.last().0 as u32) < symbol as u32 {
            1int
        } else {
            0int
        }
    }
}

/// The entries with `symbol` set to `value`: in place of the entry for
/// that symbol where there is one, else as a new entry where the order of
/// symbols puts it.
pub open spec fn with_entry<V>(entries: Seq<(char, V)>, symbol: char, value: V) -> Seq<(char, V)> {
    let at = rank_of(entries, symbol);
    if has_symbol(entries, symbol) {
        entries.update(at, (symbol, value))
    } else {
        entries.insert(at, (symbol, value))
    }
}

/// The number of entries for `symbol`.
pub open spec fn entry_count<V>(entries: Seq<(char, V)>, symbol: char) -> nat
    decreases entries.len(),
{
    if entries.len() == 0 {
        0
    } else {
        entry_count(entries.drop_last(), symbol) + if entries.last().0 == symbol {
            1nat
        } else {
            0nat
        }
    }
}

/// A symbol that is counted has an entry, and the other way round.
pub proof fn lemma_entry_count_positive<V>(entries: Seq<(char, V)>, symbol: char)
    ensures
        entry_count(entries, symbol) > 0 <==> has_symbol(entries, symbol),
    decreases entries.len(),
{
    if entries.len() > 0 {
        let front = entries.drop_last();
        lemma_entry_count_positive(front, symbol);
        if has_symbol(front, symbol) {
            let i = index_of_symbol(front, symbol);
            assert(entries[i].0 == symbol);
        }
        if entries.last().0 == symbol {
            assert(entries[entries.len() - 1].0 == symbol);
        }
        if has_symbol(entries, symbol) {
            let i = index_of_symbol(entries, symbol);
            if i < front.len() {
                assert(front[i].0 == symbol);
            }
        }
    }
}

/// Rising entries hold each symbol at most once.
pub proof fn lemma_entry_count_increasing<V>(entries: Seq<(char, V)>, symbol: char)
    requires
        symbols_increasing(entries),
    ensures
        entry_count(entries, symbol) == if has_symbol(entries, symbol) {
            1nat
        } else {
            0nat
        },
    decreases entries.len(),
{
    lemma_entry_count_positive(entries, symbol);
    if entries.len() > 0 {
        let front = entries.drop_last();
        assert(symbols_increasing(front)) by {
            assert forall|i: int, j: int| 0 <= i < j < front.len() implies (
            #[trigger] front[i]).0 as u32 <= (#[trigger] front[j]).0 as u32 && front[i].0
                != front[j].0 by {
                assert(front[i] == entries[i]);
                assert(front[j] == entries[j]);
            }
        }
        lemma_entry_count_increasing(front, symbol);
        if entries.last().0 == symbol && has_symbol(front, symbol) {
            let i = index_of_symbol(front, symbol);
            assert(entries[i].0 == entries[entries.len() - 1].0);
        }
    }
}

/// The count of a symbol in two lists together is the sum of its counts.
pub proof fn lemma_entry_count_concat<V>(a: Seq<(char, V)>, b: Seq<(char, V)>, symbol: char)
    ensures
        entry_count(a + b, symbol) == entry_count(a, symbol) + entry_count(b, symbol),
    decreases b.len(),
{
    if b.len() == 0 {
        assert(a + b =~= a);
    } else {
        lemma_entry_count_concat(a, b.drop_last(), symbol);
        assert((a + b).drop_last() =~= a + b.drop_last());
        assert((a + b).last() == b.last());
    }
}

/// The rank of a symbol lies within the entries.
pub proof fn lemma_rank_bounds<V>(entries: Seq<(char, V)>, symbol: char)
    ensures
        0 <= rank_of(entries, symbol) <= entries.len(),
    decreases entries.len(),
{
    if entries.len() > 0 {
        lemma_rank_bounds(entries.drop_last(), symbol);
    }
}

/// In rising entries, the rank of a symbol is the place where it stands or
/// would have to stand.
pub proof fn lemma_rank_of<V>(entries: Seq<(char, V)>, symbol: char, at: int)
    requires
        symbols_increasing(entries),
        0 <= at <= entries.len(),
        forall|i: int| 0 <= i < at ==> ((#[trigger] entries[i]).0 as u32) < symbol as u32,
        forall|i: int| at <= i < entries.len() ==> (#[trigger] entries[i]).0 as u32 >= symbol as u32,
    ensures
        rank_of(entries, symbol) == at,
        has_symbol(entries, symbol) <==> at < entries.len() && entries[at].0 == symbol,
        has_symbol(entries, symbol) ==> index_of_symbol(entries, symbol) == at,
    decreases entries.len(),
{
    if entries.len() > 0 {
        let front = entries.drop_last();
        if at == entries.len() {
            lemma_rank_of(front, symbol, at - 1);
            assert(entries[at - 1] == entries.last());
        } else {
            lemma_rank_of(front, symbol, at);
        }
    }
    if has_symbol(entries, symbol) {
        let i = index_of_symbol(entries, symbol);
        vstd::utf8::char_u32_cast(entries[i].0, entries[i].0 as u32);
        if i < at {
            assert((entries[i].0 as u32) < symbol as u32);
        } else if i > at {
            assert(entries[at].0 as u32 >= symbol as u32);
            assert(entries[at].0 as u32 <= entries[i].0 as u32);
            vstd::utf8::char_u32_cast(entries[at].0, entries[at].0 as u32);
            vstd::utf8::char_u32_cast(symbol, symbol as u32);
        }
    }
    if at < entries.len() && entries[at].0 == symbol {
        assert(has_symbol(entries, symbol));
    }
}

/// Each entry of rising entries is the one found under its symbol.
pub proof fn lemma_entry_found<V>(entries: Seq<(char, V)>, i: int)
    requires
        symbols_increasing(entries),
        0 <= i < entries.len(),
    ensures
        has_symbol(entries, entries[i].0),
        index_of_symbol(entries, entries[i].0) == i,
        value_of(entries, entries[i].0) == entries[i].1,
{
    let j = index_of_symbol(entries, entries[i].0);
    assert(entries[j].0 == entries[i].0);
}

/// Setting a symbol keeps the entries rising, gives that symbol the new
/// value and leaves every other symbol as it was.
pub proof fn lemma_with_entry<V>(entries: Seq<(char, V)>, symbol: char, value: V)
    requires
        symbols_increasing(entries),
    ensures
        symbols_increasing(with_entry(entries, symbol, value)),
        has_symbol(with_entry(entries, symbol, value), symbol),
        value_of(with_entry(entries, symbol, value), symbol) == value,
        forall|other: char|
            other != symbol ==> (has_symbol(with_entry(entries, symbol, value), other)
                <==> has_symbol(entries, other)),
        forall|other: char|
            other != symbol && has_symbol(entries, other) ==> value_of(
                with_entry(entries, symbol, value),
                other,
            ) == value_of(entries, other),
        with_entry(entries, symbol, value).len() == entries.len() + if has_symbol(
            entries,
            symbol,
        ) {
            0int
        } else {
            1int
        },
{
    let at = lemma_rank_split(entries, symbol);
    let after = with_entry(entries, symbol, value);
    vstd::utf8::char_u32_cast(symbol, symbol as u32);
    assert(symbols_increasing(after)) by {
        assert forall|i: int, j: int| 0 <= i < j < after.len() implies (#[trigger] after[i]).0 as u32
            <= (#[trigger] after[j]).0 as u32 && after[i].0 != after[j].0 by {
            if has_symbol(entries, symbol) {
                assert(after[i].0 == entries[i].0);
                assert(after[j].0 == entries[j].0);
            } else {
                let oi = if i < at { i } else { i - 1 };
                let oj = if j < at { j } else { j - 1 };
                if i != at {
                    assert(after[i] == entries[oi]);
                    vstd::utf8::char_u32_cast(entries[oi].0, entries[oi].0 as u32);
                }
                if j != at {
                    assert(after[j] == entries[oj]);
                    vstd::utf8::char_u32_cast(entries[oj].0, entries[oj].0 as u32);
                }
            }
        }
    }
    assert(after[at] == (symbol, value));
    lemma_entry_found(after, at);
    assert forall|other: char| other != symbol implies (has_symbol(after, other) <==> has_symbol(
        entries,
        other,
    )) && (has_symbol(entries, other) ==> value_of(after, other) == value_of(entries, other)) by {
        if has_symbol(entries, other) {
            let i = index_of_symbol(entries, other);
            let ni = if has_symbol(entries, symbol) || i < at { i } else { i + 1 };
            assert(after[ni] == entries[i]);
            lemma_entry_found(after, ni);
        }
        if has_symbol(after, other) {
            let i = index_of_symbol(after, other);
            let oi = if has_symbol(entries, symbol) || i < at { i } else { i - 1 };
            assert(entries[oi] == after[i]);
        }
    }
}

/// The rank of a symbol in rising entries splits them into the symbols
/// before it and the symbols from it on.
pub proof fn lemma_rank_split<V>(entries: Seq<(char, V)>, symbol: char) -> (at: int)
    requires
        symbols_increasing(entries),
    ensures
        at == rank_of(entries, symbol),
        0 <= at <= entries.len(),
        forall|i: int| 0 <= i < at ==> ((#[trigger] entries[i]).0 as u32) < symbol as u32,
        forall|i: int| at <= i < entries.len() ==> (#[trigger] entries[i]).0 as u32 >= symbol as u32,
        has_symbol(entries, symbol) <==> at < entries.len() && entries[at].0 == symbol,
        has_symbol(entries, symbol) ==> index_of_symbol(entries, symbol) == at,
    decreases entries.len(),
{
    let at = rank_of(entries, symbol);
    if entries.len() > 0 {
        let front = entries.drop_last();
        let front_at = lemma_rank_split(front, symbol);
        if (entries.last().0 as u32) < symbol as u32 {
            assert forall|i: int| 0 <= i < entries.len() implies ((#[trigger] entries[i]).0 as u32)
                < symbol as u32 by {
                if i < entries.len() - 1 {
                    assert(entries[i].0 as u32 <= entries[entries.len() - 1].0 as u32);
                }
            }
            if front_at < front.len() {
                assert(front[front_at] == entries[front_at]);
            }
        } else {
            assert forall|i: int| front_at <= i < entries.len() implies (#[trigger] entries[i]).0 as u32
                >= symbol as u32 by {
                if i < entries.len() - 1 {
                    assert(front[i] == entries[i]);
                }
            }
        }
        assert forall|i: int| 0 <= i < at implies ((#[trigger] entries[i]).0 as u32)
            < symbol as u32 by {
            if i < front.len() {
                assert(front[i] == entries[i]);
            }
        }
    }
    lemma_rank_of(entries, symbol, at);
    at
}

/// Rising entries that hold the same symbols with the same values are the
/// same entries.
pub proof fn lemma_entries_unique<V>(a: Seq<(char, V)>, b: Seq<(char, V)>)
    requires
        symbols_increasing(a),
        symbols_increasing(b),
        forall|c: char| has_symbol(a, c) <==> has_symbol(b, c),
        forall|c: char| has_symbol(a, c) ==> value_of(a, c) == value_of(b, c),
    ensures
        a == b,
    decreases a.len(),
{
    if a.len() == 0 {
        if b.len() > 0 {
            assert(has_symbol(b, b[0].0));
        }
        assert(a =~= b);
    } else {
        let last = a.last().0;
        lemma_entry_found(a, a.len() - 1);
        assert(has_symbol(b, last));
        let k = index_of_symbol(b, last);
        if k < b.len() - 1 {
            let other = b[b.len() - 1].0;
            lemma_entry_found(b, b.len() - 1);
            assert(has_symbol(a, other));
            let m = index_of_symbol(a, other);
            assert(a[m].0 as u32 <= a[a.len() - 1].0 as u32);
            assert(b[k].0 as u32 <= b[b.len() - 1].0 as u32);
            vstd::utf8::char_u32_cast(last, last as u32);
            vstd::utf8::char_u32_cast(other, other as u32);
            assert(false);
        }
        lemma_entry_found(b, k);
        let a0 = a.drop_last();
        let b0 = b.drop_last();
        assert forall|c: char| (has_symbol(a0, c) <==> has_symbol(b0, c)) && (has_symbol(a0, c)
            ==> value_of(a0, c) == value_of(b0, c)) by {
            if has_symbol(a0, c) {
                let i = index_of_symbol(a0, c);
                assert(a[i] == a0[i]);
                lemma_entry_found(a, i);
                lemma_entry_found(a0, i);
                let j = index_of_symbol(b, c);
                assert(j != b.len() - 1);
                assert(b0[j] == b[j]);
                lemma_entry_found(b0, j);
            }
            if has_symbol(b0, c) {
                let j = index_of_symbol(b0, c);
                assert(b[j] == b0[j]);
                lemma_entry_found(b, j);
                lemma_entry_found(b0, j);
                let i = index_of_symbol(a, c);
                assert(i != a.len() - 1);
                assert(a0[i] == a[i]);
                lemma_entry_found(a0, i);
            }
        }
        lemma_entries_unique(a0, b0);
        assert(a =~= a0.push(a.last()));
        assert(b =~= b0.push(b.last()));
    }
}

/// The order in which two different symbols are set does not show in the
/// entries.
pub proof fn lemma_with_entry_commutes<V>(
    entries: Seq<(char, V)>,
    first: char,
    first_value: V,
    second: char,
    second_value: V,
)
    requires
        symbols_increasing(entries),
        first != second,
    ensures
        with_entry(with_entry(entries, first, first_value), second, second_value) == with_entry(
            with_entry(entries, second, second_value),
            first,
            first_value,
        ),
{
    let one = with_entry(entries, first, first_value);
    let two = with_entry(entries, second, second_value);
    lemma_with_entry(entries, first, first_value);
    lemma_with_entry(entries, second, second_value);
    lemma_with_entry(one, second, second_value);
    lemma_with_entry(two, first, first_value);
    let left = with_entry(one, second, second_value);
    let right = with_entry(two, first, first_value);
    assert forall|c: char| (has_symbol(left, c) <==> has_symbol(right, c)) && (has_symbol(left, c)
        ==> value_of(left, c) == value_of(right, c)) by {
        if c == first {
            assert(has_symbol(one, c));
        } else if c == second {
            assert(has_symbol(two, c));
        } else {
            assert(has_symbol(one, c) <==> has_symbol(entries, c));
            assert(has_symbol(two, c) <==> has_symbol(entries, c));
        }
    }
    lemma_entries_unique(left, right);
}

/// A map from symbols to values that keeps its entries in the order of the
/// symbols' code points, each symbol once.
#[derive(Debug)]
pub struct SymbolMap<V> {
    entries: Vec<(char, V)>,
}

impl<V> View for SymbolMap<V> {
    type V = Seq<(char, V)>;

    /// The entries in the order of their symbols.
    closed spec fn view(&self) -> Seq<(char, V)> {
        self.entries@
    }
}

impl<V> SymbolMap<V> {
    /// Whether the symbols rise strictly. Every map that this module hands
    /// out is well formed.
    pub open spec fn wf(&self) -> bool {
        symbols_increasing(self@)
    }

    /// A map without entries.
    pub fn new() -> (map: Self)
        ensures
            map.wf(),
            map@.len() == 0,
    {
        SymbolMap { entries: Vec::new() }
    }

    /// The number of symbols in the map.
    pub fn len(&self) -> (n: usize)
        ensures
            n == self@.len(),
    {
        self.entries.len()
    }

    /// The entries in the order of their symbols.
    pub fn as_slice(&self) -> (entries: &[(char, V)])
        ensures
            entries@ == self@,
    {
        self.entries.as_slice()
    }

    /// The number of symbols that come before `symbol`.
    fn rank(&self, symbol: char) -> (at: usize)
        requires
            self.wf(),
        ensures
            at == rank_of(self@, symbol),
            at <= self@.len(),
            has_symbol(self@, symbol) <==> at < self@.len() && self@[at as int].0 == symbol,
            has_symbol(self@, symbol) ==> index_of_symbol(self@, symbol) == at,
    {
        let mut low: usize = 0;
        let mut high: usize = self.entries.len();
        while low < high
            invariant
                self.wf(),
                low <= high <= self@.len(),
                forall|i: int| 0 <= i < low ==> ((#[trigger] self@[i]).0 as u32) < symbol as u32,
                forall|i: int| high <= i < self@.len() ==> (#[trigger] self@[i]).0 as u32 >= symbol as u32,
            decreases high - low,
        {
            let mid = low + (high - low) / 2;
            if (self.entries[mid].0 as u32) < symbol as u32 {
                assert forall|i: int| 0 <= i < mid + 1 implies ((#[trigger] self@[i]).0 as u32)
                    < symbol as u32 by {
                    if i < mid {
                        assert(self@[i].0 as u32 <= self@[mid as int].0 as u32);
                    }
                }
                low = mid + 1;
            } else {
                assert forall|i: int| mid <= i < self@.len() implies (#[trigger] self@[i]).0 as u32
                    >= symbol as u32 by {
                    if i > mid {
                        assert(self@[mid as int].0 as u32 <= self@[i].0 as u32);
                    }
                }
                high = mid;
            }
        }
        proof {
            lemma_rank_of(self@, symbol, low as int);
        }
        low
    }

    /// The value stored for `symbol`, if there is one.
    pub fn get(&self, symbol: char) -> (value: Option<&V>)
        requires
            self.wf(),
        ensures
            match value {
                Some(v) => has_symbol(self@, symbol) && *v == value_of(self@, symbol),
                None => !has_symbol(self@, symbol),
            },
    {
        let at = self.rank(symbol);
        if at < self.entries.len() && self.entries[at].0 == symbol {
            Some(&self.entries[at].1)
        } else {
            None
        }
    }

    /// Stores `value` for `symbol`, in place of what was stored for it.
    pub fn insert(&mut self, symbol: char, value: V)
        requires
            old(self).wf(),
        ensures
            final(self).wf(),
            final(self)@ == with_entry(old(self)@, symbol, value),
    {
        let at = self.rank(symbol);
        proof {
            lemma_with_entry(self@, symbol, value);
        }
        if at < self.entries.len() && self.entries[at].0 == symbol {
            self.entries.set(at, (symbol, value));
        } else {
            self.entries.insert(at, (symbol, value));
        }
    }
}

} // verus!
