//! The table that leads from packed code bytes back to symbols.

use vstd::prelude::*;

verus! {

/// Whether the byte string `a` comes before the byte string `b` in
/// lexicographic order: at the first place where they differ `a` has the
/// lower byte, or `a` ends there and `b` goes on.
pub open spec fn bytes_before(a: Seq<u8>, b: Seq<u8>) -> bool
    decreases a.len(),
{
    if b.len() == 0 {
        false
    } else if a.len() == 0 {
        true
    } else if a[0] != b[0] {
        a[0] < b[0]
    } else {
        bytes_before(a.drop_first(), b.drop_first())
    }
}

/// Of two byte strings one comes before the other, or they are the same,
/// and only one of the three holds.
pub proof fn lemma_bytes_before_trichotomy(a: Seq<u8>, b: Seq<u8>)
    ensures
        bytes_before(a, b) || bytes_before(b, a) || a == b,
        !(bytes_before(a, b) && bytes_before(b, a)),
        !(bytes_before(a, b) && a == b),
    decreases a.len(),
{
    if a.len() > 0 && b.len() > 0 {
        if a[0] == b[0] {
            lemma_bytes_before_trichotomy(a.drop_first(), b.drop_first());
            if a.drop_first() == b.drop_first() {
                assert(a =~= seq![a[0]] + a.drop_first());
                assert(b =~= seq![b[0]] + b.drop_first());
            }
        }
    } else if a.len() == 0 && b.len() == 0 {
        assert(a =~= b);
    }
}

/// A byte string that comes before a second, which comes before a third,
/// comes before the third.
pub proof fn lemma_bytes_before_transitive(a: Seq<u8>, b: Seq<u8>, c: Seq<u8>)
    requires
        bytes_before(a, b),
        bytes_before(b, c),
    ensures
        bytes_before(a, c),
    decreases a.len(),
{
    if a.len() > 0 && a[0] == b[0] && b[0] == c[0] {
        lemma_bytes_before_transitive(a.drop_first(), b.drop_first(), c.drop_first());
    }
}

/// How one byte string stands to another in lexicographic order.
#[derive(Clone, Copy, Debug, PartialEq, Eq, Structural)]
pub enum Place {
    Before,
    Same,
    After,
}

/// How `a` stands to `b` in lexicographic order.
pub fn place_of(a: &[u8], b: &[u8]) -> (place: Place)
    ensures
        place == (if bytes_before(a@, b@) {
            Place::Before
        } else if a@ == b@ {
            Place::Same
        } else {
            Place::After
        }),
{
    let mut i: usize = 0;
    assert(a@.skip(0) =~= a@);
    assert(b@.skip(0) =~= b@);
    while i < a.len() && i < b.len()
        invariant
            i <= a@.len(),
            i <= b@.len(),
            a@.take(i as int) == b@.take(i as int),
            bytes_before(a@, b@) == bytes_before(a@.skip(i as int), b@.skip(i as int)),
            bytes_before(b@, a@) == bytes_before(b@.skip(i as int), a@.skip(i as int)),
        decreases a@.len() - i,
    {
        if a[i] != b[i] {
            proof {
                lemma_bytes_before_trichotomy(a@, b@);
            }
            return if a[i] < b[i] {
                Place::Before
            } else {
                Place::After
            };
        }
        proof {
            assert(a@.skip(i as int).drop_first() =~= a@.skip(i + 1));
            assert(b@.skip(i as int).drop_first() =~= b@.skip(i + 1));
            assert(a@.take(i + 1) =~= a@.take(i as int).push(a@[i as int]));
            assert(b@.take(i + 1) =~= b@.take(i as int).push(b@[i as int]));
        }
        i = i + 1;
    }
    proof {
        lemma_bytes_before_trichotomy(a@, b@);
    }
    if i < b.len() {
        Place::Before
    } else if i < a.len() {
        Place::After
    } else {
        proof {
            assert(a@.take(i as int) =~= a@);
            assert(b@.take(i as int) =~= b@);
        }
        Place::Same
    }
}

/// A table from packed code bytes to the symbol they stand for.
///
/// The entries are kept in the lexicographic order of their keys, each key
/// once. Inserting under a key that is present replaces the symbol stored
/// under it.
#[derive(Clone, Debug)]
pub struct LookupTable {
    entries: Vec<(Vec<u8>, char)>,
}

impl View for LookupTable {
    type V = Map<Seq<u8>, char>;

    closed spec fn view(&self) -> Map<Seq<u8>, char> {
        Map::new(
            |key: Seq<u8>| Self::has_key(self.entries@, key),
            |key: Seq<u8>| self.entries@[Self::index_of(self.entries@, key)].1,
        )
    }
}

impl LookupTable {
    spec fn has_key(entries: Seq<(Vec<u8>, char)>, key: Seq<u8>) -> bool {
        exists|i: int| 0 <= i < entries.len() && (#[trigger] entries[i]).0@ == key
    }

    spec fn index_of(entries: Seq<(Vec<u8>, char)>, key: Seq<u8>) -> int {
        choose|i: int| 0 <= i < entries.len() && (#[trigger] entries[i]).0@ == key
    }

    /// Whether the keys rise strictly. Every table that this module hands
    /// out is well formed.
    pub closed spec fn wf(&self) -> bool {
        Self::rising(self.entries@)
    }

    spec fn rising(entries: Seq<(Vec<u8>, char)>) -> bool {
        forall|i: int, j: int|
            0 <= i < j < entries.len() ==> bytes_before(
                (#[trigger] entries[i]).0@,
                (#[trigger] entries[j]).0@,
            )
    }

    proof fn lemma_entry(entries: Seq<(Vec<u8>, char)>, i: int)
        requires
            Self::rising(entries),
            0 <= i < entries.len(),
        ensures
            Self::has_key(entries, entries[i].0@),
            Self::index_of(entries, entries[i].0@) == i,
    {
        let j = Self::index_of(entries, entries[i].0@);
        assert(entries[j].0@ == entries[i].0@);
        lemma_bytes_before_trichotomy(entries[i].0@, entries[j].0@);
        if i < j {
            assert(bytes_before(entries[i].0@, entries[j].0@));
        } else if j < i {
            assert(bytes_before(entries[j].0@, entries[i].0@));
        }
    }

    /// A table without entries.
    pub fn new() -> (table: LookupTable)
        ensures
            table.wf(),
            table@ == Map::<Seq<u8>, char>::empty(),
    {
        let table = LookupTable { entries: Vec::new() };
        assert(table@ =~= Map::<Seq<u8>, char>::empty());
        table
    }

    /// The number of keys in the table.
    pub fn len(&self) -> (n: usize)
        requires
            self.wf(),
        ensures
            n == self@.dom().len(),
            self@.dom().finite(),
    {
        proof {
            self.lemma_dom_len();
        }
        self.entries.len()
    }

    proof fn lemma_dom_len(&self)
        requires
            self.wf(),
        ensures
            self@.dom().finite(),
            self@.dom().len() == self.entries@.len(),
    {
        let keys = self.entries@.map_values(|e: (Vec<u8>, char)| e.0@);
        assert(keys.no_duplicates()) by {
            assert forall|i: int, j: int| 0 <= i < keys.len() && 0 <= j < keys.len() && i
                != j implies keys[i] != keys[j] by {
                Self::lemma_entry(self.entries@, i);
                Self::lemma_entry(self.entries@, j);
            }
        }
        keys.unique_seq_to_set();
        assert(keys.to_set() =~= self@.dom()) by {
            assert forall|key: Seq<u8>| keys.to_set().contains(key) implies self@.dom().contains(
                key,
            ) by {
                let i = choose|i: int| 0 <= i < keys.len() && keys[i] == key;
                assert(self.entries@[i].0@ == key);
            }
            assert forall|key: Seq<u8>| self@.dom().contains(key) implies keys.to_set().contains(
                key,
            ) by {
                let i = Self::index_of(self.entries@, key);
                assert(keys[i] == key);
            }
        }
    }

    /// The place where `key` stands or would have to stand, and whether it
    /// stands there.
    fn position(&self, key: &[u8]) -> (found: (usize, bool))
        requires
            self.wf(),
        ensures
            found.0 <= self.entries@.len(),
            forall|i: int| 0 <= i < found.0 ==> bytes_before((#[trigger] self.entries@[i]).0@, key@),
            forall|i: int|
                found.0 <= i < self.entries@.len() ==> !bytes_before(
                    (#[trigger] self.entries@[i]).0@,
                    key@,
                ),
            found.1 == Self::has_key(self.entries@, key@),
            found.1 ==> found.0 < self.entries@.len() && self.entries@[found.0 as int].0@ == key@,
            !found.1 ==> forall|i: int|
                found.0 <= i < self.entries@.len() ==> bytes_before(
                    key@,
                    (#[trigger] self.entries@[i]).0@,
                ),
    {
        let ghost entries = self.entries@;
        let mut low: usize = 0;
        let mut high: usize = self.entries.len();
        while low < high
            invariant
                entries == self.entries@,
                Self::rising(entries),
                low <= high <= entries.len(),
                forall|i: int| 0 <= i < low ==> bytes_before((#[trigger] entries[i]).0@, key@),
                forall|i: int|
                    high <= i < entries.len() ==> !bytes_before((#[trigger] entries[i]).0@, key@),
            decreases high - low,
        {
            let mid = low + (high - low) / 2;
            match place_of(self.entries[mid].0.as_slice(), key) {
                Place::Before => {
                    assert forall|i: int| 0 <= i < mid + 1 implies bytes_before(
                        (#[trigger] entries[i]).0@,
                        key@,
                    ) by {
                        if i < mid {
                            assert(bytes_before(entries[i].0@, entries[mid as int].0@));
                            lemma_bytes_before_transitive(
                                entries[i].0@,
                                entries[mid as int].0@,
                                key@,
                            );
                        }
                    }
                    low = mid + 1;
                },
                _ => {
                    assert forall|i: int| mid <= i < entries.len() implies !bytes_before(
                        (#[trigger] entries[i]).0@,
                        key@,
                    ) by {
                        if i > mid && bytes_before(entries[i].0@, key@) {
                            assert(bytes_before(entries[mid as int].0@, entries[i].0@));
                            lemma_bytes_before_transitive(
                                entries[mid as int].0@,
                                entries[i].0@,
                                key@,
                            );
                        }
                    }
                    high = mid;
                },
            }
        }
        let same = low < self.entries.len() && bytes_eq(self.entries[low].0.as_slice(), key);
        proof {
            if Self::has_key(entries, key@) {
                let at = Self::index_of(entries, key@);
                lemma_bytes_before_trichotomy(entries[at].0@, key@);
                if at > low {
                    assert(bytes_before(entries[low as int].0@, entries[at].0@));
                }
            }
            if !same {
                assert forall|i: int| low <= i < entries.len() implies bytes_before(
                    key@,
                    (#[trigger] entries[i]).0@,
                ) by {
                    lemma_bytes_before_trichotomy(entries[i].0@, key@);
                    if entries[i].0@ == key@ {
                        assert(Self::has_key(entries, key@));
                    }
                }
            }
        }
        (low, same)
    }

    /// The symbol stored under `key`, if there is one.
    pub fn get(&self, key: &[u8]) -> (symbol: Option<char>)
        requires
            self.wf(),
        ensures
            symbol == (if self@.contains_key(key@) {
                Some(self@[key@])
            } else {
                None
            }),
    {
        let (at, found) = self.position(key);
        if found {
            proof {
                Self::lemma_entry(self.entries@, at as int);
            }
            Some(self.entries[at].1)
        } else {
            None
        }
    }

    /// Stores `symbol` under `key`, in place of what was stored there.
    pub fn insert(&mut self, key: Vec<u8>, symbol: char)
        requires
            old(self).wf(),
        ensures
            final(self).wf(),
            final(self)@ == old(self)@.insert(key@, symbol),
    {
        let ghost before = self.entries@;
        let (at, found) = self.position(key.as_slice());
        if found {
            self.entries.set(at, (key, symbol));
        } else {
            self.entries.insert(at, (key, symbol));
        }
        proof {
            let after = self.entries@;
            let moved = |i: int| if found || i < at { i } else { i + 1 };
            assert forall|i: int| 0 <= i < before.len() && !(found && i == at) implies after[moved(
                i,
            )] == before[i] by {}
            assert(after[at as int].0@ == key@);
            assert(Self::rising(after)) by {
                assert forall|i: int, j: int| 0 <= i < j < after.len() implies bytes_before(
                    (#[trigger] after[i]).0@,
                    (#[trigger] after[j]).0@,
                ) by {
                    let oi = if found || i < at { i } else { i - 1 };
                    let oj = if found || j < at { j } else { j - 1 };
                    if i != at && j != at {
                        assert(after[i] == before[oi]);
                        assert(after[j] == before[oj]);
                        assert(bytes_before(before[oi].0@, before[oj].0@));
                    } else if i == at {
                        assert(after[j] == before[oj]);
                        if found {
                            assert(bytes_before(before[at as int].0@, before[oj].0@));
                        }
                    } else {
                        assert(after[i] == before[oi]);
                    }
                }
            }
            Self::lemma_entry(after, at as int);
            assert forall|k: Seq<u8>| Self::has_key(after, k) == (Self::has_key(before, k) || k
                == key@) && (k != key@ && Self::has_key(before, k) ==> after[Self::index_of(
                after,
                k,
            )].1 == before[Self::index_of(before, k)].1) by {
                if Self::has_key(before, k) && k != key@ {
                    let i = Self::index_of(before, k);
                    assert(after[moved(i)] == before[i]);
                    Self::lemma_entry(after, moved(i));
                }
                if Self::has_key(after, k) && k != key@ {
                    let j = Self::index_of(after, k);
                    let oj = if found || j < at { j } else { j - 1 };
                    assert(after[j] == before[oj]);
                }
            }
            assert(self@ =~= old(self)@.insert(key@, symbol));
        }
    }
}

/// Whether two byte strings hold the same bytes.
pub fn bytes_eq(a: &[u8], b: &[u8]) -> (same: bool)
    ensures
        same == (a@ == b@),
{
    if a.len() != b.len() {
        return false;
    }
    let mut i: usize = 0;
    while i < a.len()
        invariant
            a@.len() == b@.len(),
            i <= a@.len(),
            forall|j: int| 0 <= j < i ==> a@[j] == b@[j],
        decreases a@.len() - i,
    {
        if a[i] != b[i] {
            return false;
        }
        i = i + 1;
    }
    assert(a@ =~= b@);
    true
}

} // verus!
