//! Maps that are keyed by text and by byte position.

use std::collections::HashMap;

use vstd::prelude::*;
use vstd::utf8::encode_utf8;

use crate::text::same_text;

verus! {

/// A number for the first `n` bytes of a text.
pub open spec fn hash_of(bytes: Seq<u8>, n: int) -> u64
    decreases n,
{
    if n > 0 {
        hash_of(bytes, n - 1).wrapping_mul(31).wrapping_add(bytes[n - 1] as u64)
    } else {
        0
    }
}

/// A number for a text.
pub open spec fn text_hash(text: Seq<char>) -> u64 {
    hash_of(encode_utf8(text), encode_utf8(text).len() as int)
}

/// Returns the number for a text.
fn hash_text(text: &str) -> (hash: u64)
    ensures
        hash == text_hash(text@),
{
    let bytes = text.as_bytes();
    let mut hash: u64 = 0;
    let mut i: usize = 0;
    while i < bytes.len()
        invariant
            i <= bytes@.len(),
            hash == hash_of(bytes@, i as int),
        decreases bytes@.len() - i,
    {
        hash = hash.wrapping_mul(31).wrapping_add(bytes[i] as u64);
        i += 1;
    }
    hash
}

/// Whether `last` is the last position before `end` at which `hashes` has `hash`.
spec fn is_last_hash(hashes: Seq<u64>, end: int, last: Option<usize>, hash: u64) -> bool {
    match last {
        Some(last) => {
            &&& last < end
            &&& hashes[last as int] == hash
            &&& forall|i: int| last < i < end ==> #[trigger] hashes[i] != hash
        },
        None => forall|i: int| 0 <= i < end ==> #[trigger] hashes[i] != hash,
    }
}

/// A map from text to values.
#[derive(Debug)]
pub struct TextMap<V> {
    entries: Vec<(String, V)>,
    /// For each entry, the last one before it whose key has the same hash.
    links: Vec<Option<usize>>,
    /// For each hash, the last entry whose key has it.
    last: HashMap<u64, usize>,
}

impl<V> View for TextMap<V> {
    type V = Map<Seq<char>, V>;

    closed spec fn view(&self) -> Map<Seq<char>, V> {
        Map::new(
            |key: Seq<char>| exists|i: int| self.holds_at(i, key),
            |key: Seq<char>| self.entries@[choose|i: int| self.holds_at(i, key)].1,
        )
    }
}

impl<V> TextMap<V> {
    spec fn holds_at(&self, i: int, key: Seq<char>) -> bool {
        0 <= i < self.entries@.len() && self.entries@[i].0@ == key
    }

    spec fn hashes(&self) -> Seq<u64> {
        self.entries@.map_values(|entry: (String, V)| text_hash(entry.0@))
    }

    spec fn last_of(&self, hash: u64) -> Option<usize> {
        if self.last@.contains_key(hash) {
            Some(self.last@[hash])
        } else {
            None
        }
    }

    spec fn is_unique(&self) -> bool {
        forall|i: int, j: int, key: Seq<char>|
            #[trigger] self.holds_at(i, key) && #[trigger] self.holds_at(j, key) ==> i == j
    }

    spec fn is_indexed(&self) -> bool {
        let len = self.entries@.len() as int;
        &&& self.links@.len() == len
        &&& forall|i: int|
            0 <= i < len ==> is_last_hash(
                self.hashes(),
                i,
                #[trigger] self.links@[i],
                self.hashes()[i],
            )
        &&& forall|hash: u64|
            is_last_hash(self.hashes(), len, #[trigger] self.last_of(hash), hash)
    }

    /// No key occurs twice, and keys are found by their hashes.
    pub closed spec fn wf(&self) -> bool {
        self.is_unique() && self.is_indexed()
    }

    proof fn lemma_entry(&self, i: int, key: Seq<char>)
        requires
            self.wf(),
            self.holds_at(i, key),
        ensures
            self@.contains_key(key),
            self@[key] == self.entries@[i].1,
    {
    }

    /// Creates an empty map.
    pub fn new() -> (map: Self)
        ensures
            map.wf(),
            map@ == Map::<Seq<char>, V>::empty(),
    {
        broadcast use vstd::std_specs::hash::group_hash_axioms;

        let map = TextMap { entries: Vec::new(), links: Vec::new(), last: HashMap::new() };
        assert(map@ =~= Map::<Seq<char>, V>::empty());
        map
    }

    /// Returns the number of keys.
    pub fn len(&self) -> (len: usize)
        requires
            self.wf(),
        ensures
            len == self@.len(),
    {
        proof {
            let keys = self.entries@.map_values(|entry: (String, V)| entry.0@);
            assert forall|i: int, j: int| 0 <= i < keys.len() && 0 <= j < keys.len() && i != j
                implies keys[i] != keys[j] by {
                assert(self.holds_at(i, keys[i]));
                assert(self.holds_at(j, keys[j]));
            }
            keys.unique_seq_to_set();
            assert forall|key: Seq<char>| keys.contains(key) implies self@.contains_key(key) by {
                let i = choose|i: int| 0 <= i < keys.len() && keys[i] == key;
                assert(self.holds_at(i, key));
            }
            assert forall|key: Seq<char>| self@.contains_key(key) implies keys.contains(key) by {
                let i = choose|i: int| self.holds_at(i, key);
                assert(keys[i] == key);
            }
            assert(self@.dom() =~= keys.to_set());
        }
        self.entries.len()
    }

    /// Returns whether there is no key.
    pub fn is_empty(&self) -> (empty: bool)
        requires
            self.wf(),
        ensures
            empty == (self@ == Map::<Seq<char>, V>::empty()),
    {
        proof {
            if self.entries@.len() == 0 {
                assert(self@ =~= Map::<Seq<char>, V>::empty());
            } else {
                self.lemma_entry(0, self.entries@[0].0@);
            }
        }
        self.entries.len() == 0
    }

    /// Returns the last entry whose key has the given hash.
    fn find_last(&self, hash: u64) -> (last: Option<usize>)
        ensures
            last == self.last_of(hash),
    {
        broadcast use vstd::std_specs::hash::group_hash_axioms;

        match self.last.get(&hash) {
            Some(i) => Some(*i),
            None => None,
        }
    }

    fn find(&self, key: &str) -> (found: Option<usize>)
        requires
            self.wf(),
        ensures
            match found {
                Some(i) => self.holds_at(i as int, key@),
                None => forall|i: int| !self.holds_at(i, key@),
            },
    {
        let hash: u64 = hash_text(key);
        let ghost hashes = self.hashes();
        let mut next = self.find_last(hash);
        let mut end: Ghost<int> = Ghost(self.entries@.len() as int);
        loop
            invariant
                self.wf(),
                hash == text_hash(key@),
                hashes == self.hashes(),
                0 <= end@ <= self.entries@.len(),
                is_last_hash(hashes, end@, next, hash),
                forall|j: int| end@ <= j ==> !self.holds_at(j, key@),
            decreases end@,
        {
            let i: usize = match next {
                Some(i) => i,
                None => {
                    assert forall|j: int| !self.holds_at(j, key@) by {
                        if self.holds_at(j, key@) {
                            assert(hashes[j] == hash);
                        }
                    }
                    return None;
                },
            };
            if same_text(self.entries[i].0.as_str(), key) {
                return Some(i);
            }
            proof {
                assert forall|j: int| i <= j implies !self.holds_at(j, key@) by {
                    if self.holds_at(j, key@) {
                        assert(hashes[j] == hash);
                    }
                }
                assert(is_last_hash(hashes, i as int, self.links@[i as int], hashes[i as int]));
            }
            end = Ghost(i as int);
            next = self.links[i];
        }
    }

    /// Returns the value of `key`, if it has one.
    pub fn get(&self, key: &str) -> (value: Option<&V>)
        requires
            self.wf(),
        ensures
            match value {
                Some(v) => self@.contains_key(key@) && self@[key@] == *v,
                None => !self@.contains_key(key@),
            },
    {
        match self.find(key) {
            Some(i) => {
                proof {
                    self.lemma_entry(i as int, key@);
                }
                Some(&self.entries[i].1)
            },
            None => None,
        }
    }

    /// Sets the value of `key`, and returns the value that it had.
    pub fn insert(&mut self, key: String, value: V) -> (replaced: Option<V>)
        requires
            old(self).wf(),
        ensures
            final(self).wf(),
            final(self)@ == old(self)@.insert(key@, value),
            match replaced {
                Some(v) => old(self)@.contains_key(key@) && old(self)@[key@] == v,
                None => !old(self)@.contains_key(key@),
            },
    {
        let ghost before = *self;
        match self.find(key.as_str()) {
            Some(i) => {
                let mut slot = value;
                std::mem::swap(&mut self.entries[i].1, &mut slot);
                proof {
                    before.lemma_entry(i as int, key@);
                    assert(self.hashes() =~= before.hashes());
                    assert forall|hash: u64| is_last_hash(
                        self.hashes(),
                        self.entries@.len() as int,
                        #[trigger] self.last_of(hash),
                        hash,
                    ) by {
                        assert(self.last_of(hash) == before.last_of(hash));
                    }
                    lemma_inserted(before, *self, i as int, key@, value);
                }
                Some(slot)
            },
            None => {
                broadcast use vstd::std_specs::hash::group_hash_axioms;

                let ghost key_view = key@;
                let hash: u64 = hash_text(key.as_str());
                let len: usize = self.entries.len();
                self.links.push(self.find_last(hash));
                self.last.insert(hash, len);
                self.entries.push((key, value));
                proof {
                    lemma_indexed(before, *self, hash);
                    lemma_inserted(before, *self, before.entries@.len() as int, key_view, value);
                }
                None
            },
        }
    }
}

/// Keys are found by their hashes when one is added with its hash.
proof fn lemma_indexed<V>(before: TextMap<V>, after: TextMap<V>, hash: u64)
    requires
        before.is_indexed(),
        after.entries@.len() == before.entries@.len() + 1,
        before.entries@.len() <= usize::MAX,
        forall|i: int|
            0 <= i < before.entries@.len() ==> #[trigger] after.entries@[i] == before.entries@[i],
        text_hash(after.entries@.last().0@) == hash,
        after.links@ == before.links@.push(before.last_of(hash)),
        after.last@ == before.last@.insert(hash, before.entries@.len() as usize),
    ensures
        after.is_indexed(),
{
    let len = before.entries@.len() as int;
    assert(after.hashes() =~= before.hashes().push(hash));
    assert forall|i: int| 0 <= i < len + 1 implies is_last_hash(
        after.hashes(),
        i,
        #[trigger] after.links@[i],
        after.hashes()[i],
    ) by {
        if i < len {
            assert(after.links@[i] == before.links@[i]);
            assert(is_last_hash(before.hashes(), i, before.links@[i], before.hashes()[i]));
        } else {
            assert(is_last_hash(before.hashes(), len, before.last_of(hash), hash));
        }
    }
    assert forall|h: u64| is_last_hash(
        after.hashes(),
        len + 1,
        #[trigger] after.last_of(h),
        h,
    ) by {
        if h != hash {
            assert(after.last_of(h) == before.last_of(h));
            assert(is_last_hash(before.hashes(), len, before.last_of(h), h));
        }
    }
}

/// A list that holds `value` for `key` at position `at`, and elsewhere what
/// another list holds for other keys, is that map with `key` set to `value`.
proof fn lemma_inserted<V>(
    before: TextMap<V>,
    after: TextMap<V>,
    at: int,
    key: Seq<char>,
    value: V,
)
    requires
        before.wf(),
        after.is_indexed(),
        after.holds_at(at, key),
        after.entries@[at].1 == value,
        forall|i: int| i != at ==> !before.holds_at(i, key),
        before.entries@.len() <= after.entries@.len() <= before.entries@.len() + 1,
        after.entries@.len() > before.entries@.len() ==> at == before.entries@.len(),
        after.entries@.len() == before.entries@.len() ==> before.holds_at(at, key),
        forall|i: int|
            0 <= i < before.entries@.len() && i != at ==> after.entries@[i] == before.entries@[i],
    ensures
        after.wf(),
        after@ == before@.insert(key, value),
{
    assert forall|i: int, k: Seq<char>| #![trigger after.holds_at(i, k)]
        after.holds_at(i, k) == (before.holds_at(i, k) || (i == at && k == key)) by {}
    assert forall|i: int, j: int, k: Seq<char>| #[trigger]
        after.holds_at(i, k) && #[trigger] after.holds_at(j, k) implies i == j by {
        assert(before.holds_at(i, k) || i == at);
        assert(before.holds_at(j, k) || j == at);
    }
    after.lemma_entry(at, key);
    assert forall|k: Seq<char>|
        after@.contains_key(k) == before@.insert(key, value).contains_key(k) by {
        if after@.contains_key(k) && k != key {
            let i = choose|i: int| after.holds_at(i, k);
            before.lemma_entry(i, k);
        }
        if before@.contains_key(k) {
            let i = choose|i: int| before.holds_at(i, k);
            assert(after.holds_at(i, k));
        }
    }
    assert forall|k: Seq<char>| after@.contains_key(k) implies after@[k] == before@.insert(
        key,
        value,
    )[k] by {
        if k != key {
            let i = choose|i: int| after.holds_at(i, k);
            after.lemma_entry(i, k);
            before.lemma_entry(i, k);
        }
    }
    assert(after@ =~= before@.insert(key, value));
}

/// A map from byte positions to nodes.
#[derive(Debug)]
pub struct PositionMap {
    entries: Vec<(usize, usize)>,
}

impl View for PositionMap {
    type V = Map<usize, usize>;

    closed spec fn view(&self) -> Map<usize, usize> {
        Map::new(
            |position: usize| exists|i: int| self.holds_at(i, position),
            |position: usize| self.entries@[choose|i: int| self.holds_at(i, position)].1,
        )
    }
}

/// Whether `position` is the last position of `map` before `end`.
pub open spec fn is_last_before(map: Map<usize, usize>, end: usize, position: usize) -> bool {
    &&& map.contains_key(position)
    &&& position < end
    &&& forall|other: usize| #[trigger]
        map.contains_key(other) && other < end ==> other <= position
}

/// The node at the last position of `map` before `end`.
pub open spec fn last_before(map: Map<usize, usize>, end: usize) -> Option<usize> {
    if exists|position: usize| is_last_before(map, end, position) {
        Some(map[choose|position: usize| is_last_before(map, end, position)])
    } else {
        None
    }
}

impl PositionMap {
    spec fn holds_at(&self, i: int, position: usize) -> bool {
        0 <= i < self.entries@.len() && self.entries@[i].0 == position
    }

    /// Positions stand in order.
    pub closed spec fn wf(&self) -> bool {
        forall|i: int, j: int|
            0 <= i < j < self.entries@.len() ==> (#[trigger] self.entries@[i]).0 < (
            #[trigger] self.entries@[j]).0
    }

    proof fn lemma_entry(&self, i: int)
        requires
            self.wf(),
            0 <= i < self.entries@.len(),
        ensures
            self@.contains_key(self.entries@[i].0),
            self@[self.entries@[i].0] == self.entries@[i].1,
    {
        assert(self.holds_at(i, self.entries@[i].0));
    }

    /// Creates an empty map.
    pub fn new() -> (map: Self)
        ensures
            map.wf(),
            map@ == Map::<usize, usize>::empty(),
    {
        let map = PositionMap { entries: Vec::new() };
        assert(map@ =~= Map::<usize, usize>::empty());
        map
    }

    /// Returns the number of positions.
    pub fn len(&self) -> (len: usize)
        requires
            self.wf(),
        ensures
            len == self@.len(),
    {
        proof {
            let keys = self.entries@.map_values(|entry: (usize, usize)| entry.0);
            assert forall|i: int, j: int| 0 <= i < keys.len() && 0 <= j < keys.len() && i != j
                implies keys[i] != keys[j] by {
                assert(self.holds_at(i, keys[i]));
                assert(self.holds_at(j, keys[j]));
            }
            keys.unique_seq_to_set();
            assert forall|key: usize| keys.contains(key) implies self@.contains_key(key) by {
                let i = choose|i: int| 0 <= i < keys.len() && keys[i] == key;
                assert(self.holds_at(i, key));
            }
            assert forall|key: usize| self@.contains_key(key) implies keys.contains(key) by {
                let i = choose|i: int| self.holds_at(i, key);
                assert(keys[i] == key);
            }
            assert(self@.dom() =~= keys.to_set());
        }
        self.entries.len()
    }

    /// Sets the node at `position`, in place of the node it had.
    pub fn insert(&mut self, position: usize, node: usize)
        requires
            old(self).wf(),
        ensures
            final(self).wf(),
            final(self)@ == old(self)@.insert(position, node),
    {
        let ghost before = *self;
        let i: usize = self.count_before(position);
        if i < self.entries.len() && self.entries[i].0 == position {
            self.entries.set(i, (position, node));
        } else {
            self.entries.insert(i, (position, node));
        }
        proof {
            let after = *self;
            after.lemma_entry(i as int);
            assert forall|p: usize| p != position implies {
                &&& #[trigger] after@.contains_key(p) <==> before@.contains_key(p)
                &&& before@.contains_key(p) ==> after@[p] == before@[p]
            } by {
                if after@.contains_key(p) {
                    let j = choose|j: int| after.holds_at(j, p);
                    after.lemma_entry(j);
                    if after.entries@.len() > before.entries@.len() && j > i {
                        assert(after.entries@[j] == before.entries@[j - 1]);
                        before.lemma_entry(j - 1);
                    } else {
                        assert(after.entries@[j] == before.entries@[j]);
                        before.lemma_entry(j);
                    }
                }
                if before@.contains_key(p) {
                    let j = choose|j: int| before.holds_at(j, p);
                    before.lemma_entry(j);
                    if after.entries@.len() > before.entries@.len() && j >= i {
                        assert(after.entries@[j + 1] == before.entries@[j]);
                        after.lemma_entry(j + 1);
                    } else {
                        assert(after.entries@[j] == before.entries@[j]);
                        after.lemma_entry(j);
                    }
                }
            }
            let expected = before@.insert(position, node);
            assert forall|p: usize| #[trigger] after@.contains_key(p) <==> expected.contains_key(
                p,
            ) by {}
            assert forall|p: usize| #[trigger] after@.contains_key(p) implies after@[p]
                == expected[p] by {}
            assert(after@ =~= expected);
        }
    }

    /// Returns how many positions are before `end`.
    fn count_before(&self, end: usize) -> (count: usize)
        requires
            self.wf(),
        ensures
            count <= self.entries@.len(),
            forall|i: int| 0 <= i < count ==> (#[trigger] self.entries@[i]).0 < end,
            forall|i: int| count <= i < self.entries@.len() ==> (#[trigger] self.entries@[i]).0
                >= end,
    {
        let mut low: usize = 0;
        let mut high: usize = self.entries.len();
        while low < high
            invariant
                self.wf(),
                low <= high <= self.entries@.len(),
                forall|i: int| 0 <= i < low ==> (#[trigger] self.entries@[i]).0 < end,
                forall|i: int| high <= i < self.entries@.len() ==> (#[trigger] self.entries@[i]).0
                    >= end,
            decreases high - low,
        {
            let middle: usize = low + (high - low) / 2;
            if self.entries[middle].0 < end {
                low = middle + 1;
            } else {
                high = middle;
            }
        }
        low
    }

    /// Returns the node at the last position before `end`.
    pub fn last_before(&self, end: usize) -> (node: Option<usize>)
        requires
            self.wf(),
        ensures
            node == last_before(self@, end),
    {
        let count: usize = self.count_before(end);
        if count > 0 {
            proof {
                let position = self.entries@[count - 1].0;
                self.lemma_entry(count - 1);
                assert forall|other: usize| #[trigger]
                    self@.contains_key(other) && other < end implies other <= position by {
                    let j = choose|j: int| self.holds_at(j, other);
                    assert(self.entries@[j].0 == other);
                }
                assert(is_last_before(self@, end, position));
                let chosen = choose|p: usize| is_last_before(self@, end, p);
                assert(is_last_before(self@, end, chosen));
                assert(chosen == position);
            }
            Some(self.entries[count - 1].1)
        } else {
            proof {
                assert forall|p: usize| !is_last_before(self@, end, p) by {
                    if is_last_before(self@, end, p) {
                        let j = choose|j: int| self.holds_at(j, p);
                        assert(self.entries@[j].0 == p);
                    }
                }
            }
            None
        }
    }
}

} // verus!
