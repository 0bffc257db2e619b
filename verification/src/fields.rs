//! A small string-to-string mapping that remembers the order in which its
//! keys were first inserted.

use vstd::prelude::*;

verus! {

/// The mathematical content of a mapping: its entries in insertion order.
pub type Entries = Seq<(Seq<char>, Seq<char>)>;

/// The index of the first entry at or after `from` whose key is `key`, or the
/// number of entries when there is none.
pub open spec fn first_from(entries: Entries, key: Seq<char>, from: int) -> int
    decreases entries.len() - from,
{
    if from < 0 || from >= entries.len() {
        entries.len() as int
    } else if entries[from].0 == key {
        from
    } else {
        first_from(entries, key, from + 1)
    }
}

/// Whether some entry has the key `key`.
pub open spec fn has_key(entries: Entries, key: Seq<char>) -> bool {
    exists|i: int| 0 <= i < entries.len() && (#[trigger] entries[i]).0 == key
}

/// The value stored under `key`, if any.
pub open spec fn lookup(entries: Entries, key: Seq<char>) -> Option<Seq<char>> {
    let i = first_from(entries, key, 0);
    if i < entries.len() {
        Some(entries[i].1)
    } else {
        None
    }
}

/// No key occurs in two entries.
pub open spec fn distinct_keys(entries: Entries) -> bool {
    forall|i: int, j: int|
        0 <= i < j < entries.len() ==> (#[trigger] entries[i]).0 != (#[trigger] entries[j]).0
}

/// `first_from` returns the position of the first matching entry at or after
/// `from`.
pub proof fn lemma_first_from(entries: Entries, key: Seq<char>, from: int)
    requires
        0 <= from <= entries.len(),
    ensures
        from <= first_from(entries, key, from) <= entries.len(),
        first_from(entries, key, from) < entries.len() ==> entries[first_from(
            entries,
            key,
            from,
        )].0 == key,
        forall|k: int| from <= k < first_from(entries, key, from) ==> (#[trigger] entries[k]).0 != key,
    decreases entries.len() - from,
{
    if from < entries.len() && entries[from].0 != key {
        lemma_first_from(entries, key, from + 1);
    }
}

/// A key has a value exactly when some entry carries it.
pub proof fn lemma_lookup_has_key(entries: Entries, key: Seq<char>)
    ensures
        lookup(entries, key) is Some <==> has_key(entries, key),
{
    lemma_first_from(entries, key, 0);
    if has_key(entries, key) {
        let i = choose|i: int| 0 <= i < entries.len() && (#[trigger] entries[i]).0 == key;
        assert(first_from(entries, key, 0) <= i);
    } else if first_from(entries, key, 0) < entries.len() {
        assert(entries[first_from(entries, key, 0)].0 == key);
    }
}

/// The mathematical map that the entries stand for: a key has the value of
/// its first entry.
pub open spec fn map_of(entries: Entries) -> Map<Seq<char>, Seq<char>> {
    Map::new(|k: Seq<char>| has_key(entries, k), |k: Seq<char>| lookup(entries, k).unwrap())
}

/// The entries after `value` was stored under `key`: an entry with the key
/// keeps its place and gets the value, a new key goes to the end.
pub open spec fn inserted(entries: Entries, key: Seq<char>, value: Seq<char>) -> Entries {
    let i = first_from(entries, key, 0);
    if i < entries.len() {
        entries.update(i, (key, value))
    } else {
        entries.push((key, value))
    }
}

/// Giving an entry another value under its own key moves no key.
proof fn lemma_first_from_update(
    entries: Entries,
    i: int,
    value: Seq<char>,
    q: Seq<char>,
    from: int,
)
    requires
        0 <= i < entries.len(),
        0 <= from <= entries.len(),
    ensures
        first_from(entries.update(i, (entries[i].0, value)), q, from) == first_from(
            entries,
            q,
            from,
        ),
    decreases entries.len() - from,
{
    if from < entries.len() {
        lemma_first_from_update(entries, i, value, q, from + 1);
    }
}

/// An entry added at the end is found only by keys that no earlier entry
/// has.
proof fn lemma_first_from_push(entries: Entries, e: (Seq<char>, Seq<char>), q: Seq<char>, from: int)
    requires
        0 <= from <= entries.len(),
    ensures
        first_from(entries.push(e), q, from) == (if first_from(entries, q, from) < entries.len() {
            first_from(entries, q, from)
        } else if e.0 == q {
            entries.len() as int
        } else {
            entries.len() as int + 1
        }),
    decreases entries.len() - from,
{
    if from < entries.len() {
        assert(entries.push(e)[from] == entries[from]);
        lemma_first_from_push(entries, e, q, from + 1);
    } else {
        assert(entries.push(e)[from] == e);
        assert(first_from(entries.push(e), q, from + 1) == entries.len() + 1);
    }
}

/// Storing a value under a key is insertion into the map, and keeps every
/// key in one entry.
pub proof fn lemma_inserted(entries: Entries, key: Seq<char>, value: Seq<char>)
    ensures
        map_of(inserted(entries, key, value)) == map_of(entries).insert(key, value),
        lookup(inserted(entries, key, value), key) == Some(value),
        distinct_keys(entries) ==> distinct_keys(inserted(entries, key, value)),
{
    let after = inserted(entries, key, value);
    let i = first_from(entries, key, 0);
    lemma_first_from(entries, key, 0);
    assert forall|q: Seq<char>| #![auto]
        has_key(after, q) == (q == key || has_key(entries, q)) && (has_key(after, q)
            ==> lookup(after, q) == if q == key {
            Some(value)
        } else {
            lookup(entries, q)
        }) by {
        lemma_lookup_has_key(entries, q);
        lemma_lookup_has_key(after, q);
        lemma_first_from(entries, q, 0);
        lemma_first_from(after, q, 0);
        if i < entries.len() {
            lemma_first_from_update(entries, i, value, q, 0);
        } else {
            lemma_first_from_push(entries, (key, value), q, 0);
        }
    }
    assert(map_of(after) =~= map_of(entries).insert(key, value));
    lemma_lookup_has_key(after, key);
    if distinct_keys(entries) {
        assert forall|a: int, b: int| 0 <= a < b < after.len() implies (#[trigger] after[a]).0 != (
        #[trigger] after[b]).0 by {
            if i < entries.len() {
                assert(after[a].0 == entries[a].0 && after[b].0 == entries[b].0);
            } else if b < entries.len() {
                assert(after[a] == entries[a] && after[b] == entries[b]);
            } else {
                assert(after[a] == entries[a]);
            }
        }
    }
}

/// A mapping from strings to strings, kept in the order of first insertion.
#[derive(Clone, Debug)]
pub struct StrMap {
    entries: Vec<(String, String)>,
}

impl View for StrMap {
    type V = Entries;

    closed spec fn view(&self) -> Entries {
        Seq::new(self.entries@.len(), |i: int| (self.entries@[i].0@, self.entries@[i].1@))
    }
}

impl StrMap {
    /// Every key occurs once.
    pub open spec fn wf(&self) -> bool {
        distinct_keys(self@)
    }

    /// The mapping as a mathematical map.
    pub open spec fn as_map(&self) -> Map<Seq<char>, Seq<char>> {
        map_of(self@)
    }

    /// The empty mapping.
    pub fn new() -> (out: Self)
        ensures
            out@ == Seq::<(Seq<char>, Seq<char>)>::empty(),
            out.wf(),
    {
        let out = StrMap { entries: Vec::new() };
        proof {
            assert(out@ =~= Seq::<(Seq<char>, Seq<char>)>::empty());
        }
        out
    }

    /// The number of entries.
    pub fn len(&self) -> (n: usize)
        ensures
            n == self@.len(),
    {
        self.entries.len()
    }

    /// Whether the mapping has no entry.
    pub fn is_empty(&self) -> (b: bool)
        ensures
            b == (self@.len() == 0),
    {
        self.entries.len() == 0
    }

    /// The key of the entry at position `i`.
    pub fn key_at(&self, i: usize) -> (key: &String)
        requires
            i < self@.len(),
        ensures
            key@ == self@[i as int].0,
    {
        &self.entries[i].0
    }

    /// The value of the entry at position `i`.
    pub fn value_at(&self, i: usize) -> (value: &String)
        requires
            i < self@.len(),
        ensures
            value@ == self@[i as int].1,
    {
        &self.entries[i].1
    }

    /// The position of the entry with key `key`, or `len()` when absent.
    pub fn position(&self, key: &str) -> (at: usize)
        ensures
            at == first_from(self@, key@, 0),
            at <= self@.len(),
    {
        let wanted = key.to_owned();
        let n = self.entries.len();
        let mut i: usize = 0;
        while i < n
            invariant
                0 <= i <= n,
                n == self@.len(),
                n == self.entries@.len(),
                wanted@ == key@,
                first_from(self@, key@, 0) == first_from(self@, key@, i as int),
            decreases n - i,
        {
            if self.entries[i].0 == wanted {
                return i;
            }
            i += 1;
        }
        n
    }

    /// The value stored under `key`.
    pub fn get(&self, key: &str) -> (value: Option<&String>)
        ensures
            match value {
                Some(v) => lookup(self@, key@) == Some(v@),
                None => lookup(self@, key@) is None,
            },
    {
        let at = self.position(key);
        if at < self.entries.len() {
            Some(&self.entries[at].1)
        } else {
            None
        }
    }

    /// Whether `key` has a value.
    pub fn contains_key(&self, key: &str) -> (b: bool)
        ensures
            b == has_key(self@, key@),
    {
        proof {
            lemma_lookup_has_key(self@, key@);
        }
        self.position(key) < self.entries.len()
    }

    /// Stores `value` under `key`. An existing entry keeps its place and gets
    /// the new value; a new key goes to the end.
    pub fn insert(&mut self, key: String, value: String)
        ensures
            final(self)@ == inserted(old(self)@, key@, value@),
            final(self).as_map() == old(self).as_map().insert(key@, value@),
            old(self).wf() ==> final(self).wf(),
    {
        let at = self.position(key.as_str());
        let ghost before = self@;
        let ghost k = key@;
        let ghost v = value@;
        proof {
            lemma_inserted(before, k, v);
        }
        if at < self.entries.len() {
            self.entries.set(at, (key, value));
            proof {
                assert(self@ =~= before.update(at as int, (k, v)));
            }
        } else {
            self.entries.push((key, value));
            proof {
                assert(self@ =~= before.push((k, v)));
            }
        }
    }

    /// A copy of the mapping.
    pub fn duplicate(&self) -> (out: Self)
        ensures
            out@ == self@,
    {
        let n = self.entries.len();
        let mut entries: Vec<(String, String)> = Vec::new();
        let mut i: usize = 0;
        while i < n
            invariant
                0 <= i <= n,
                n == self.entries@.len(),
                entries@.len() == i,
                forall|k: int|
                    0 <= k < i ==> (#[trigger] entries@[k]).0@ == self.entries@[k].0@
                        && entries@[k].1@ == self.entries@[k].1@,
            decreases n - i,
        {
            entries.push((self.entries[i].0.clone(), self.entries[i].1.clone()));
            i += 1;
        }
        let out = StrMap { entries };
        proof {
            assert(out@ =~= self@);
        }
        out
    }
}

} // verus!
