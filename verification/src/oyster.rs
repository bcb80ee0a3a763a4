//! The map: keys to records, each key at most once.

pub mod history;
pub mod lru;
pub mod persistance;

use vstd::prelude::*;
use crate::pearl::{Pearl, PearlView};
use crate::text::{
    decimal, ends_with, format_count, parse_count, parsed, spec_without_asterisks, starts_with,
    without_asterisks,
};

verus! {

/// What a map holds, as a mathematical map from a key's characters to the
/// record stored under it.
pub type Store = Map<Seq<char>, PearlView>;

/// A key with its record, as mathematical values.
pub type Entry = (Seq<char>, PearlView);

/// The map that holds each entry of `entries` under its key; of two entries
/// with one key the later one.
pub open spec fn to_store(entries: Seq<Entry>) -> Store
    decreases entries.len(),
{
    if entries.len() == 0 {
        Map::empty()
    } else {
        to_store(entries.drop_last()).insert(entries.last().0, entries.last().1)
    }
}

/// Some entry of `entries` has the key `key`.
pub open spec fn has_key(entries: Seq<Entry>, key: Seq<char>) -> bool {
    exists|j: int| 0 <= j < entries.len() && (#[trigger] entries[j]).0 == key
}

/// No two entries of `entries` have the same key.
pub open spec fn distinct_keys(entries: Seq<Entry>) -> bool {
    forall|i: int, j: int|
        0 <= i < j < entries.len() ==> (#[trigger] entries[i]).0 != (#[trigger] entries[j]).0
}

/// The keys of `to_store(entries)` are the keys of the entries; it is finite.
pub proof fn lemma_to_store_keys(entries: Seq<Entry>)
    ensures
        to_store(entries).dom().finite(),
        forall|key: Seq<char>| #[trigger]
            to_store(entries).contains_key(key) <==> has_key(entries, key),
    decreases entries.len(),
{
    if entries.len() > 0 {
        let front = entries.drop_last();
        lemma_to_store_keys(front);
        assert forall|key: Seq<char>| #[trigger]
            to_store(entries).contains_key(key) <==> has_key(entries, key) by {
            if has_key(entries, key) {
                let j = choose|j: int| 0 <= j < entries.len() && (#[trigger] entries[j]).0 == key;
                if j < front.len() {
                    assert(front[j].0 == key);
                    assert(has_key(front, key));
                }
            }
            if to_store(entries).contains_key(key) {
                if key == entries.last().0 {
                    assert(entries[entries.len() - 1].0 == key);
                } else {
                    assert(has_key(front, key));
                    let j = choose|j: int| 0 <= j < front.len() && (#[trigger] front[j]).0 == key;
                    assert(entries[j].0 == key);
                }
            }
        }
    }
}

/// Where no key occurs twice, `to_store(entries)` holds every entry under its
/// key, and as many keys as there are entries.
pub proof fn lemma_to_store_values(entries: Seq<Entry>)
    requires
        distinct_keys(entries),
    ensures
        forall|j: int|
            0 <= j < entries.len() ==> to_store(entries).contains_key((#[trigger] entries[j]).0)
                && to_store(entries)[entries[j].0] == entries[j].1,
        to_store(entries).len() == entries.len(),
    decreases entries.len(),
{
    if entries.len() > 0 {
        let front = entries.drop_last();
        assert(distinct_keys(front)) by {
            assert forall|i: int, j: int| 0 <= i < j < front.len() implies (#[trigger] front[i]).0 != (
            #[trigger] front[j]).0 by {
                assert(entries[i].0 != entries[j].0);
            }
        }
        lemma_to_store_values(front);
        lemma_to_store_keys(front);
        assert(!has_key(front, entries.last().0)) by {
            if has_key(front, entries.last().0) {
                let j = choose|j: int|
                    0 <= j < front.len() && (#[trigger] front[j]).0 == entries.last().0;
                assert(entries[j].0 != entries[entries.len() - 1].0);
            }
        }
        assert forall|j: int| 0 <= j < entries.len() implies to_store(entries).contains_key(
            (#[trigger] entries[j]).0,
        ) && to_store(entries)[entries[j].0] == entries[j].1 by {
            if j < front.len() {
                assert(front[j] == entries[j]);
                assert(entries[j].0 != entries[entries.len() - 1].0);
            }
        }
    }
}

/// Whether `affix` stands at the end of `key` (`at_end`) or at its start.
pub open spec fn affix_matches(affix: Seq<char>, at_end: bool, key: Seq<char>) -> bool {
    if at_end {
        affix.is_suffix_of(key)
    } else {
        affix.is_prefix_of(key)
    }
}

/// Whether `key` matches `pattern`. A pattern that begins with an asterisk
/// asks for keys that end with the pattern without its asterisks; any other
/// pattern asks for keys that begin with the pattern without its asterisks.
pub open spec fn pattern_matches(pattern: Seq<char>, key: Seq<char>) -> bool {
    affix_matches(spec_without_asterisks(pattern), pattern.len() > 0 && pattern[0] == '*', key)
}

/// `found` lists exactly the records of `store` whose key is `wanted`, each
/// of them once.
pub open spec fn lists_records(
    found: Seq<Entry>,
    store: Store,
    wanted: spec_fn(Seq<char>) -> bool,
) -> bool {
    &&& forall|i: int|
        0 <= i < found.len() ==> store.contains_key((#[trigger] found[i]).0) && store[found[i].0]
            == found[i].1 && wanted(found[i].0)
    &&& forall|key: Seq<char>| #[trigger]
        store.contains_key(key) && wanted(key) ==> exists|i: int|
            0 <= i < found.len() && (#[trigger] found[i]).0 == key
    &&& forall|i: int, j: int|
        0 <= i < j < found.len() ==> (#[trigger] found[i]).0 != (#[trigger] found[j]).0
}

/// `found` lists exactly the keys of `store` that are `wanted`, each of them
/// once.
pub open spec fn lists_keys(
    found: Seq<Seq<char>>,
    store: Store,
    wanted: spec_fn(Seq<char>) -> bool,
) -> bool {
    &&& forall|i: int|
        0 <= i < found.len() ==> store.contains_key(#[trigger] found[i]) && wanted(found[i])
    &&& forall|key: Seq<char>| #[trigger]
        store.contains_key(key) && wanted(key) ==> exists|i: int|
            0 <= i < found.len() && #[trigger] found[i] == key
    &&& forall|i: int, j: int|
        0 <= i < j < found.len() ==> #[trigger] found[i] != #[trigger] found[j]
}

/// The records that a list of references names.
pub open spec fn records_view(found: Seq<(&String, &Pearl)>) -> Seq<Entry> {
    Seq::new(found.len(), |i: int| (found[i].0@, found[i].1@))
}

/// The keys that a list of references names.
pub open spec fn keys_view(found: Seq<&String>) -> Seq<Seq<char>> {
    Seq::new(found.len(), |i: int| found[i]@)
}

/// The map of key-value records.
pub struct Oyster {
    entries: Vec<(String, Pearl)>,
}

impl View for Oyster {
    type V = Store;

    closed spec fn view(&self) -> Store {
        to_store(self.model())
    }
}

impl Default for Oyster {
    /// A map without records.
    fn default() -> (map: Self)
        ensures
            map.wf(),
            map@ == Store::empty(),
    {
        Oyster::new()
    }
}

impl Oyster {
    /// The entries in the order in which they are held.
    pub closed spec fn model(&self) -> Seq<Entry> {
        Seq::new(self.entries@.len(), |i: int| (self.entries@[i].0@, self.entries@[i].1@))
    }

    /// No key is held twice.
    pub closed spec fn wf(&self) -> bool {
        distinct_keys(self.model())
    }

    /// A well-formed map has finitely many keys.
    pub proof fn lemma_finite(&self)
        ensures
            self@.dom().finite(),
    {
        lemma_to_store_keys(self.model());
    }

    /// A map without records.
    pub fn new() -> (map: Self)
        ensures
            map.wf(),
            map@ == Store::empty(),
    {
        let map = Oyster { entries: Vec::new() };
        assert(map.model() =~= Seq::<Entry>::empty());
        map
    }

    /// The keys with their records, each key once, in no particular order.
    pub fn into_entries(self) -> (entries: Vec<(String, Pearl)>)
        requires
            self.wf(),
        ensures
            lists_records(
                Seq::new(entries@.len(), |i: int| (entries@[i].0@, entries@[i].1@)),
                self@,
                |key: Seq<char>| true,
            ),
    {
        proof {
            lemma_to_store_keys(self.model());
            lemma_to_store_values(self.model());
            assert(Seq::new(self.entries@.len(), |i: int| (self.entries@[i].0@, self.entries@[i].1@))
                =~= self.model());
        }
        self.entries
    }

    /// The number of records.
    pub fn len(&self) -> (count: usize)
        requires
            self.wf(),
        ensures
            count == self@.len(),
    {
        proof {
            lemma_to_store_values(self.model());
        }
        self.entries.len()
    }

    /// The index of the entry with the key `key`.
    fn position(&self, key: &String) -> (found: Option<usize>)
        ensures
            match found {
                Some(i) => i < self.entries@.len() && self.model()[i as int].0 == key@,
                None => !has_key(self.model(), key@),
            },
    {
        let n = self.entries.len();
        let mut i: usize = 0;
        while i < n
            invariant
                i <= n,
                n == self.entries@.len(),
                forall|j: int| 0 <= j < i ==> (#[trigger] self.model()[j]).0 != key@,
            decreases n - i,
        {
            if self.entries[i].0 == *key {
                return Some(i);
            }
            i = i + 1;
        }
        None
    }

    /// The record stored under `key`, if there is one.
    pub fn get_full(&self, key: &String) -> (found: Option<&Pearl>)
        requires
            self.wf(),
        ensures
            match found {
                Some(pearl) => self@.contains_key(key@) && pearl@ == self@[key@],
                None => !self@.contains_key(key@),
            },
    {
        proof {
            lemma_to_store_keys(self.model());
            lemma_to_store_values(self.model());
        }
        match self.position(key) {
            Some(i) => {
                assert(self.model()[i as int].1 == self.entries@[i as int].1@);
                Some(&self.entries[i].1)
            },
            None => None,
        }
    }

    /// The value stored under `key`, if there is one.
    pub fn get(&self, key: &String) -> (found: Option<&String>)
        requires
            self.wf(),
        ensures
            match found {
                Some(value) => self@.contains_key(key@) && value@ == self@[key@].value,
                None => !self@.contains_key(key@),
            },
    {
        match self.get_full(key) {
            Some(pearl) => Some(&pearl.0),
            None => None,
        }
    }

    /// Stores `value` under `key` and returns the record that was stored there
    /// before, if there was one.
    pub fn insert_full(&mut self, key: String, value: Pearl) -> (previous: Option<Pearl>)
        requires
            old(self).wf(),
        ensures
            final(self).wf(),
            final(self)@ == old(self)@.insert(key@, value@),
            match previous {
                Some(pearl) => old(self)@.contains_key(key@) && pearl@ == old(self)@[key@],
                None => !old(self)@.contains_key(key@),
            },
    {
        let previous = self.remove(&key);
        let ghost middle = self.model();
        proof {
            lemma_to_store_keys(middle);
        }
        self.entries.push((key, value));
        proof {
            let after = self.model();
            assert(after.drop_last() =~= middle);
            assert(after.last() == (key@, value@));
            assert(old(self)@.remove(key@).insert(key@, value@) =~= old(self)@.insert(
                key@,
                value@,
            ));
            assert forall|i: int, j: int| 0 <= i < j < after.len() implies (#[trigger] after[i]).0 != (
            #[trigger] after[j]).0 by {
                if j < middle.len() {
                    assert(middle[i].0 != middle[j].0);
                } else {
                    assert(middle[i] == after[i]);
                    assert(!to_store(middle).contains_key(key@));
                    if middle[i].0 == key@ {
                        assert(has_key(middle, key@));
                    }
                }
            }
        }
        previous
    }

    /// Takes the record stored under `key` out of the map and returns it, if
    /// there is one.
    pub fn remove(&mut self, key: &String) -> (previous: Option<Pearl>)
        requires
            old(self).wf(),
        ensures
            final(self).wf(),
            final(self)@ == old(self)@.remove(key@),
            match previous {
                Some(pearl) => old(self)@.contains_key(key@) && pearl@ == old(self)@[key@],
                None => !old(self)@.contains_key(key@),
            },
    {
        proof {
            lemma_to_store_keys(self.model());
            lemma_to_store_values(self.model());
        }
        match self.position(key) {
            Some(i) => {
                let ghost before = self.model();
                let entry = self.entries.remove(i);
                proof {
                    let after = self.model();
                    assert(after =~= before.remove(i as int));
                    lemma_remove_entry(before, i as int);
                }
                Some(entry.1)
            },
            None => {
                assert(self@.remove(key@) =~= self@);
                None
            },
        }
    }

    /// Stores `value` under `key` as a record that was last used now, by the
    /// system clock, and returns the record that was stored there before, if
    /// there was one.
    pub fn insert(&mut self, key: String, value: String) -> (previous: Option<Pearl>)
        requires
            old(self).wf(),
        ensures
            final(self).wf(),
            final(self)@.contains_key(key@),
            final(self)@[key@].value == value@,
            final(self)@ == old(self)@.insert(key@, final(self)@[key@]),
            match previous {
                Some(pearl) => old(self)@.contains_key(key@) && pearl@ == old(self)@[key@],
                None => !old(self)@.contains_key(key@),
            },
    {
        let pearl = Pearl::new(value);
        self.insert_full(key, pearl)
    }

    /// Adds one to the number stored under `key`, as a record that was last
    /// used now, and returns the record that was stored there before. Without
    /// a record under `key` nothing changes and `None` is returned.
    pub fn incr(&mut self, key: String) -> (previous: Option<Pearl>)
        requires
            old(self).wf(),
            old(self)@.contains_key(key@) ==> parsed(old(self)@[key@].value) is Some && parsed(
                old(self)@[key@].value,
            ).unwrap() < usize::MAX,
        ensures
            final(self).wf(),
            match previous {
                Some(pearl) => {
                    &&& old(self)@.contains_key(key@)
                    &&& pearl@ == old(self)@[key@]
                    &&& final(self)@.contains_key(key@)
                    &&& final(self)@[key@].value == decimal(
                        parsed(old(self)@[key@].value).unwrap() + 1,
                    )
                    &&& final(self)@ == old(self)@.insert(key@, final(self)@[key@])
                },
                None => !old(self)@.contains_key(key@) && final(self)@ == old(self)@,
            },
    {
        let count = match self.get(&key) {
            Some(value) => parse_count(value.as_str()),
            None => {
                return None;
            },
        };
        match count {
            Some(n) => self.insert(key, format_count(n + 1)),
            None => None,
        }
    }

    /// Takes one from the number stored under `key`, unless it is zero, as a
    /// record that was last used now, and returns the record that was stored
    /// there before. Without a record under `key` nothing changes and `None`
    /// is returned.
    pub fn decr(&mut self, key: String) -> (previous: Option<Pearl>)
        requires
            old(self).wf(),
            old(self)@.contains_key(key@) ==> parsed(old(self)@[key@].value) is Some && parsed(
                old(self)@[key@].value,
            ).unwrap() <= usize::MAX,
        ensures
            final(self).wf(),
            match previous {
                Some(pearl) => {
                    &&& old(self)@.contains_key(key@)
                    &&& pearl@ == old(self)@[key@]
                    &&& final(self)@.contains_key(key@)
                    &&& final(self)@[key@].value == decimal(
                        spec_decrement(parsed(old(self)@[key@].value).unwrap()),
                    )
                    &&& final(self)@ == old(self)@.insert(key@, final(self)@[key@])
                },
                None => !old(self)@.contains_key(key@) && final(self)@ == old(self)@,
            },
    {
        let count = match self.get(&key) {
            Some(value) => parse_count(value.as_str()),
            None => {
                return None;
            },
        };
        match count {
            Some(n) => {
                let next = if n == 0 {
                    0
                } else {
                    n - 1
                };
                self.insert(key, format_count(next))
            },
            None => None,
        }
    }

    /// The records whose key has `affix` at its end (`at_end`) or at its
    /// start.
    fn select(&self, affix: &str, at_end: bool) -> (found: Vec<(&String, &Pearl)>)
        requires
            self.wf(),
        ensures
            lists_records(
                records_view(found@),
                self@,
                |key: Seq<char>| affix_matches(affix@, at_end, key),
            ),
    {
        let n = self.entries.len();
        let mut found: Vec<(&String, &Pearl)> = Vec::new();
        let ghost mut origin: Seq<int> = Seq::empty();
        let mut i: usize = 0;
        while i < n
            invariant
                i <= n,
                n == self.entries@.len(),
                origin.len() == found@.len(),
                forall|a: int|
                    0 <= a < origin.len() ==> 0 <= (#[trigger] origin[a]) < i && records_view(
                        found@,
                    )[a] == self.model()[origin[a]] && affix_matches(
                        affix@,
                        at_end,
                        self.model()[origin[a]].0,
                    ),
                forall|a: int, b: int|
                    0 <= a < b < origin.len() ==> (#[trigger] origin[a]) < (#[trigger] origin[b]),
                forall|j: int|
                    0 <= j < i && affix_matches(affix@, at_end, (#[trigger] self.model()[j]).0)
                        ==> exists|a: int| 0 <= a < origin.len() && #[trigger] origin[a] == j,
            decreases n - i,
        {
            let key = &self.entries[i].0;
            let wanted = if at_end {
                ends_with(key.as_str(), affix)
            } else {
                starts_with(key.as_str(), affix)
            };
            assert(self.model()[i as int].0 == key@);
            if wanted {
                let ghost before = origin;
                found.push((key, &self.entries[i].1));
                proof {
                    origin = origin.push(i as int);
                    assert forall|j: int|
                        0 <= j < i + 1 && affix_matches(
                            affix@,
                            at_end,
                            (#[trigger] self.model()[j]).0,
                        ) implies exists|a: int| 0 <= a < origin.len() && #[trigger] origin[a]
                        == j by {
                        if j < i {
                            let a = choose|a: int|
                                0 <= a < before.len() && #[trigger] before[a] == j;
                            assert(origin[a] == j);
                        } else {
                            assert(origin[before.len() as int] == j);
                        }
                    }
                }
            }
            i = i + 1;
        }
        proof {
            let entries = self.model();
            let listed = records_view(found@);
            lemma_to_store_keys(entries);
            lemma_to_store_values(entries);
            assert forall|a: int| 0 <= a < listed.len() implies self@.contains_key(
                (#[trigger] listed[a]).0,
            ) && self@[listed[a].0] == listed[a].1 && affix_matches(affix@, at_end, listed[a].0) by {
                assert(listed[a] == entries[origin[a]]);
            }
            assert forall|key: Seq<char>| #[trigger]
                self@.contains_key(key) && affix_matches(affix@, at_end, key) implies exists|
                a: int,
            | 0 <= a < listed.len() && (#[trigger] listed[a]).0 == key by {
                let j = choose|j: int| 0 <= j < entries.len() && (#[trigger] entries[j]).0 == key;
                let a = choose|a: int| 0 <= a < origin.len() && #[trigger] origin[a] == j;
                assert(listed[a].0 == key);
            }
            assert forall|a: int, b: int| 0 <= a < b < listed.len() implies (#[trigger] listed[a]).0
                != (#[trigger] listed[b]).0 by {
                assert(origin[a] < origin[b]);
                assert(entries[origin[a]].0 != entries[origin[b]].0);
            }
        }
        found
    }

    /// The keys of the records in `found`.
    fn keys_only<'a>(found: Vec<(&'a String, &'a Pearl)>) -> (keys: Vec<&'a String>)
        ensures
            keys_view(keys@) == Seq::new(found@.len(), |i: int| records_view(found@)[i].0),
    {
        let n = found.len();
        let mut keys: Vec<&String> = Vec::new();
        let mut i: usize = 0;
        while i < n
            invariant
                i <= n,
                n == found@.len(),
                keys@.len() == i,
                forall|j: int| 0 <= j < i ==> (#[trigger] keys@[j])@ == found@[j].0@,
            decreases n - i,
        {
            keys.push(found[i].0);
            i = i + 1;
        }
        assert(keys_view(keys@) =~= Seq::new(found@.len(), |i: int| records_view(found@)[i].0));
        keys
    }

    /// The records whose key begins with `prefix`.
    pub fn starting_with(&self, prefix: &str) -> (found: Vec<(&String, &Pearl)>)
        requires
            self.wf(),
        ensures
            lists_records(
                records_view(found@),
                self@,
                |key: Seq<char>| prefix@.is_prefix_of(key),
            ),
    {
        self.select(prefix, false)
    }

    /// The records whose key ends with `suffix`.
    pub fn ending_with(&self, suffix: &str) -> (found: Vec<(&String, &Pearl)>)
        requires
            self.wf(),
        ensures
            lists_records(
                records_view(found@),
                self@,
                |key: Seq<char>| suffix@.is_suffix_of(key),
            ),
    {
        self.select(suffix, true)
    }

    /// The records whose key matches `pattern`.
    pub fn filter(&self, pattern: &str) -> (found: Vec<(&String, &Pearl)>)
        requires
            self.wf(),
        ensures
            lists_records(
                records_view(found@),
                self@,
                |key: Seq<char>| pattern_matches(pattern@, key),
            ),
    {
        let plain = without_asterisks(pattern);
        let at_end = leads_with_asterisk(pattern);
        self.select(plain.as_str(), at_end)
    }

    /// The keys that begin with `prefix`.
    pub fn starting_with_keys(&self, prefix: &str) -> (found: Vec<&String>)
        requires
            self.wf(),
        ensures
            lists_keys(keys_view(found@), self@, |key: Seq<char>| prefix@.is_prefix_of(key)),
    {
        let records = self.select(prefix, false);
        let keys = Self::keys_only(records);
        proof {
            lemma_keys_of_records(
                records_view(records@),
                keys_view(keys@),
                self@,
                |key: Seq<char>| affix_matches(prefix@, false, key),
                |key: Seq<char>| prefix@.is_prefix_of(key),
            );
        }
        keys
    }

    /// The keys that end with `suffix`.
    pub fn ending_with_keys(&self, suffix: &str) -> (found: Vec<&String>)
        requires
            self.wf(),
        ensures
            lists_keys(keys_view(found@), self@, |key: Seq<char>| suffix@.is_suffix_of(key)),
    {
        let records = self.select(suffix, true);
        let keys = Self::keys_only(records);
        proof {
            lemma_keys_of_records(
                records_view(records@),
                keys_view(keys@),
                self@,
                |key: Seq<char>| affix_matches(suffix@, true, key),
                |key: Seq<char>| suffix@.is_suffix_of(key),
            );
        }
        keys
    }

    /// The keys that match `pattern`.
    pub fn filter_keys(&self, pattern: &str) -> (found: Vec<&String>)
        requires
            self.wf(),
        ensures
            lists_keys(keys_view(found@), self@, |key: Seq<char>| pattern_matches(pattern@, key)),
    {
        let plain = without_asterisks(pattern);
        let at_end = leads_with_asterisk(pattern);
        let records = self.select(plain.as_str(), at_end);
        let keys = Self::keys_only(records);
        proof {
            lemma_keys_of_records(
                records_view(records@),
                keys_view(keys@),
                self@,
                |key: Seq<char>| affix_matches(plain@, at_end, key),
                |key: Seq<char>| pattern_matches(pattern@, key),
            );
        }
        keys
    }
}

/// A counter after it was taken down by one: it stops at zero.
pub open spec fn spec_decrement(n: nat) -> nat {
    if n == 0 {
        0
    } else {
        (n - 1) as nat
    }
}

/// Whether `pattern` begins with an asterisk.
pub fn leads_with_asterisk(pattern: &str) -> (leads: bool)
    ensures
        leads == (pattern@.len() > 0 && pattern@[0] == '*'),
{
    proof {
        reveal_strlit("*");
    }
    let leads = starts_with(pattern, "*");
    proof {
        let star = "*"@;
        assert(star =~= seq!['*']);
        if pattern@.len() > 0 {
            assert(pattern@.subrange(0, 1) =~= seq![pattern@[0]]);
            if leads {
                assert(pattern@.subrange(0, 1)[0] == star[0]);
            }
        }
    }
    leads
}

/// The keys of a list of exactly the wanted records are exactly the wanted
/// keys, also by another test that agrees with the first on every key of the
/// map.
pub proof fn lemma_keys_of_records(
    records: Seq<Entry>,
    keys: Seq<Seq<char>>,
    store: Store,
    wanted: spec_fn(Seq<char>) -> bool,
    same: spec_fn(Seq<char>) -> bool,
)
    requires
        lists_records(records, store, wanted),
        keys == Seq::new(records.len(), |i: int| records[i].0),
        forall|key: Seq<char>| #[trigger] store.contains_key(key) ==> wanted(key) == same(key),
    ensures
        lists_keys(keys, store, same),
{
    assert forall|key: Seq<char>| #[trigger] store.contains_key(key) && same(key) implies exists|
        i: int,
    | 0 <= i < keys.len() && #[trigger] keys[i] == key by {
        assert(wanted(key));
        let i = choose|i: int| 0 <= i < records.len() && (#[trigger] records[i]).0 == key;
        assert(keys[i] == key);
    }
    assert forall|i: int| 0 <= i < keys.len() implies store.contains_key(#[trigger] keys[i])
        && same(keys[i]) by {
        assert(store.contains_key(records[i].0));
    }
    assert forall|i: int, j: int| 0 <= i < j < keys.len() implies #[trigger] keys[i]
        != #[trigger] keys[j] by {
        assert(records[i].0 != records[j].0);
    }
}

/// Taking one entry out of entries with distinct keys leaves distinct keys, and
/// their map is the map of all of them without the key of that entry.
pub proof fn lemma_remove_entry(entries: Seq<Entry>, i: int)
    requires
        distinct_keys(entries),
        0 <= i < entries.len(),
    ensures
        distinct_keys(entries.remove(i)),
        to_store(entries.remove(i)) == to_store(entries).remove(entries[i].0),
{
    let rest = entries.remove(i);
    assert forall|a: int, b: int| 0 <= a < b < rest.len() implies (#[trigger] rest[a]).0 != (
    #[trigger] rest[b]).0 by {
        let a2 = if a < i {
            a
        } else {
            a + 1
        };
        let b2 = if b < i {
            b
        } else {
            b + 1
        };
        assert(entries[a2].0 != entries[b2].0);
    }
    lemma_to_store_keys(entries);
    lemma_to_store_keys(rest);
    lemma_to_store_values(entries);
    lemma_to_store_values(rest);
    let gone = entries[i].0;
    assert forall|key: Seq<char>| #[trigger]
        to_store(rest).contains_key(key) <==> to_store(entries).remove(gone).contains_key(
            key,
        ) by {
        if has_key(rest, key) {
            let j = choose|j: int| 0 <= j < rest.len() && (#[trigger] rest[j]).0 == key;
            let j2 = if j < i {
                j
            } else {
                j + 1
            };
            assert(entries[j2].0 == key);
            assert(entries[j2].0 != entries[i].0);
        }
        if has_key(entries, key) && key != gone {
            let j = choose|j: int| 0 <= j < entries.len() && (#[trigger] entries[j]).0 == key;
            let j2 = if j < i {
                j
            } else {
                j - 1
            };
            assert(rest[j2].0 == key);
        }
    }
    assert forall|key: Seq<char>| to_store(rest).contains_key(key) implies to_store(rest)[key]
        == to_store(entries).remove(gone)[key] by {
        let j = choose|j: int| 0 <= j < rest.len() && (#[trigger] rest[j]).0 == key;
        let j2 = if j < i {
            j
        } else {
            j + 1
        };
        assert(entries[j2] == rest[j]);
    }
    assert(to_store(rest) =~= to_store(entries).remove(gone));
}

/// A record that was stored under a key is the one found there, whatever the
/// map held before.
pub proof fn lemma_get_after_insert(store: Store, key: Seq<char>, pearl: PearlView)
    ensures
        store.insert(key, pearl).contains_key(key),
        store.insert(key, pearl)[key] == pearl,
{
}

/// After a record was stored under a key and the key was removed, nothing is
/// found under the key.
pub proof fn lemma_get_after_remove(store: Store, key: Seq<char>, pearl: PearlView)
    ensures
        !store.insert(key, pearl).remove(key).contains_key(key),
{
}

/// Text without asterisks stays as it is when its asterisks are taken out.
pub proof fn lemma_without_asterisks_plain(plain: Seq<char>)
    requires
        forall|i: int| 0 <= i < plain.len() ==> plain[i] != '*',
    ensures
        spec_without_asterisks(plain) == plain,
    decreases plain.len(),
{
    reveal(Seq::filter);
    if plain.len() > 0 {
        lemma_without_asterisks_plain(plain.drop_last());
        assert(plain.drop_last().push(plain.last()) =~= plain);
    }
}

/// A pattern made of text without asterisks, not empty, and an asterisk
/// behind it matches exactly the keys that begin with the text.
pub proof fn lemma_pattern_prefix(plain: Seq<char>, key: Seq<char>)
    requires
        plain.len() > 0,
        forall|i: int| 0 <= i < plain.len() ==> plain[i] != '*',
    ensures
        pattern_matches(plain.push('*'), key) == plain.is_prefix_of(key),
{
    reveal(Seq::filter);
    lemma_without_asterisks_plain(plain);
    assert(plain.push('*').drop_last() =~= plain);
}

/// A pattern made of an asterisk and text without asterisks behind it matches
/// exactly the keys that end with the text.
pub proof fn lemma_pattern_suffix(plain: Seq<char>, key: Seq<char>)
    requires
        forall|i: int| 0 <= i < plain.len() ==> plain[i] != '*',
    ensures
        pattern_matches(seq!['*'] + plain, key) == plain.is_suffix_of(key),
{
    let keep = |c: char| c != '*';
    lemma_without_asterisks_plain(plain);
    assert(seq!['*'].filter(keep) =~= Seq::<char>::empty()) by {
        reveal(Seq::filter);
        assert(seq!['*'].drop_last() =~= Seq::<char>::empty());
    }
    Seq::filter_distributes_over_add(seq!['*'], plain, keep);
    assert(Seq::<char>::empty() + plain =~= plain);
}

/// The pattern of one asterisk matches every key.
pub proof fn lemma_pattern_asterisk(key: Seq<char>)
    ensures
        pattern_matches(seq!['*'], key),
{
    lemma_pattern_suffix(Seq::empty(), key);
    assert(seq!['*'] + Seq::<char>::empty() =~= seq!['*']);
    assert(key.subrange(key.len() as int, key.len() as int) =~= Seq::<char>::empty());
}

/// A counter that stands at zero stands at zero after it was taken down, and
/// what is stored for a counter is never the text of a number below zero: it is
/// the decimal text of a natural number.
pub proof fn lemma_decrement_stops_at_zero()
    ensures
        parsed(seq!['0']) == Some(0nat),
        decimal(spec_decrement(0)) == seq!['0'],
        forall|n: nat| spec_decrement(n) >= 0 && parsed(decimal(spec_decrement(n))) == Some(
            spec_decrement(n),
        ),
{
    assert(seq!['0'].drop_last() =~= Seq::<char>::empty());
    assert(crate::text::digits_value(seq!['0'].drop_last()) == Some(0nat));
    assert forall|n: nat| spec_decrement(n) >= 0 && parsed(decimal(spec_decrement(n))) == Some(
        spec_decrement(n),
    ) by {
        crate::text::lemma_parsed_decimal(spec_decrement(n));
    }
}

} // verus!
