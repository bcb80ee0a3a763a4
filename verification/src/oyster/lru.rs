//! Freshness: stamping a record as used, and the scan that drops the records
//! that were not used for too long.

use vstd::prelude::*;
use crate::oyster::{Oyster, Store, lemma_remove_entry, lemma_to_store_keys, lemma_to_store_values};
use crate::pearl::{Pearl, PearlView, EPOCH_YEAR};
use crate::time::epoch_timestamp;

verus! {

/// The age, in milliseconds, beyond which a record is stale: seven days.
pub const MAXIMUM_AGE: usize = 604_800_000;

/// Whether a record last used at `used` is stale at `now`.
pub open spec fn is_stale(used: nat, now: nat) -> bool {
    now - used > MAXIMUM_AGE
}

/// `store` without the records that are stale at `now`.
pub open spec fn scanned(store: Store, now: nat) -> Store {
    store.restrict(Set::new(|key: Seq<char>| !is_stale(store[key].used, now)))
}

/// `store` with the record under `key`, if there is one, stamped as used at
/// `now`.
pub open spec fn stamped(store: Store, key: Seq<char>, now: nat) -> Store {
    if store.contains_key(key) {
        store.insert(key, PearlView { value: store[key].value, used: now })
    } else {
        store
    }
}

/// Whether a record last used at `used` is stale at `now`.
pub fn stale(used: usize, now: usize) -> (old: bool)
    ensures
        old == is_stale(used as nat, now as nat),
{
    now > used && now - used > MAXIMUM_AGE
}

impl Oyster {
    /// Stamps the record under `key` as used now, by the system clock. Without
    /// a record under `key` nothing changes.
    pub fn update_resource_descriptor(&mut self, key: &String)
        requires
            old(self).wf(),
        ensures
            final(self).wf(),
            exists|now: nat| final(self)@ == #[trigger] stamped(old(self)@, key@, now),
    {
        match self.remove(key) {
            Some(pearl) => {
                let fresh = Pearl::new(pearl.0);
                self.insert_full(key.clone(), fresh);
                assert(final(self)@ =~= stamped(old(self)@, key@, fresh@.used));
            },
            None => {
                assert(self@ =~= old(self)@);
                assert(self@ == stamped(old(self)@, key@, 0));
            },
        }
    }

    /// Drops the records that are stale at `now`.
    pub fn scan_with(&mut self, now: usize)
        requires
            old(self).wf(),
        ensures
            final(self).wf(),
            final(self)@ == scanned(old(self)@, now as nat),
            forall|key: Seq<char>| #[trigger]
                final(self)@.contains_key(key) ==> !is_stale(final(self)@[key].used, now as nat),
    {
        let mut i: usize = 0;
        while i < self.entries.len()
            invariant
                self.wf(),
                i <= self.entries@.len(),
                forall|j: int|
                    0 <= j < i ==> !is_stale((#[trigger] self.model()[j]).1.used, now as nat),
                forall|key: Seq<char>| #[trigger]
                    self@.contains_key(key) ==> old(self)@.contains_key(key) && self@[key] == old(
                        self,
                    )@[key],
                forall|key: Seq<char>| #[trigger]
                    old(self)@.contains_key(key) && !is_stale(old(self)@[key].used, now as nat)
                        ==> self@.contains_key(key),
            decreases self.entries@.len() - i,
        {
            proof {
                lemma_to_store_values(self.model());
            }
            assert(self.model()[i as int].1.used == self.entries@[i as int].1.1.used);
            if stale(self.entries[i].1.1.used, now) {
                let ghost before = self.model();
                let ghost store = self@;
                self.entries.remove(i);
                proof {
                    assert(self.model() =~= before.remove(i as int));
                    lemma_remove_entry(before, i as int);
                    assert(self@ == store.remove(before[i as int].0));
                    assert(store.contains_key(before[i as int].0));
                    assert(store[before[i as int].0] == before[i as int].1);
                    assert forall|key: Seq<char>| #[trigger] self@.contains_key(key) implies old(
                        self,
                    )@.contains_key(key) && self@[key] == old(self)@[key] by {
                        assert(store.contains_key(key));
                    }
                    assert forall|j: int| 0 <= j < i implies !is_stale(
                        (#[trigger] self.model()[j]).1.used,
                        now as nat,
                    ) by {
                        assert(self.model()[j] == before[j]);
                    }
                }
            } else {
                i = i + 1;
            }
        }
        proof {
            lemma_to_store_keys(self.model());
            lemma_to_store_values(self.model());
            assert forall|key: Seq<char>| #[trigger] self@.contains_key(key) implies !is_stale(
                self@[key].used,
                now as nat,
            ) by {
                let j = choose|j: int|
                    0 <= j < self.model().len() && (#[trigger] self.model()[j]).0 == key;
                assert(self@[key] == self.model()[j].1);
            }
            assert(self@ =~= scanned(old(self)@, now as nat));
        }
    }

    /// Drops the records that are stale now, by the system clock.
    pub fn scan_sync(&mut self)
        requires
            old(self).wf(),
        ensures
            final(self).wf(),
            exists|now: nat| final(self)@ == #[trigger] scanned(old(self)@, now),
    {
        let now = epoch_timestamp(EPOCH_YEAR);
        self.scan_with(now);
        assert(self@ == scanned(old(self)@, now as nat));
    }
}

} // verus!
