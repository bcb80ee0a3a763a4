//! The count of records after any run of insertions and removals.

use vstd::prelude::*;
use crate::oyster::Store;
use crate::pearl::PearlView;

verus! {

/// One change of a map.
pub enum Change {
    /// A record is stored under a key.
    Insert(Seq<char>, PearlView),
    /// A key is removed.
    Remove(Seq<char>),
}

/// `store` after one change.
pub open spec fn changed(store: Store, change: Change) -> Store {
    match change {
        Change::Insert(key, pearl) => store.insert(key, pearl),
        Change::Remove(key) => store.remove(key),
    }
}

/// By how much one change alters the count of the records of `store`: an
/// insertion under a key that is not there adds one, a removal of a key that
/// is there takes one, and any other change leaves the count.
pub open spec fn gain(store: Store, change: Change) -> int {
    match change {
        Change::Insert(key, _) => if store.contains_key(key) {
            0
        } else {
            1
        },
        Change::Remove(key) => if store.contains_key(key) {
            -1
        } else {
            0
        },
    }
}

/// The empty map after the changes, first to last.
pub open spec fn after(changes: Seq<Change>) -> Store
    decreases changes.len(),
{
    if changes.len() == 0 {
        Map::empty()
    } else {
        changed(after(changes.drop_last()), changes.last())
    }
}

/// The insertions under keys that were not there, less the removals of keys
/// that were there.
pub open spec fn net_count(changes: Seq<Change>) -> int
    decreases changes.len(),
{
    if changes.len() == 0 {
        0
    } else {
        net_count(changes.drop_last()) + gain(after(changes.drop_last()), changes.last())
    }
}

/// After any run of insertions and removals, the map holds as many records as
/// there were insertions under keys that were not there, less the removals of
/// keys that were there.
pub proof fn lemma_count_after(changes: Seq<Change>)
    ensures
        after(changes).dom().finite(),
        after(changes).len() == net_count(changes),
    decreases changes.len(),
{
    if changes.len() > 0 {
        let before = after(changes.drop_last());
        lemma_count_after(changes.drop_last());
        match changes.last() {
            Change::Insert(key, pearl) => {
                assert(before.insert(key, pearl).dom() =~= before.dom().insert(key));
            },
            Change::Remove(key) => {
                assert(before.remove(key).dom() =~= before.dom().remove(key));
            },
        }
    }
}

} // verus!
