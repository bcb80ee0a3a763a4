//! Snapshots: the rows that stand for a map, and what to do with each row of
//! the table that keeps them.

use vstd::prelude::*;
use crate::oyster::{
    Entry, has_key, lemma_to_store_keys, lemma_to_store_values, lists_records, Oyster, Store,
    to_store,
};
use crate::pearl::{Pearl, PearlView};

verus! {

/// One row of the snapshot table: a key, the value stored under it, and when
/// the record was last used.
#[derive(Debug)]
pub struct Row {
    /// The key.
    pub key: String,
    /// The value.
    pub value: String,
    /// Milliseconds from the start of the epoch year to the last use.
    pub used: usize,
}

impl View for Row {
    type V = Entry;

    open spec fn view(&self) -> Entry {
        (self.key@, PearlView { value: self.value@, used: self.used as nat })
    }
}

/// What a snapshot does with the table's row for one record.
#[derive(Clone, Copy, Debug, PartialEq, Eq, Structural)]
pub enum RowWrite {
    /// The table has no row for the key: add one.
    Insert,
    /// The table's row differs from the record: overwrite it.
    Update,
    /// The table's row is the record: leave it.
    Keep,
}

/// What a removal from the map does with the snapshot table.
#[derive(Clone, Copy, Debug, PartialEq, Eq, Structural)]
pub enum RowRemoval {
    /// Delete the rows with the key.
    Delete,
    /// There is no table: do nothing.
    Nothing,
}

/// The rows that a list names.
pub open spec fn rows_view(rows: Seq<Row>) -> Seq<Entry> {
    Seq::new(rows.len(), |i: int| rows[i]@)
}

/// The record that `table` holds under `key`, if it holds one.
pub open spec fn lookup(table: Store, key: Seq<char>) -> Option<PearlView> {
    if table.contains_key(key) {
        Some(table[key])
    } else {
        None
    }
}

/// What a snapshot does for `record` where the table holds `existing` under
/// the record's key.
pub open spec fn spec_write(existing: Option<PearlView>, record: PearlView) -> RowWrite {
    match existing {
        None => RowWrite::Insert,
        Some(row) => if row.value != record.value || row.used != record.used {
            RowWrite::Update
        } else {
            RowWrite::Keep
        },
    }
}

/// `table` after the snapshot of one record under `key`.
pub open spec fn upserted(table: Store, key: Seq<char>, record: PearlView) -> Store {
    match spec_write(lookup(table, key), record) {
        RowWrite::Insert => table.insert(key, record),
        RowWrite::Update => table.insert(key, record),
        RowWrite::Keep => table,
    }
}

/// `table` after the snapshot of each of `rows`, first to last.
pub open spec fn dumped(table: Store, rows: Seq<Entry>) -> Store
    decreases rows.len(),
{
    if rows.len() == 0 {
        table
    } else {
        upserted(dumped(table, rows.drop_last()), rows.last().0, rows.last().1)
    }
}

/// `store` after each of `rows` was stored in it, first to last.
pub open spec fn restored(store: Store, rows: Seq<Entry>) -> Store
    decreases rows.len(),
{
    if rows.len() == 0 {
        store
    } else {
        restored(store, rows.drop_last()).insert(rows.last().0, rows.last().1)
    }
}

/// Every key is wanted.
pub open spec fn every_key() -> spec_fn(Seq<char>) -> bool {
    |key: Seq<char>| true
}

/// After the snapshot of a record the table holds it under its key, and
/// nothing else has changed.
pub proof fn lemma_upserted(table: Store, key: Seq<char>, record: PearlView)
    ensures
        upserted(table, key, record) == table.insert(key, record),
{
    assert(upserted(table, key, record) =~= table.insert(key, record));
}

/// A snapshot stores every row and deletes none: the table afterwards is the
/// table before, overlaid with the rows; storing rows in a map does the same.
pub proof fn lemma_dumped(table: Store, rows: Seq<Entry>)
    ensures
        dumped(table, rows) == table.union_prefer_right(to_store(rows)),
        restored(table, rows) == table.union_prefer_right(to_store(rows)),
    decreases rows.len(),
{
    if rows.len() == 0 {
        assert(table.union_prefer_right(to_store(rows)) =~= table);
    } else {
        let front = rows.drop_last();
        lemma_dumped(table, front);
        lemma_upserted(dumped(table, front), rows.last().0, rows.last().1);
        assert(table.union_prefer_right(to_store(front)).insert(rows.last().0, rows.last().1)
            =~= table.union_prefer_right(to_store(rows)));
    }
}

/// Rows that list exactly the records of a map give that map back when they
/// are stored in an empty one.
pub proof fn lemma_rows_give_store(store: Store, rows: Seq<Entry>)
    requires
        lists_records(rows, store, every_key()),
    ensures
        to_store(rows) == store,
        restored(Store::empty(), rows) == store,
        dumped(Store::empty(), rows) == store,
{
    lemma_to_store_keys(rows);
    lemma_to_store_values(rows);
    assert forall|key: Seq<char>| #[trigger] to_store(rows).contains_key(key) implies store.contains_key(
        key,
    ) && store[key] == to_store(rows)[key] by {
        let j = choose|j: int| 0 <= j < rows.len() && (#[trigger] rows[j]).0 == key;
        assert(store.contains_key(rows[j].0));
    }
    assert forall|key: Seq<char>| #[trigger] store.contains_key(key) implies to_store(
        rows,
    ).contains_key(key) by {
        assert(every_key()(key));
        let i = choose|i: int| 0 <= i < rows.len() && (#[trigger] rows[i]).0 == key;
        assert(has_key(rows, key));
    }
    assert(to_store(rows) =~= store);
    lemma_dumped(Store::empty(), rows);
    assert(Store::empty().union_prefer_right(store) =~= store);
}

/// A snapshot into an empty table, read back into an empty map, gives the map
/// that was dumped: `written` are the rows that the dump hands out for
/// `store`, and `read` are the rows of the table afterwards, in any order.
pub proof fn lemma_dump_then_restore(store: Store, written: Seq<Entry>, read: Seq<Entry>)
    requires
        lists_records(written, store, every_key()),
        lists_records(read, dumped(Store::empty(), written), every_key()),
    ensures
        restored(Store::empty(), read) == store,
{
    lemma_rows_give_store(store, written);
    lemma_rows_give_store(store, read);
}

/// A record that was stored in a map is found in the map that a snapshot of
/// it into an empty table, read back into an empty map, gives: `written` are
/// the rows that the dump hands out for the map with the record, and `read`
/// are the rows of the table afterwards, in any order.
pub proof fn lemma_insert_dump_restore(
    store: Store,
    key: Seq<char>,
    pearl: PearlView,
    written: Seq<Entry>,
    read: Seq<Entry>,
)
    requires
        lists_records(written, store.insert(key, pearl), every_key()),
        lists_records(read, dumped(Store::empty(), written), every_key()),
    ensures
        restored(Store::empty(), read).contains_key(key),
        restored(Store::empty(), read)[key] == pearl,
{
    lemma_dump_then_restore(store.insert(key, pearl), written, read);
}

impl Oyster {
    /// The rows of a snapshot: one for every record of the map.
    pub fn dump(&self) -> (rows: Vec<Row>)
        requires
            self.wf(),
        ensures
            lists_records(rows_view(rows@), self@, every_key()),
    {
        let n = self.entries.len();
        let mut rows: Vec<Row> = Vec::new();
        let mut i: usize = 0;
        while i < n
            invariant
                i <= n,
                n == self.entries@.len(),
                rows@.len() == i,
                forall|j: int| 0 <= j < i ==> (#[trigger] rows@[j])@ == self.model()[j],
            decreases n - i,
        {
            let key = self.entries[i].0.clone();
            let value = self.entries[i].1.0.clone();
            let used = self.entries[i].1.1.used;
            rows.push(Row { key, value, used });
            i = i + 1;
        }
        proof {
            assert(rows_view(rows@) =~= self.model());
            lemma_to_store_keys(self.model());
            lemma_to_store_values(self.model());
        }
        rows
    }

    /// Stores each of `rows` in the map, first to last, with the time of last
    /// use that the row gives.
    pub fn restore(&mut self, rows: &Vec<Row>)
        requires
            old(self).wf(),
        ensures
            final(self).wf(),
            final(self)@ == restored(old(self)@, rows_view(rows@)),
    {
        let n = rows.len();
        let mut i: usize = 0;
        while i < n
            invariant
                i <= n,
                n == rows@.len(),
                self.wf(),
                self@ == restored(old(self)@, rows_view(rows@).take(i as int)),
            decreases n - i,
        {
            let key = rows[i].key.clone();
            let pearl = Pearl::at(rows[i].value.clone(), rows[i].used);
            proof {
                let next = rows_view(rows@).take(i + 1);
                assert(next.drop_last() =~= rows_view(rows@).take(i as int));
                assert(next.last() == (key@, pearl@));
            }
            self.insert_full(key, pearl);
            i = i + 1;
        }
        assert(rows_view(rows@).take(n as int) =~= rows_view(rows@));
    }

    /// What a snapshot does with the table's row for the record `record`,
    /// where `existing` is what the table holds under the record's key.
    pub fn write_into_db(existing: Option<&Pearl>, record: &Pearl) -> (action: RowWrite)
        ensures
            action == spec_write(
                match existing {
                    Some(row) => Some(row@),
                    None => None,
                },
                record@,
            ),
    {
        match existing {
            None => RowWrite::Insert,
            Some(row) => {
                if row.0 != record.0 || row.1.used != record.1.used {
                    RowWrite::Update
                } else {
                    RowWrite::Keep
                }
            },
        }
    }

    /// What the removal of a key from the map does with the snapshot table:
    /// its rows for the key are deleted where the table's file exists.
    pub fn remove_from_db(file_exists: bool) -> (action: RowRemoval)
        ensures
            action == if file_exists {
                RowRemoval::Delete
            } else {
                RowRemoval::Nothing
            },
    {
        if file_exists {
            RowRemoval::Delete
        } else {
            RowRemoval::Nothing
        }
    }
}

} // verus!
