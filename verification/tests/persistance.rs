use oysters::config::{default_port, Config};
use oysters::oyster::persistance::{Row, RowRemoval, RowWrite};
use oysters::pearl::Pearl;
use oysters::Oyster;
use rusqlite::Connection;

fn s(text: &str) -> String {
    text.to_string()
}

fn rows_sorted(map: &Oyster) -> Vec<(String, String, usize)> {
    let mut rows: Vec<(String, String, usize)> =
        map.dump().into_iter().map(|r| (r.key, r.value, r.used)).collect();
    rows.sort();
    rows
}

#[test]
fn dump_gives_one_row_for_each_record() {
    let mut map = Oyster::new();
    map.insert_full(s("a"), Pearl::at(s("1"), 10));
    map.insert_full(s("b"), Pearl::at(s("2"), 20));
    map.insert_full(s("a"), Pearl::at(s("3"), 30));
    assert_eq!(rows_sorted(&map), vec![(s("a"), s("3"), 30), (s("b"), s("2"), 20)]);
    assert!(Oyster::new().dump().is_empty());
}

#[test]
fn dump_restore_survives_restart() {
    let mut map = Oyster::new();
    map.insert(s("a"), s("1"));
    map.insert(s("b"), s("2"));
    let rows = map.dump();
    drop(map);
    let mut map = Oyster::new();
    map.restore(&rows);
    assert_eq!(map.get(&s("a")), Some(&s("1")));
    assert_eq!(map.get(&s("b")), Some(&s("2")));
    assert_eq!(map.len(), 2);
}

#[test]
fn restore_gives_the_map_that_was_dumped() {
    let mut map = Oyster::new();
    map.insert_full(s("k1"), Pearl::at(s("v1"), 1));
    map.insert_full(s("k2"), Pearl::at(String::new(), 2));
    map.insert_full(String::new(), Pearl::at(s("v3"), 3));
    let mut rows = map.dump();
    rows.reverse();
    let mut again = Oyster::new();
    again.restore(&rows);
    assert_eq!(rows_sorted(&again), rows_sorted(&map));
}

#[test]
fn restore_keeps_the_time_of_last_use() {
    let mut map = Oyster::new();
    map.restore(&vec![Row { key: s("k"), value: s("v"), used: 1234 }]);
    let pearl = map.get_full(&s("k")).unwrap();
    assert_eq!((pearl.0.as_str(), pearl.1.used), ("v", 1234));
}

#[test]
fn restore_stores_rows_first_to_last() {
    let mut map = Oyster::new();
    map.insert_full(s("kept"), Pearl::at(s("v"), 1));
    map.restore(&vec![
        Row { key: s("k"), value: s("first"), used: 1 },
        Row { key: s("k"), value: s("second"), used: 2 },
    ]);
    assert_eq!(map.get(&s("k")), Some(&s("second")));
    assert_eq!(map.get(&s("kept")), Some(&s("v")));
    assert_eq!(map.len(), 2);
    map.restore(&Vec::new());
    assert_eq!(map.len(), 2);
}

#[test]
fn write_into_db_inserts_updates_or_keeps() {
    let record = Pearl::at(s("v"), 5);
    assert_eq!(Oyster::write_into_db(None, &record), RowWrite::Insert);
    assert_eq!(Oyster::write_into_db(Some(&Pearl::at(s("v"), 5)), &record), RowWrite::Keep);
    assert_eq!(Oyster::write_into_db(Some(&Pearl::at(s("w"), 5)), &record), RowWrite::Update);
    assert_eq!(Oyster::write_into_db(Some(&Pearl::at(s("v"), 6)), &record), RowWrite::Update);
    assert_eq!(Oyster::write_into_db(Some(&Pearl::at(s("w"), 6)), &record), RowWrite::Update);
}

#[test]
fn remove_from_db_deletes_where_the_file_exists() {
    assert_eq!(Oyster::remove_from_db(true), RowRemoval::Delete);
    assert_eq!(Oyster::remove_from_db(false), RowRemoval::Nothing);
}

#[test]
fn default_port_is_5072() {
    assert_eq!(default_port(), 5072);
    assert_eq!(Config::default().port, 5072);
}

fn write_row(conn: &Connection, row: &Row) -> RowWrite {
    let existing = conn
        .query_row("SELECT * FROM \"map\" WHERE \"key\" = ?", [row.key.clone()], |found| {
            Ok(Pearl::at(found.get::<usize, String>(1)?, found.get::<usize, usize>(2)?))
        })
        .ok();
    let action = Oyster::write_into_db(existing.as_ref(), &Pearl::at(row.value.clone(), row.used));
    match action {
        RowWrite::Insert => {
            conn.execute(
                "INSERT INTO \"map\" VALUES (?, ?, ?)",
                (row.key.clone(), row.value.clone(), row.used),
            )
            .unwrap();
        }
        RowWrite::Update => {
            conn.execute(
                "UPDATE \"map\" SET \"value\" = ?, \"used\" = ? WHERE \"key\" = ?",
                (row.value.clone(), row.used, row.key.clone()),
            )
            .unwrap();
        }
        RowWrite::Keep => {}
    }
    action
}

fn read_rows(conn: &Connection) -> Vec<Row> {
    let mut query = conn.prepare("SELECT \"key\", \"value\", \"used\" FROM \"map\"").unwrap();
    let rows = query
        .query_map([], |row| Ok(Row { key: row.get(0)?, value: row.get(1)?, used: row.get(2)? }))
        .unwrap();
    rows.map(|row| row.unwrap()).collect()
}

#[test]
fn snapshot_through_a_table() {
    let conn = Connection::open_in_memory().unwrap();
    conn.execute("CREATE TABLE IF NOT EXISTS map (key TEXT NOT NULL, value TEXT NOT NULL, used INT)", ())
        .unwrap();

    let mut map = Oyster::new();
    map.insert_full(s("a"), Pearl::at(s("1"), 10));
    map.insert_full(s("b"), Pearl::at(s("2"), 20));
    for row in map.dump() {
        assert_eq!(write_row(&conn, &row), RowWrite::Insert);
    }

    // A second dump of the same map changes no row; a changed record is updated.
    for row in map.dump() {
        assert_eq!(write_row(&conn, &row), RowWrite::Keep);
    }
    map.insert_full(s("b"), Pearl::at(s("3"), 20));
    map.remove(&s("a"));
    let actions: Vec<RowWrite> = map.dump().iter().map(|row| write_row(&conn, row)).collect();
    assert_eq!(actions, vec![RowWrite::Update]);

    // The dump alone deletes no row.
    let mut again = Oyster::new();
    again.restore(&read_rows(&conn));
    assert_eq!(rows_sorted(&again), vec![(s("a"), s("1"), 10), (s("b"), s("3"), 20)]);

    // The removal is mirrored by a delete of its own.
    assert_eq!(Oyster::remove_from_db(true), RowRemoval::Delete);
    conn.execute("DELETE FROM \"map\" WHERE \"key\" = ?", [s("a")]).unwrap();
    let mut last = Oyster::new();
    last.restore(&read_rows(&conn));
    assert_eq!(rows_sorted(&last), rows_sorted(&map));
}
