use oysters::oyster::lru::{stale, MAXIMUM_AGE};
use oysters::oyster::leads_with_asterisk;
use oysters::pearl::{Pearl, ResourceDescriptor, EPOCH_YEAR};
use oysters::time::epoch_timestamp;
use oysters::Oyster;

fn s(text: &str) -> String {
    text.to_string()
}

fn sorted(keys: Vec<&String>) -> Vec<String> {
    let mut keys: Vec<String> = keys.into_iter().cloned().collect();
    keys.sort();
    keys
}

#[test]
fn basic_round_trip() {
    let mut map = Oyster::new();
    assert!(map.insert(s("hello"), s("world")).is_none());
    assert_eq!(map.get(&s("hello")), Some(&s("world")));
    let removed = map.remove(&s("hello")).unwrap();
    assert_eq!(removed.0, "world");
    assert_eq!(map.get(&s("hello")), None);
    assert!(map.remove(&s("hello")).is_none());
}

#[test]
fn insert_replaces_and_returns_the_previous_record() {
    let mut map = Oyster::new();
    assert!(map.insert_full(s("k"), Pearl::at(s("one"), 7)).is_none());
    let previous = map.insert_full(s("k"), Pearl::at(s("two"), 9)).unwrap();
    assert_eq!(previous.0, "one");
    assert_eq!(previous.1.used, 7);
    let now = map.get_full(&s("k")).unwrap();
    assert_eq!(now.0, "two");
    assert_eq!(now.1.used, 9);
    assert_eq!(map.len(), 1);
}

#[test]
fn insert_stamps_the_record_as_used_now() {
    let before = epoch_timestamp(EPOCH_YEAR);
    let mut map = Oyster::new();
    map.insert(s("k"), s("v"));
    let after = epoch_timestamp(EPOCH_YEAR);
    let used = map.get_full(&s("k")).unwrap().1.used;
    assert!(before <= used && used <= after);
}

#[test]
fn count_follows_insertions_and_removals() {
    let mut map = Oyster::new();
    assert_eq!(map.len(), 0);
    map.insert(s("a"), s("1"));
    map.insert(s("b"), s("2"));
    assert_eq!(map.len(), 2);
    map.insert(s("a"), s("3"));
    assert_eq!(map.len(), 2);
    map.remove(&s("zzz"));
    assert_eq!(map.len(), 2);
    map.remove(&s("a"));
    assert_eq!(map.len(), 1);
    map.remove(&s("b"));
    assert_eq!(map.len(), 0);
}

#[test]
fn empty_value_is_legal() {
    let mut map = Oyster::new();
    map.insert(s("k"), String::new());
    assert_eq!(map.get(&s("k")), Some(&String::new()));
    map.insert(String::new(), s("v"));
    assert_eq!(map.get(&String::new()), Some(&s("v")));
}

#[test]
fn increment_saturation() {
    let mut map = Oyster::new();
    map.insert(s("n"), s("0"));
    let previous = map.decr(s("n")).unwrap();
    assert_eq!(previous.0, "0");
    assert_eq!(map.get(&s("n")), Some(&s("0")));
    map.incr(s("n"));
    assert_eq!(map.get(&s("n")), Some(&s("1")));
}

#[test]
fn incr_and_decr_count_in_decimal() {
    let mut map = Oyster::new();
    map.insert(s("n"), s("9"));
    map.incr(s("n"));
    assert_eq!(map.get(&s("n")), Some(&s("10")));
    map.insert(s("m"), s("+0099"));
    map.incr(s("m"));
    assert_eq!(map.get(&s("m")), Some(&s("100")));
    map.decr(s("m"));
    map.decr(s("m"));
    assert_eq!(map.get(&s("m")), Some(&s("98")));
    map.insert(s("big"), s("1000000"));
    map.decr(s("big"));
    assert_eq!(map.get(&s("big")), Some(&s("999999")));
}

#[test]
fn incr_on_absent_key_changes_nothing() {
    let mut map = Oyster::new();
    map.insert_full(s("a"), Pearl::at(s("1"), 5));
    assert!(map.incr(s("b")).is_none());
    assert!(map.decr(s("b")).is_none());
    assert_eq!(map.len(), 1);
    assert_eq!(map.get(&s("b")), None);
    let a = map.get_full(&s("a")).unwrap();
    assert_eq!((a.0.as_str(), a.1.used), ("1", 5));
}

#[test]
fn prefix_and_suffix_filter() {
    let mut map = Oyster::new();
    map.insert(s("user:1"), s("a"));
    map.insert(s("user:2"), s("b"));
    map.insert(s("admin:1"), s("c"));
    assert_eq!(sorted(map.filter_keys("user*")), vec![s("user:1"), s("user:2")]);
    assert_eq!(sorted(map.filter_keys("*:1")), vec![s("admin:1"), s("user:1")]);
    let mut found: Vec<(String, String)> =
        map.filter("user*").into_iter().map(|(k, p)| (k.clone(), p.0.clone())).collect();
    found.sort();
    assert_eq!(found, vec![(s("user:1"), s("a")), (s("user:2"), s("b"))]);
    let mut found: Vec<(String, String)> =
        map.filter("*:1").into_iter().map(|(k, p)| (k.clone(), p.0.clone())).collect();
    found.sort();
    assert_eq!(found, vec![(s("admin:1"), s("c")), (s("user:1"), s("a"))]);
}

#[test]
fn filter_by_first_and_last_letter() {
    let mut map = Oyster::new();
    for key in ["pea", "p", "top", "tap", "xpx", ""] {
        map.insert(s(key), s("v"));
    }
    assert_eq!(sorted(map.filter_keys("p*")), vec![s("p"), s("pea")]);
    assert_eq!(sorted(map.filter_keys("*p")), vec![s("p"), s("tap"), s("top")]);
    assert_eq!(sorted(map.starting_with_keys("p")), vec![s("p"), s("pea")]);
    assert_eq!(sorted(map.ending_with_keys("p")), vec![s("p"), s("tap"), s("top")]);
    assert_eq!(map.starting_with("t").len(), 2);
    assert_eq!(map.ending_with("x").len(), 1);
}

#[test]
fn asterisk_alone_matches_every_record() {
    let mut map = Oyster::new();
    for key in ["a", "b", "c*", ""] {
        map.insert(s(key), s("v"));
    }
    assert_eq!(map.filter("*").len(), 4);
    assert_eq!(map.filter_keys("*").len(), 4);
    assert_eq!(map.filter("").len(), 4);
    assert_eq!(map.filter_keys("**").len(), 4);
}

#[test]
fn asterisks_inside_a_pattern_are_dropped() {
    let mut map = Oyster::new();
    for key in ["abc", "ab", "xabc", "a*bc"] {
        map.insert(s(key), s("v"));
    }
    assert_eq!(sorted(map.filter_keys("a*b*")), vec![s("ab"), s("abc")]);
    assert_eq!(sorted(map.filter_keys("*b*c")), vec![s("a*bc"), s("abc"), s("xabc")]);
    assert_eq!(sorted(map.filter_keys("abc")), vec![s("abc")]);
    assert!(leads_with_asterisk("*x"));
    assert!(!leads_with_asterisk("x*"));
    assert!(!leads_with_asterisk(""));
}

#[test]
fn freshness_scan() {
    let now = epoch_timestamp(EPOCH_YEAR);
    assert!(now > 604_800_001);
    let mut map = Oyster::new();
    map.insert_full(s("k"), Pearl::at(s("v"), now - 604_800_001));
    map.insert_full(s("fresh"), Pearl::at(s("v"), now - 604_800_000));
    map.scan_with(now);
    assert_eq!(map.get(&s("k")), None);
    assert_eq!(map.get(&s("fresh")), Some(&s("v")));
}

#[test]
fn scan_sync_drops_what_is_stale_now() {
    let now = epoch_timestamp(EPOCH_YEAR);
    let mut map = Oyster::new();
    map.insert_full(s("old"), Pearl::at(s("v"), now - 604_800_001));
    map.insert_full(s("older"), Pearl::at(s("v"), 0));
    map.insert(s("new"), s("v"));
    map.scan_sync();
    assert_eq!(map.get(&s("old")), None);
    assert_eq!(map.get(&s("older")), None);
    assert_eq!(map.get(&s("new")), Some(&s("v")));
    assert_eq!(map.len(), 1);
}

#[test]
fn scan_keeps_records_used_after_now() {
    let mut map = Oyster::new();
    map.insert_full(s("ahead"), Pearl::at(s("v"), 5_000_000_000));
    map.insert_full(s("behind"), Pearl::at(s("v"), 1));
    map.scan_with(1_000_000_000);
    assert_eq!(map.get(&s("ahead")), Some(&s("v")));
    assert_eq!(map.get(&s("behind")), None);
}

#[test]
fn stale_is_more_than_seven_days() {
    assert_eq!(MAXIMUM_AGE, 7 * 24 * 60 * 60 * 1000);
    assert!(!stale(0, 604_800_000));
    assert!(stale(0, 604_800_001));
    assert!(!stale(10, 5));
    assert!(stale(1, 604_800_002));
}

#[test]
fn update_resource_descriptor_stamps_the_record() {
    let mut map = Oyster::new();
    map.insert_full(s("k"), Pearl::at(s("v"), 3));
    let before = epoch_timestamp(EPOCH_YEAR);
    map.update_resource_descriptor(&s("k"));
    let pearl = map.get_full(&s("k")).unwrap();
    assert_eq!(pearl.0, "v");
    assert!(pearl.1.used >= before);
    assert_eq!(map.len(), 1);
}

#[test]
fn update_resource_descriptor_tolerates_an_absent_key() {
    let mut map = Oyster::new();
    map.insert_full(s("k"), Pearl::at(s("v"), 3));
    map.update_resource_descriptor(&s("absent"));
    assert_eq!(map.len(), 1);
    assert_eq!(map.get_full(&s("k")).unwrap().1.used, 3);
    assert_eq!(map.get(&s("absent")), None);
}

#[test]
fn default_descriptor_is_now() {
    let before = epoch_timestamp(EPOCH_YEAR);
    let descriptor = ResourceDescriptor::default();
    let pearl = Pearl::new(s("v"));
    let after = epoch_timestamp(EPOCH_YEAR);
    assert!(before <= descriptor.used && descriptor.used <= after);
    assert!(before <= pearl.1.used && pearl.1.used <= after);
    assert_eq!(pearl.0, "v");
    assert_eq!(EPOCH_YEAR, 2025);
}

#[test]
fn into_entries_gives_every_record_once() {
    let mut map = Oyster::default();
    assert_eq!(map.len(), 0);
    map.insert_full(s("a"), Pearl::at(s("1"), 1));
    map.insert_full(s("b"), Pearl::at(s("2"), 2));
    map.insert_full(s("a"), Pearl::at(s("3"), 3));
    let mut entries: Vec<(String, String, usize)> =
        map.into_entries().into_iter().map(|(k, p)| (k, p.0, p.1.used)).collect();
    entries.sort();
    assert_eq!(entries, vec![(s("a"), s("3"), 3), (s("b"), s("2"), 2)]);
}
