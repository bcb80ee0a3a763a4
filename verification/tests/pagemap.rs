use oysters::pagemap::codec::{escape, text_of, unescape};
use oysters::pagemap::map::{PageMap, PageMapOptions};

fn store(pages: usize, page_size: usize) -> PageMap {
    PageMap::new(PageMapOptions { pages, page_size })
}

#[test]
fn escape_leaves_no_framing_byte() {
    let all: Vec<u8> = (0..=255u8).collect();
    let escaped = escape(&all);
    assert!(escaped.iter().all(|b| *b >= 5));
    assert_eq!(escaped.len(), 256 + 6);
    assert_eq!(unescape(&escaped), Some(all));
}

#[test]
fn escape_of_given_bytes() {
    assert_eq!(
        escape(&[0, 1, 2, 3, 4, 5, 6, 255]),
        vec![5, 6, 5, 7, 5, 8, 5, 9, 5, 10, 5, 11, 6, 255]
    );
    assert_eq!(escape(&[]), Vec::<u8>::new());
}

#[test]
fn unescape_rejects_what_was_not_escaped() {
    assert_eq!(unescape(&[0]), None);
    assert_eq!(unescape(&[4, 9]), None);
    assert_eq!(unescape(&[5]), None);
    assert_eq!(unescape(&[5, 5]), None);
    assert_eq!(unescape(&[5, 12]), None);
    assert_eq!(unescape(&[5, 11]), Some(vec![5]));
    assert_eq!(unescape(&[77, 5, 6]), Some(vec![77, 0]));
}

#[test]
fn text_of_reads_utf8() {
    assert_eq!(text_of("héllo".as_bytes().to_vec()), Some("héllo".to_string()));
    assert_eq!(text_of(vec![0xff, 0xfe]), None);
    assert_eq!(text_of(Vec::new()), Some(String::new()));
}

#[test]
fn typed_round_trip() {
    let mut map = store(1, 64);
    assert!(map.insert("test".to_string(), "Hello, world!".to_string()));
    assert_eq!(map.get(&"test".to_string()), Some("Hello, world!".to_string()));
    assert_eq!(map.get(&"tes".to_string()), None);
    assert_eq!(map.get(&"test1".to_string()), None);
    assert_eq!(map.remove(&"test".to_string()), Some(()));
    assert_eq!(map.get(&"test".to_string()), None);
    assert_eq!(map.remove(&"test".to_string()), None);
}

#[test]
fn typed_store_takes_any_text() {
    let mut map = store(1, 128);
    let key = "k\u{0}\u{1}\u{2}\u{3}\u{4}\u{5}é".to_string();
    let value = "\u{2}v\u{1}\u{0}\u{0}\u{0}".to_string();
    assert!(map.insert(key.clone(), value.clone()));
    assert_eq!(map.get(&key), Some(value));
    assert!(map.insert(String::new(), String::new()));
    assert_eq!(map.get(&String::new()), Some(String::new()));
    assert!(map.get(&"k".to_string()).is_none());
}

#[test]
fn typed_insert_replaces() {
    let mut map = store(1, 64);
    assert!(map.insert("a".to_string(), "one".to_string()));
    assert!(map.insert("a".to_string(), "two".to_string()));
    assert_eq!(map.get(&"a".to_string()), Some("two".to_string()));
    assert_eq!(map.pagebook().len(), 1);
    assert_eq!(map.remove(&"a".to_string()), Some(()));
    assert_eq!(map.get(&"a".to_string()), None);
    assert_eq!(map.pagebook().len(), 0);
}

#[test]
fn typed_keys_inside_other_keys_and_values() {
    let mut map = store(1, 64);
    assert!(map.insert("xab".to_string(), "cab".to_string()));
    assert_eq!(map.get(&"ab".to_string()), None);
    assert_eq!(map.get(&"b".to_string()), None);
    assert_eq!(map.remove(&"ab".to_string()), None);
    assert!(map.insert("ab".to_string(), "2".to_string()));
    assert_eq!(map.get(&"ab".to_string()), Some("2".to_string()));
    assert_eq!(map.get(&"xab".to_string()), Some("cab".to_string()));
    assert_eq!(map.remove(&"ab".to_string()), Some(()));
    assert_eq!(map.get(&"xab".to_string()), Some("cab".to_string()));
}

#[test]
fn typed_store_grows() {
    let mut map = store(1, 48);
    for i in 0..20 {
        assert!(map.insert(format!("key{i}"), format!("value{i}")));
    }
    assert!(map.pagebook().page_count() >= 2);
    for i in 0..20 {
        assert_eq!(map.get(&format!("key{i}")), Some(format!("value{i}")));
    }
    assert_eq!(map.pagebook().len(), 20);
}

#[test]
fn record_longer_than_a_page_is_not_stored() {
    let mut map = store(1, 16);
    let value = "a value that no page of sixteen bytes holds".to_string();
    assert!(!map.insert("key".to_string(), value));
    assert_eq!(map.get(&"key".to_string()), None);
    assert_eq!(map.pagebook().len(), 0);
    assert_eq!(map.pagebook().page_count(), 1);
}

#[test]
fn a_page_of_ample_size_always_stores() {
    // 2 * 3 + 2 * (5 * 110 / 100 + 24) + 4 = 68
    let mut map = store(0, 68);
    assert!(map.insert("key".to_string(), "value".to_string()));
    assert_eq!(map.get(&"key".to_string()), Some("value".to_string()));
}

#[test]
fn insert_block_takes_a_block_of_the_compressor() {
    let mut map = store(1, 64);
    let block = lz4_flex::block::compress_prepend_size(b"Hello, world!");
    assert_ne!(block, b"Hello, world!".to_vec());
    assert!(map.insert_block(&"k".to_string(), &block));
    assert_eq!(map.get(&"k".to_string()), Some("Hello, world!".to_string()));
}

#[test]
fn stored_value_is_compressed_and_escaped() {
    let mut map = store(1, 64);
    let value = "aaaaaaaaaaaaaaaaaaaaaaaaaaaaaaaaaaaaaaaaaaaaaaaaaaaaaaaaaaaaaaaaaaaaaaaaaaaaaaaa";
    assert!(map.insert("k".to_string(), value.to_string()));
    let page = map.pagebook().page(0).to_vec();
    // Key mark, the key, key mark, separator.
    assert_eq!(&page[..4], &[3u8, b'k', 4, 1][..]);
    let end = page.iter().position(|b| *b == 2).unwrap();
    assert!(end < 4 + value.len());
    assert!(page[4..end].iter().all(|b| *b >= 5));
    let block = unescape(&page[4..end]).unwrap();
    assert_eq!(lz4_flex::block::decompress_size_prepended(&block).unwrap(), value.as_bytes());
    assert_eq!(map.get(&"k".to_string()), Some(value.to_string()));
}

#[test]
fn options_are_kept() {
    let map = store(2, 32);
    assert_eq!(map.options().pages, 2);
    assert_eq!(map.options().page_size, 32);
    assert_eq!(map.pagebook().page_count(), 2);
    assert_eq!(map.pagebook().page_size(), 32);
}
