use oysters::pagemap::page::is_sentinel_free;
use oysters::pagemap::pagebook::PageBook;

fn count_byte(book: &PageBook, byte: u8) -> usize {
    let mut n = 0;
    for p in 0..book.page_count() {
        n += book.page(p).iter().filter(|b| **b == byte).count();
    }
    n
}

#[test]
fn new_book_is_blank() {
    let book = PageBook::new(3, 16);
    assert_eq!(book.page_count(), 3);
    assert_eq!(book.page_size(), 16);
    assert_eq!(book.len(), 0);
    for p in 0..3 {
        assert_eq!(book.page(p), &[0u8; 16][..]);
    }
}

#[test]
fn find_page_on_empty_book_is_none() {
    let book = PageBook::new(2, 8);
    assert_eq!(book.find_page(b"key"), None);
    let none = PageBook::new(0, 8);
    assert_eq!(none.find_page(b"key"), None);
    assert_eq!(none.get(b"key"), None);
}

#[test]
fn insert_writes_the_frame() {
    let mut book = PageBook::new(1, 16);
    book.insert(b"key", b"value");
    let mut expected = vec![0u8; 16];
    expected[..10].copy_from_slice(b"key\x01value\x02");
    assert_eq!(book.page(0), &expected[..]);
    assert_eq!(book.len(), 1);
    assert_eq!(book.find_page(b"key"), Some((0, 0)));
    assert_eq!(book.get(b"key"), Some(b"value".to_vec()));
    assert_eq!(book.get_full(b"key"), Some((0, b"value".to_vec())));
    assert_eq!(book.get_key_range(0, b"key"), Some(0..10));
}

#[test]
fn second_record_follows_the_first() {
    let mut book = PageBook::new(1, 32);
    book.insert(b"aa", b"11");
    book.insert(b"bb", b"22");
    assert_eq!(&book.page(0)[..12], b"aa\x0111\x02bb\x0122\x02");
    assert_eq!(book.find_page(b"bb"), Some((0, 6)));
    assert_eq!(book.get(b"bb"), Some(b"22".to_vec()));
    assert_eq!(book.get_key_range(0, b"bb"), Some(6..12));
    assert_eq!(book.len(), 2);
}

#[test]
fn empty_key_and_value_are_framed() {
    let mut book = PageBook::new(1, 8);
    book.insert(b"", b"");
    assert_eq!(&book.page(0)[..3], &[1u8, 2, 0][..]);
    assert_eq!(book.get(b""), Some(Vec::new()));
    let mut other = PageBook::new(1, 8);
    other.insert(b"k", b"");
    assert_eq!(other.get(b"k"), Some(Vec::new()));
}

#[test]
fn key_that_begins_with_the_terminator_is_not_found() {
    let mut book = PageBook::new(1, 16);
    book.insert(b"a", b"b");
    // The page now holds the terminator followed by free bytes.
    assert_eq!(book.find_page(&[2u8]), None);
    assert_eq!(book.get(&[2u8]), None);
}

#[test]
fn separators_and_terminators_count_the_records() {
    let mut book = PageBook::new(1, 16);
    for (k, v) in [("alpha", "1"), ("beta", "22"), ("gamma", "333"), ("delta", "4444")] {
        book.insert(k.as_bytes(), v.as_bytes());
        assert_eq!(count_byte(&book, 1), book.len());
        assert_eq!(count_byte(&book, 2), book.len());
    }
    assert_eq!(book.len(), 4);
}

#[test]
fn page_growth() {
    let mut book = PageBook::new(1, 32);
    // Framed sizes 17, 17 and 16: 50 bytes in all.
    book.insert(b"key-1", b"value-0001");
    book.insert(b"key-2", b"value-0002");
    book.insert(b"key-3", b"value-003");
    assert!(book.page_count() >= 2);
    assert_eq!(book.page_count(), 3);
    assert_eq!(book.get(b"key-1"), Some(b"value-0001".to_vec()));
    assert_eq!(book.get(b"key-2"), Some(b"value-0002".to_vec()));
    assert_eq!(book.get(b"key-3"), Some(b"value-003".to_vec()));
    assert_eq!(book.len(), 3);
}

#[test]
fn new_page_goes_to_the_front() {
    let mut book = PageBook::new(1, 8);
    book.insert(b"a", b"1111");
    book.insert(b"b", b"2222");
    assert_eq!(book.page_count(), 2);
    assert_eq!(&book.page(0)[..7], b"b\x012222\x02");
    assert_eq!(&book.page(1)[..7], b"a\x011111\x02");
    assert_eq!(book.find_page(b"a"), Some((1, 0)));
}

#[test]
fn create_page_returns_the_last_page() {
    let mut book = PageBook::new(1, 8);
    book.insert(b"a", b"1");
    let last = book.create_page().unwrap().clone();
    assert_eq!(&last[..4], b"a\x011\x02");
    assert_eq!(book.page_count(), 2);
    assert_eq!(book.page(0), &[0u8; 8][..]);
}

#[test]
fn remove_frees_the_range() {
    let mut book = PageBook::new(1, 32);
    book.insert(b"hello", b"world");
    book.insert(b"other", b"thing");
    let (page, at) = book.find_page(b"hello").unwrap();
    assert_eq!(book.remove(b"hello"), Some(()));
    assert_eq!(book.get(b"hello"), None);
    assert_eq!(&book.page(page)[at..at + 12], &[0u8; 12][..]);
    assert_eq!(book.get(b"other"), Some(b"thing".to_vec()));
    assert_eq!(book.len(), 1);
    assert_eq!(count_byte(&book, 1), 1);
    assert_eq!(count_byte(&book, 2), 1);
}

#[test]
fn remove_of_absent_key_is_none() {
    let mut book = PageBook::new(1, 32);
    book.insert(b"hello", b"world");
    assert_eq!(book.remove(b"nothing"), None);
    assert_eq!(book.remove_known(0, b"nothing"), None);
    assert_eq!(book.remove_known(7, b"hello"), None);
    assert_eq!(book.len(), 1);
    assert_eq!(book.get(b"hello"), Some(b"world".to_vec()));
}

#[test]
fn freed_space_is_used_again() {
    let mut book = PageBook::new(1, 16);
    book.insert(b"aaaa", b"1111");
    book.insert(b"bb", b"22");
    assert_eq!(book.page_count(), 1);
    book.remove(b"aaaa");
    book.insert(b"cccc", b"3333");
    assert_eq!(book.page_count(), 1);
    assert_eq!(book.find_page(b"cccc"), Some((0, 0)));
    assert_eq!(book.get(b"bb"), Some(b"22".to_vec()));
}

#[test]
fn get_known_looks_at_one_page_only() {
    let mut book = PageBook::new(1, 8);
    book.insert(b"a", b"1111");
    book.insert(b"b", b"2222");
    assert_eq!(book.get_known(0, b"a"), None);
    assert_eq!(book.get_known(1, b"a"), Some(b"1111".to_vec()));
    assert_eq!(book.get_known(2, b"a"), None);
    assert_eq!(book.get_key_range(1, b"a"), Some(0..7));
    assert_eq!(book.get_key_range(2, b"a"), None);
}

#[test]
fn find_free_range_finds_the_first_window() {
    assert_eq!(PageBook::find_free_range(&[0, 0, 0, 0], 2), Some(0..2));
    assert_eq!(PageBook::find_free_range(&[9, 0, 0, 0], 2), Some(1..3));
    assert_eq!(PageBook::find_free_range(&[9, 0, 9, 0, 0], 2), Some(3..5));
    assert_eq!(PageBook::find_free_range(&[0, 9, 0], 2), None);
    assert_eq!(PageBook::find_free_range(&[0, 0], 3), None);
    // A window whose first, middle and last bytes are free is not free for that.
    assert_eq!(PageBook::find_free_range(&[0, 7, 0, 7, 0], 5), None);
}

#[test]
fn check_window_looks_at_every_byte() {
    assert!(PageBook::check_window_for_not_null(&[0, 0, 0]));
    assert!(PageBook::check_window_for_not_null(&[]));
    assert!(!PageBook::check_window_for_not_null(&[0, 1, 0, 0, 0, 0]));
    assert!(!PageBook::check_window_for_not_null(&[0, 0, 1]));
}

#[test]
fn framing_bytes_are_told() {
    assert!(is_sentinel_free(b"key"));
    assert!(is_sentinel_free(b""));
    assert!(is_sentinel_free(&[3, 255]));
    assert!(!is_sentinel_free(&[b'a', 0]));
    assert!(!is_sentinel_free(&[1, b'a']));
    assert!(!is_sentinel_free(&[b'a', 2, b'b']));
}
