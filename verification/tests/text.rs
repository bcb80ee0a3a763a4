use oysters::text::{chars_of, ends_with, format_count, parse_count, starts_with, without_asterisks};

#[test]
fn chars_of_gives_every_character() {
    assert_eq!(chars_of("aé😀"), vec!['a', 'é', '😀']);
    assert_eq!(chars_of(""), Vec::<char>::new());
}

#[test]
fn starts_and_ends_like_std() {
    let texts = ["", "a", "ab", "ba", "aba", "é", "éa", "aé", "user:1", "*"];
    for text in texts {
        for affix in texts {
            assert_eq!(starts_with(text, affix), text.starts_with(affix), "{text:?} {affix:?}");
            assert_eq!(ends_with(text, affix), text.ends_with(affix), "{text:?} {affix:?}");
        }
    }
}

#[test]
fn without_asterisks_like_replace() {
    for pattern in ["", "*", "**", "a*", "*a", "a*b*c", "é*é", "none"] {
        assert_eq!(without_asterisks(pattern), pattern.replace("*", ""));
    }
    assert_eq!(without_asterisks("u*se*r"), "user");
}

#[test]
fn format_count_like_to_string() {
    for n in [0usize, 1, 9, 10, 11, 99, 100, 12345, 604_800_000, usize::MAX] {
        assert_eq!(format_count(n), n.to_string());
    }
    assert_eq!(format_count(1024), "1024");
}

#[test]
fn parse_count_like_parse() {
    let max = usize::MAX.to_string();
    let beyond = format!("{max}0");
    let above = {
        let mut digits = max.clone().into_bytes();
        let last = digits.len() - 1;
        digits[last] += 1;
        String::from_utf8(digits).unwrap()
    };
    for text in [
        "0", "1", "42", "007", "+5", "+", "", "-1", " 1", "1 ", "1a", "a1", "++1", "1+", "٣",
        "12345678901234567890123", max.as_str(), beyond.as_str(), above.as_str(),
    ] {
        assert_eq!(parse_count(text), text.parse::<usize>().ok(), "{text:?}");
    }
    assert_eq!(parse_count("42"), Some(42));
    assert_eq!(parse_count("+0099"), Some(99));
    assert_eq!(parse_count("4 2"), None);
}

#[test]
fn parse_reads_what_format_writes() {
    for n in [0usize, 7, 10, 999, 1000, usize::MAX - 1, usize::MAX] {
        assert_eq!(parse_count(&format_count(n)), Some(n));
    }
}
