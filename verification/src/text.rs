//! Text helpers of the map: key patterns and decimal counters.

use vstd::prelude::*;
use vstd::string::*;

verus! {

broadcast use vstd::string::axiom_spec_iter;

/// The characters of `text`, one by one.
pub fn chars_of(text: &str) -> (chars: Vec<char>)
    ensures
        chars@ == text@,
{
    let mut chars: Vec<char> = Vec::new();
    for c in it: text.chars()
        invariant
            it.seq() == text@,
            chars@ == it.seq().take(it.index()),
    {
        chars.push(c);
        assert(chars@ =~= it.seq().take(it.index() + 1));
    }
    assert(chars@ =~= text@);
    chars
}

/// Whether `text` begins with `prefix`.
pub fn starts_with(text: &str, prefix: &str) -> (found: bool)
    ensures
        found == prefix@.is_prefix_of(text@),
{
    let whole = chars_of(text);
    let part = chars_of(prefix);
    let n = part.len();
    if n > whole.len() {
        return false;
    }
    let mut i: usize = 0;
    while i < n
        invariant
            i <= n,
            n == part@.len(),
            n <= whole@.len(),
            whole@ == text@,
            part@ == prefix@,
            forall|j: int| 0 <= j < i ==> whole@[j] == part@[j],
        decreases n - i,
    {
        if whole[i] != part[i] {
            assert(whole@.subrange(0, n as int)[i as int] != part@[i as int]);
            return false;
        }
        i = i + 1;
    }
    assert(whole@.subrange(0, n as int) =~= part@);
    true
}

/// Whether `text` ends with `suffix`.
pub fn ends_with(text: &str, suffix: &str) -> (found: bool)
    ensures
        found == suffix@.is_suffix_of(text@),
{
    let whole = chars_of(text);
    let part = chars_of(suffix);
    let n = part.len();
    let len = whole.len();
    if n > len {
        return false;
    }
    let base = len - n;
    let mut i: usize = 0;
    while i < n
        invariant
            i <= n,
            n == part@.len(),
            len == whole@.len(),
            base == len - n,
            whole@ == text@,
            part@ == suffix@,
            forall|j: int| 0 <= j < i ==> whole@[base + j] == part@[j],
        decreases n - i,
    {
        if whole[base + i] != part[i] {
            assert(whole@.subrange(base as int, len as int)[i as int] != part@[i as int]);
            return false;
        }
        i = i + 1;
    }
    assert(whole@.subrange(base as int, len as int) =~= part@);
    true
}

/// `pattern` without its asterisks.
pub open spec fn spec_without_asterisks(pattern: Seq<char>) -> Seq<char> {
    pattern.filter(|c: char| c != '*')
}

/// `pattern` without its asterisks.
pub fn without_asterisks(pattern: &str) -> (plain: String)
    ensures
        plain@ == spec_without_asterisks(pattern@),
{
    let chars = chars_of(pattern);
    let n = chars.len();
    let mut plain = String::new();
    let mut i: usize = 0;
    while i < n
        invariant
            i <= n,
            n == chars@.len(),
            chars@ == pattern@,
            plain@ == spec_without_asterisks(pattern@.take(i as int)),
        decreases n - i,
    {
        proof {
            let keep = |c: char| c != '*';
            assert(pattern@.take(i + 1) =~= pattern@.take(i as int).push(pattern@[i as int]));
            assert(pattern@.take(i + 1).drop_last() =~= pattern@.take(i as int));
            reveal(Seq::filter);
        }
        if chars[i] != '*' {
            let one = pattern.substring_char(i, i + 1);
            assert(one@ =~= seq![pattern@[i as int]]);
            plain.append(one);
            assert(plain@ =~= spec_without_asterisks(pattern@.take(i as int)).push(
                pattern@[i as int],
            ));
        }
        i = i + 1;
    }
    assert(pattern@.take(n as int) =~= pattern@);
    plain
}

/// The decimal digit for `d`, a number below ten.
pub open spec fn digit_char(d: nat) -> char {
    if d == 0 {
        '0'
    } else if d == 1 {
        '1'
    } else if d == 2 {
        '2'
    } else if d == 3 {
        '3'
    } else if d == 4 {
        '4'
    } else if d == 5 {
        '5'
    } else if d == 6 {
        '6'
    } else if d == 7 {
        '7'
    } else if d == 8 {
        '8'
    } else {
        '9'
    }
}

/// The number that the decimal digit `c` stands for.
pub open spec fn digit_value(c: char) -> Option<nat> {
    if c == '0' {
        Some(0)
    } else if c == '1' {
        Some(1)
    } else if c == '2' {
        Some(2)
    } else if c == '3' {
        Some(3)
    } else if c == '4' {
        Some(4)
    } else if c == '5' {
        Some(5)
    } else if c == '6' {
        Some(6)
    } else if c == '7' {
        Some(7)
    } else if c == '8' {
        Some(8)
    } else if c == '9' {
        Some(9)
    } else {
        None
    }
}

/// `n` in decimal digits, without leading zeros.
pub open spec fn decimal(n: nat) -> Seq<char>
    decreases n,
{
    if n < 10 {
        seq![digit_char(n)]
    } else {
        decimal(n / 10).push(digit_char(n % 10))
    }
}

/// The number that `digits` spell, where every character is a decimal digit.
pub open spec fn digits_value(digits: Seq<char>) -> Option<nat>
    decreases digits.len(),
{
    if digits.len() == 0 {
        Some(0)
    } else {
        match (digits_value(digits.drop_last()), digit_value(digits.last())) {
            (Some(v), Some(d)) => Some(v * 10 + d),
            _ => None,
        }
    }
}

/// The number that `text` spells: an optional plus sign, then one decimal
/// digit or more, and nothing else.
pub open spec fn parsed(text: Seq<char>) -> Option<nat> {
    let digits = if text.len() > 0 && text[0] == '+' {
        text.drop_first()
    } else {
        text
    };
    if digits.len() == 0 {
        None
    } else {
        digits_value(digits)
    }
}

/// Digits that spell a number begin with digits that spell a number no
/// greater.
pub proof fn lemma_digits_value_prefix(digits: Seq<char>, n: int)
    requires
        0 <= n <= digits.len(),
        digits_value(digits) is Some,
    ensures
        digits_value(digits.take(n)) is Some,
        digits_value(digits.take(n)).unwrap() <= digits_value(digits).unwrap(),
    decreases digits.len(),
{
    if n == digits.len() {
        assert(digits.take(n) =~= digits);
    } else {
        assert(digits.drop_last().take(n) =~= digits.take(n));
        lemma_digits_value_prefix(digits.drop_last(), n);
    }
}

/// What `decimal` writes is what `parsed` reads.
pub proof fn lemma_parsed_decimal(n: nat)
    ensures
        decimal(n).len() > 0,
        decimal(n)[0] != '+',
        digits_value(decimal(n)) == Some(n),
        parsed(decimal(n)) == Some(n),
    decreases n,
{
    if n < 10 {
        assert(decimal(n).drop_last() =~= Seq::<char>::empty());
        assert(digits_value(decimal(n).drop_last()) == Some(0nat));
    } else {
        lemma_parsed_decimal(n / 10);
        assert(decimal(n).drop_last() =~= decimal(n / 10));
    }
}

/// The text of one decimal digit.
fn digit_text(d: usize) -> (text: &'static str)
    requires
        d < 10,
    ensures
        text@ == seq![digit_char(d as nat)],
{
    proof {
        reveal_strlit("0");
        reveal_strlit("1");
        reveal_strlit("2");
        reveal_strlit("3");
        reveal_strlit("4");
        reveal_strlit("5");
        reveal_strlit("6");
        reveal_strlit("7");
        reveal_strlit("8");
        reveal_strlit("9");
    }
    let text = if d == 0 {
        "0"
    } else if d == 1 {
        "1"
    } else if d == 2 {
        "2"
    } else if d == 3 {
        "3"
    } else if d == 4 {
        "4"
    } else if d == 5 {
        "5"
    } else if d == 6 {
        "6"
    } else if d == 7 {
        "7"
    } else if d == 8 {
        "8"
    } else {
        "9"
    };
    assert(text@ =~= seq![digit_char(d as nat)]);
    text
}

/// The number that the decimal digit `c` stands for.
fn digit_of(c: char) -> (d: Option<usize>)
    ensures
        match d {
            Some(d) => d < 10 && digit_value(c) == Some(d as nat),
            None => digit_value(c) is None,
        },
{
    if c == '0' {
        Some(0)
    } else if c == '1' {
        Some(1)
    } else if c == '2' {
        Some(2)
    } else if c == '3' {
        Some(3)
    } else if c == '4' {
        Some(4)
    } else if c == '5' {
        Some(5)
    } else if c == '6' {
        Some(6)
    } else if c == '7' {
        Some(7)
    } else if c == '8' {
        Some(8)
    } else if c == '9' {
        Some(9)
    } else {
        None
    }
}

/// `n` in decimal digits.
pub fn format_count(n: usize) -> (text: String)
    ensures
        text@ == decimal(n as nat),
    decreases n,
{
    if n < 10 {
        let mut text = String::new();
        text.append(digit_text(n));
        assert(text@ =~= decimal(n as nat));
        text
    } else {
        let mut text = format_count(n / 10);
        text.append(digit_text(n % 10));
        assert(text@ =~= decimal(n as nat));
        text
    }
}

/// The number that `text` spells, where it spells one that a `usize` holds.
pub fn parse_count(text: &str) -> (count: Option<usize>)
    ensures
        match count {
            Some(n) => parsed(text@) == Some(n as nat),
            None => parsed(text@) is None || parsed(text@).unwrap() > usize::MAX,
        },
{
    let chars = chars_of(text);
    let len = chars.len();
    let first: usize = if len > 0 && chars[0] == '+' {
        1
    } else {
        0
    };
    if first == len {
        return None;
    }
    let ghost digits = text@.subrange(first as int, len as int);
    proof {
        if first == 1 {
            assert(digits =~= text@.drop_first());
        } else {
            assert(digits =~= text@);
        }
        assert(digits.take(0) =~= Seq::<char>::empty());
    }
    let mut value: usize = 0;
    let mut i: usize = first;
    while i < len
        invariant
            first <= i <= len,
            len == chars@.len(),
            chars@ == text@,
            first <= 1,
            first < len,
            digits == text@.subrange(first as int, len as int),
            parsed(text@) == digits_value(digits),
            digits_value(digits.take(i - first)) == Some(value as nat),
        decreases len - i,
    {
        proof {
            assert(digits.take(i - first + 1).drop_last() =~= digits.take(i - first));
            assert(digits.take(i - first + 1).last() == text@[i as int]);
        }
        let d = match digit_of(chars[i]) {
            Some(d) => d,
            None => {
                proof {
                    if digits_value(digits) is Some {
                        lemma_digits_value_prefix(digits, i - first + 1);
                    }
                }
                return None;
            },
        };
        if value > (usize::MAX - d) / 10 {
            proof {
                if digits_value(digits) is Some {
                    lemma_digits_value_prefix(digits, i - first + 1);
                }
            }
            return None;
        }
        value = value * 10 + d;
        i = i + 1;
    }
    assert(digits.take(len - first) =~= digits);
    Some(value)
}

} // verus!
