//! The byte-level model of one page: framing, free windows and key windows.

use vstd::prelude::*;

verus! {

/// Marks a byte of a page that no record occupies.
pub const FREE: u8 = 0;

/// Stands between the key and the value of a record.
pub const SEPARATOR: u8 = 1;

/// Ends a record.
pub const TERMINATOR: u8 = 2;

/// No byte of `bytes` is one of the three framing bytes.
pub open spec fn sentinel_free(bytes: Seq<u8>) -> bool {
    forall|i: int| 0 <= i < bytes.len() ==> bytes[i] > TERMINATOR
}

/// Whether no byte of `bytes` is one of the three framing bytes.
pub fn is_sentinel_free(bytes: &[u8]) -> (clean: bool)
    ensures
        clean == sentinel_free(bytes@),
{
    let n = bytes.len();
    let mut i: usize = 0;
    while i < n
        invariant
            i <= n,
            n == bytes@.len(),
            forall|j: int| 0 <= j < i ==> bytes@[j] > TERMINATOR,
        decreases n - i,
    {
        if bytes[i] <= TERMINATOR {
            return false;
        }
        i = i + 1;
    }
    true
}

/// The bytes of a stored record: key, separator, value, terminator.
pub open spec fn frame(key: Seq<u8>, value: Seq<u8>) -> Seq<u8> {
    key + seq![SEPARATOR] + value + seq![TERMINATOR]
}

/// The `n` bytes of `page` from `at` on lie inside the page and are all free.
pub open spec fn is_free(page: Seq<u8>, at: int, n: int) -> bool {
    &&& 0 <= at
    &&& 0 <= n
    &&& at + n <= page.len()
    &&& forall|i: int| at <= i < at + n ==> page[i] == FREE
}

/// The least offset from `from` on of a free window of `n` bytes in `page`.
pub open spec fn first_free_from(page: Seq<u8>, n: int, from: int) -> Option<int>
    decreases page.len() - from,
{
    if from < 0 || n < 0 || from + n > page.len() {
        None
    } else if is_free(page, from, n) {
        Some(from)
    } else {
        first_free_from(page, n, from + 1)
    }
}

/// The least offset of a free window of `n` bytes in `page`.
pub open spec fn first_free(page: Seq<u8>, n: int) -> Option<int> {
    first_free_from(page, n, 0)
}

/// What `first_free_from` returns is a free window with none before it, from
/// `from` on; it returns `None` only where there is none.
pub proof fn lemma_first_free_from(page: Seq<u8>, n: int, from: int)
    requires
        0 <= from,
    ensures
        match first_free_from(page, n, from) {
            Some(at) => from <= at && is_free(page, at, n) && forall|j: int|
                from <= j < at ==> !is_free(page, j, n),
            None => forall|j: int| from <= j ==> !is_free(page, j, n),
        },
    decreases page.len() - from,
{
    if n >= 0 && from + n <= page.len() && !is_free(page, from, n) {
        lemma_first_free_from(page, n, from + 1);
    }
}

/// A free window with none before it, from `from` on, is what
/// `first_free_from` returns.
pub proof fn lemma_first_free_from_is(page: Seq<u8>, n: int, from: int, at: int)
    requires
        0 <= from <= at,
        is_free(page, at, n),
        forall|j: int| from <= j < at ==> !is_free(page, j, n),
    ensures
        first_free_from(page, n, from) == Some(at),
    decreases at - from,
{
    if from < at {
        lemma_first_free_from_is(page, n, from + 1, at);
    }
}

/// The window of `page` that starts at `at` lies inside the page and holds
/// exactly the bytes of `key`.
pub open spec fn window_is(page: Seq<u8>, at: int, key: Seq<u8>) -> bool {
    &&& 0 <= at
    &&& at + key.len() <= page.len()
    &&& page.subrange(at, at + key.len()) == key
}

/// The least offset from `from` on of a window of `page` that holds `key`.
pub open spec fn first_window_from(page: Seq<u8>, key: Seq<u8>, from: int) -> Option<int>
    decreases page.len() - from,
{
    if from < 0 || from + key.len() > page.len() {
        None
    } else if window_is(page, from, key) {
        Some(from)
    } else if from >= page.len() {
        None
    } else {
        first_window_from(page, key, from + 1)
    }
}

/// The least offset in `page` of a window that holds `key`.
pub open spec fn first_window(page: Seq<u8>, key: Seq<u8>) -> Option<int> {
    first_window_from(page, key, 0)
}

/// What `first_window_from` returns is a window that holds the key with none
/// before it, from `from` on; it returns `None` only where there is none.
pub proof fn lemma_first_window_from(page: Seq<u8>, key: Seq<u8>, from: int)
    requires
        0 <= from,
    ensures
        match first_window_from(page, key, from) {
            Some(at) => from <= at && window_is(page, at, key) && forall|j: int|
                from <= j < at ==> !window_is(page, j, key),
            None => forall|j: int| from <= j ==> !window_is(page, j, key),
        },
    decreases page.len() - from,
{
    if from + key.len() <= page.len() && from < page.len() && !window_is(page, from, key) {
        lemma_first_window_from(page, key, from + 1);
    }
}

/// A window that holds the key with none before it, from `from` on, is what
/// `first_window_from` returns.
pub proof fn lemma_first_window_from_is(page: Seq<u8>, key: Seq<u8>, from: int, at: int)
    requires
        0 <= from <= at,
        window_is(page, at, key),
        forall|j: int| from <= j < at ==> !window_is(page, j, key),
    ensures
        first_window_from(page, key, from) == Some(at),
    decreases at - from,
{
    if from < at {
        lemma_first_window_from_is(page, key, from + 1, at);
    }
}

/// The least index from `from` on at which `page` holds a terminator, or the
/// page's length where it holds none.
pub open spec fn terminator_from(page: Seq<u8>, from: int) -> int
    decreases page.len() - from,
{
    if from < 0 || from >= page.len() {
        page.len() as int
    } else if page[from] == TERMINATOR {
        from
    } else {
        terminator_from(page, from + 1)
    }
}

/// What `terminator_from` returns is at most the page's length, no byte from
/// `from` up to it is a terminator, and the byte at it is one unless it is the
/// page's length.
pub proof fn lemma_terminator_from(page: Seq<u8>, from: int)
    requires
        0 <= from <= page.len(),
    ensures
        from <= terminator_from(page, from) <= page.len(),
        forall|j: int| from <= j < terminator_from(page, from) ==> page[j] != TERMINATOR,
        terminator_from(page, from) < page.len() ==> page[terminator_from(page, from)]
            == TERMINATOR,
    decreases page.len() - from,
{
    if from < page.len() && page[from] != TERMINATOR {
        lemma_terminator_from(page, from + 1);
    }
}

/// An index from `from` on before which no byte is a terminator, and which
/// holds one or is the page's length, is what `terminator_from` returns.
pub proof fn lemma_terminator_from_is(page: Seq<u8>, from: int, at: int)
    requires
        0 <= from <= at <= page.len(),
        forall|j: int| from <= j < at ==> page[j] != TERMINATOR,
        at < page.len() ==> page[at] == TERMINATOR,
    ensures
        terminator_from(page, from) == at,
    decreases at - from,
{
    if from < at {
        lemma_terminator_from_is(page, from + 1, at);
    }
}

/// `page` with the `bytes` written over it from `at` on.
pub open spec fn overwrite(page: Seq<u8>, at: int, bytes: Seq<u8>) -> Seq<u8> {
    Seq::new(
        page.len(),
        |i: int|
            if at <= i < at + bytes.len() {
                bytes[i - at]
            } else {
                page[i]
            },
    )
}

/// `page` with the bytes from `from` up to, not including, `to` made free.
pub open spec fn erase(page: Seq<u8>, from: int, to: int) -> Seq<u8> {
    Seq::new(
        page.len(),
        |i: int|
            if from <= i < to {
                FREE
            } else {
                page[i]
            },
    )
}

/// The value that a reader takes from `page` for `key`: the bytes behind the
/// first window that holds the key and the one byte after it, up to the next
/// terminator or the page's end. There is none where no window holds the key,
/// or where the page ends with the window.
pub open spec fn value_after(page: Seq<u8>, key: Seq<u8>) -> Option<Seq<u8>> {
    match first_window(page, key) {
        Some(at) => {
            let start = at + key.len() + 1;
            if start > page.len() {
                None
            } else {
                Some(page.subrange(start, terminator_from(page, start)))
            }
        },
        None => None,
    }
}

/// The range of `page` that a record with `key` takes, from the first window
/// that holds the key through the next terminator behind the byte that follows
/// the window, or to the page's end where no terminator follows. The second
/// number is the first index behind the range.
pub open spec fn record_range(page: Seq<u8>, key: Seq<u8>) -> Option<(int, int)> {
    match first_window(page, key) {
        Some(at) => {
            let start = at + key.len() + 1;
            if start > page.len() {
                None
            } else {
                let stop = terminator_from(page, start);
                Some(
                    (
                        at,
                        if stop < page.len() {
                            stop + 1
                        } else {
                            stop
                        },
                    ),
                )
            }
        },
        None => None,
    }
}

/// A record's range lies inside its page and is not empty.
pub proof fn lemma_record_range(page: Seq<u8>, key: Seq<u8>)
    ensures
        match record_range(page, key) {
            Some((from, to)) => 0 <= from < to <= page.len() && first_window(page, key) == Some(
                from,
            ),
            None => true,
        },
{
    lemma_first_window_from(page, key, 0);
    if let Some(at) = first_window(page, key) {
        if at + key.len() + 1 <= page.len() {
            lemma_terminator_from(page, at + key.len() + 1);
        }
    }
}

/// Whether the window of `page` at `at` holds `key`.
pub fn window_holds(page: &[u8], at: usize, key: &[u8]) -> (holds: bool)
    requires
        at + key@.len() <= page@.len(),
    ensures
        holds == window_is(page@, at as int, key@),
{
    let len = page.len();
    let n = key.len();
    let mut i: usize = 0;
    while i < n
        invariant
            i <= n,
            n == key@.len(),
            len == page@.len(),
            at + n <= len,
            forall|j: int| 0 <= j < i ==> page@[at + j] == key@[j],
        decreases n - i,
    {
        if page[at + i] != key[i] {
            assert(page@.subrange(at as int, at + n)[i as int] != key@[i as int]);
            return false;
        }
        i = i + 1;
    }
    assert(page@.subrange(at as int, at + n) =~= key@);
    true
}

/// The offset of the first window of `page` that holds `key`.
pub fn find_window(page: &[u8], key: &[u8]) -> (found: Option<usize>)
    ensures
        match found {
            Some(at) => first_window(page@, key@) == Some(at as int) && at + key@.len()
                <= page@.len(),
            None => first_window(page@, key@) is None,
        },
{
    let len = page.len();
    let n = key.len();
    if n > len {
        return None;
    }
    let last = len - n;
    let mut at: usize = 0;
    loop
        invariant
            at <= last,
            last == len - n,
            len == page@.len(),
            n == key@.len(),
            forall|j: int| 0 <= j < at ==> !window_is(page@, j, key@),
        decreases last - at,
    {
        if window_holds(page, at, key) {
            proof {
                lemma_first_window_from_is(page@, key@, 0, at as int);
            }
            return Some(at);
        }
        if at == last {
            proof {
                lemma_first_window_from(page@, key@, 0);
            }
            return None;
        }
        at = at + 1;
    }
}

/// The index of the first terminator in `page` from `from` on, or the page's
/// length where there is none.
pub fn find_terminator(page: &[u8], from: usize) -> (stop: usize)
    requires
        from <= page@.len(),
    ensures
        stop == terminator_from(page@, from as int),
        from <= stop <= page@.len(),
{
    let len = page.len();
    let mut i: usize = from;
    while i < len
        invariant
            from <= i <= len,
            len == page@.len(),
            forall|j: int| from <= j < i ==> page@[j] != TERMINATOR,
        decreases len - i,
    {
        if page[i] == TERMINATOR {
            proof {
                lemma_terminator_from_is(page@, from as int, i as int);
            }
            return i;
        }
        i = i + 1;
    }
    proof {
        lemma_terminator_from_is(page@, from as int, len as int);
    }
    len
}

} // verus!
