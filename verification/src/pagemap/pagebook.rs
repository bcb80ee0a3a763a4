//! The page book: an ordered list of equally sized pages that hold framed
//! records, searched byte by byte.

use vstd::prelude::*;
use std::ops::Range;
use crate::pagemap::page::{
    erase, find_terminator, find_window, first_free, first_window, frame, FREE, is_free,
    lemma_first_free_from, lemma_first_free_from_is, overwrite, record_range, sentinel_free,
    SEPARATOR, TERMINATOR, value_after,
};

verus! {

/// A list of pages of one size, the number of records put into them, and the
/// index of the first page that an insertion looks at.
pub struct PageBook {
    pages: Vec<Vec<u8>>,
    size: usize,
    live: usize,
    skip: usize,
}

/// What a page book holds, as mathematical values.
pub struct BookView {
    /// The pages, first to last.
    pub pages: Seq<Seq<u8>>,
    /// The length of every page.
    pub page_size: nat,
    /// The number of live records.
    pub live: nat,
    /// The index of the first page that an insertion looks at.
    pub skip: nat,
}

impl View for PageBook {
    type V = BookView;

    closed spec fn view(&self) -> BookView {
        BookView {
            pages: Seq::new(self.pages@.len(), |p: int| self.pages@[p]@),
            page_size: self.size as nat,
            live: self.live as nat,
            skip: self.skip as nat,
        }
    }
}

/// The index of the first page from `from` on that has a window holding `key`.
pub open spec fn holder_from(pages: Seq<Seq<u8>>, key: Seq<u8>, from: int) -> Option<int>
    decreases pages.len() - from,
{
    if from < 0 || from >= pages.len() {
        None
    } else if first_window(pages[from], key) is Some {
        Some(from)
    } else {
        holder_from(pages, key, from + 1)
    }
}

/// What `holder_from` returns is a page with a window that holds the key, and
/// no page from `from` up to it has one; `None` means that no page from `from`
/// on has one.
pub proof fn lemma_holder_from(pages: Seq<Seq<u8>>, key: Seq<u8>, from: int)
    requires
        0 <= from,
    ensures
        match holder_from(pages, key, from) {
            Some(p) => from <= p < pages.len() && first_window(pages[p], key) is Some
                && forall|q: int| from <= q < p ==> first_window(#[trigger] pages[q], key) is None,
            None => forall|q: int|
                from <= q < pages.len() ==> first_window(#[trigger] pages[q], key) is None,
        },
    decreases pages.len() - from,
{
    if from < pages.len() && first_window(pages[from], key) is None {
        lemma_holder_from(pages, key, from + 1);
    }
}

/// A page with a window that holds the key, with no such page from `from` up
/// to it, is what `holder_from` returns.
pub proof fn lemma_holder_from_is(pages: Seq<Seq<u8>>, key: Seq<u8>, from: int, p: int)
    requires
        0 <= from <= p < pages.len(),
        first_window(pages[p], key) is Some,
        forall|q: int| from <= q < p ==> first_window(#[trigger] pages[q], key) is None,
    ensures
        holder_from(pages, key, from) == Some(p),
    decreases p - from,
{
    if from < p {
        lemma_holder_from_is(pages, key, from + 1, p);
    }
}

/// The index of the first page from `from` on that has a free window of `n`
/// bytes.
pub open spec fn roomy_from(pages: Seq<Seq<u8>>, n: int, from: int) -> Option<int>
    decreases pages.len() - from,
{
    if from < 0 || from >= pages.len() {
        None
    } else if first_free(pages[from], n) is Some {
        Some(from)
    } else {
        roomy_from(pages, n, from + 1)
    }
}

/// What `roomy_from` returns is a page with a free window of `n` bytes, and no
/// page from `from` up to it has one; `None` means that no page from `from` on
/// has one.
pub proof fn lemma_roomy_from(pages: Seq<Seq<u8>>, n: int, from: int)
    requires
        0 <= from,
    ensures
        match roomy_from(pages, n, from) {
            Some(p) => from <= p < pages.len() && first_free(pages[p], n) is Some && forall|q: int|
                from <= q < p ==> first_free(#[trigger] pages[q], n) is None,
            None => forall|q: int|
                from <= q < pages.len() ==> first_free(#[trigger] pages[q], n) is None,
        },
    decreases pages.len() - from,
{
    if from < pages.len() && first_free(pages[from], n) is None {
        lemma_roomy_from(pages, n, from + 1);
    }
}

/// A page with a free window of `n` bytes, with no such page from `from` up to
/// it, is what `roomy_from` returns.
pub proof fn lemma_roomy_from_is(pages: Seq<Seq<u8>>, n: int, from: int, p: int)
    requires
        0 <= from <= p < pages.len(),
        first_free(pages[p], n) is Some,
        forall|q: int| from <= q < p ==> first_free(#[trigger] pages[q], n) is None,
    ensures
        roomy_from(pages, n, from) == Some(p),
    decreases p - from,
{
    if from < p {
        lemma_roomy_from_is(pages, n, from + 1, p);
    }
}

/// A page of `size` free bytes.
pub open spec fn blank(size: nat) -> Seq<u8> {
    Seq::new(size, |i: int| FREE)
}

impl BookView {
    /// Every page has the declared size.
    pub open spec fn wf(self) -> bool {
        forall|p: int|
            0 <= p < self.pages.len() ==> (#[trigger] self.pages[p]).len() == self.page_size
    }

    /// The book with one more page, free throughout, in front of the others.
    pub open spec fn create_page(self) -> BookView {
        BookView { pages: self.pages.insert(0, blank(self.page_size)), ..self }
    }

    /// Where a search for `key` ends: the first page, in index order, with a
    /// window that holds the key, and the offset of the first such window in
    /// it. A window that begins with the terminator is never taken, so a key
    /// that begins with it is not found.
    pub open spec fn find(self, key: Seq<u8>) -> Option<(int, int)> {
        if key.len() > 0 && key[0] == TERMINATOR {
            None
        } else {
            match holder_from(self.pages, key, 0) {
                Some(p) => Some((p, first_window(self.pages[p], key).unwrap())),
                None => None,
            }
        }
    }

    /// The value read for `key` from the page with index `page`.
    pub open spec fn get_known(self, page: int, key: Seq<u8>) -> Option<Seq<u8>> {
        if 0 <= page < self.pages.len() {
            value_after(self.pages[page], key)
        } else {
            None
        }
    }

    /// The page on which a search for `key` ends, and the value read from it.
    pub open spec fn get_full(self, key: Seq<u8>) -> Option<(int, Seq<u8>)> {
        match self.find(key) {
            Some((p, _)) => match self.get_known(p, key) {
                Some(v) => Some((p, v)),
                None => None,
            },
            None => None,
        }
    }

    /// The value read for `key`.
    pub open spec fn get(self, key: Seq<u8>) -> Option<Seq<u8>> {
        match self.get_full(key) {
            Some((_, v)) => Some(v),
            None => None,
        }
    }

    /// The range that the record with `key` takes in the page with index
    /// `page`.
    pub open spec fn get_key_range(self, page: int, key: Seq<u8>) -> Option<(int, int)> {
        if 0 <= page < self.pages.len() {
            record_range(self.pages[page], key)
        } else {
            None
        }
    }

    /// The number of bytes that the record of `key` and `value` takes.
    pub open spec fn need(key: Seq<u8>, value: Seq<u8>) -> int {
        (key.len() + value.len() + 2) as int
    }

    /// The book after the record of `key` and `value` was put into it: into the
    /// first free window that is long enough, on the first page from the cursor
    /// on that has one; or, where no such page has one, at the start of a new
    /// page in front of the others. The cursor then stands on the page written.
    pub open spec fn insert(self, key: Seq<u8>, value: Seq<u8>) -> BookView {
        let need = Self::need(key, value);
        match roomy_from(self.pages, need, self.skip as int) {
            Some(p) => BookView {
                pages: self.pages.update(
                    p,
                    overwrite(
                        self.pages[p],
                        first_free(self.pages[p], need).unwrap(),
                        frame(key, value),
                    ),
                ),
                live: self.live + 1,
                skip: p as nat,
                ..self
            },
            None => BookView {
                pages: self.pages.insert(
                    0,
                    overwrite(blank(self.page_size), 0, frame(key, value)),
                ),
                live: self.live + 1,
                skip: 0,
                ..self
            },
        }
    }

    /// The book after the record with `key` was taken out of the page with
    /// index `page`: its range is free again, one record fewer is live, and the
    /// cursor stands on the first page. Without such a record the book is
    /// unchanged.
    pub open spec fn remove_known(self, page: int, key: Seq<u8>) -> BookView {
        match self.get_key_range(page, key) {
            Some((from, to)) => BookView {
                pages: self.pages.update(page, erase(self.pages[page], from, to)),
                live: if self.live > 0 {
                    (self.live - 1) as nat
                } else {
                    0
                },
                skip: 0,
                ..self
            },
            None => self,
        }
    }

    /// The book after the record that a search for `key` finds was taken out.
    pub open spec fn remove(self, key: Seq<u8>) -> BookView {
        match self.find(key) {
            Some((p, _)) => self.remove_known(p, key),
            None => self,
        }
    }
}

impl PageBook {
    /// Every page has the declared size.
    pub open spec fn wf(&self) -> bool {
        self@.wf()
    }

    /// A book of `count` pages of `size` free bytes each, without records.
    pub fn new(count: usize, size: usize) -> (book: Self)
        ensures
            book.wf(),
            book@.pages == Seq::new(count as nat, |p: int| blank(size as nat)),
            book@.page_size == size,
            book@.live == 0,
            book@.skip == 0,
            book@.balanced(),
            book@.sealed(),
    {
        let mut pages: Vec<Vec<u8>> = Vec::new();
        let mut made: usize = 0;
        while made < count
            invariant
                made <= count,
                pages@.len() == made,
                forall|p: int| 0 <= p < made ==> (#[trigger] pages@[p])@ == blank(size as nat),
            decreases count - made,
        {
            let page = vec![FREE; size];
            assert(page@ =~= blank(size as nat));
            pages.push(page);
            made = made + 1;
        }
        let book = PageBook { pages, size, live: 0, skip: 0 };
        assert(book@.pages =~= Seq::new(count as nat, |p: int| blank(size as nat)));
        proof {
            crate::pagemap::framing::lemma_count_in_blank(count as nat, size as nat, SEPARATOR);
            crate::pagemap::framing::lemma_count_in_blank(count as nat, size as nat, TERMINATOR);
        }
        book
    }

    /// Whether every byte of `window` is free.
    pub fn check_window_for_not_null(window: &[u8]) -> (free: bool)
        ensures
            free == is_free(window@, 0, window@.len() as int),
    {
        let n = window.len();
        if n == 0 {
            return true;
        }
        // Most occupied windows are told by one of three bytes.
        if window[0] != FREE || window[(n - 1) / 2] != FREE || window[n - 1] != FREE {
            return false;
        }
        let mut i: usize = 0;
        while i < n
            invariant
                i <= n,
                n == window@.len(),
                forall|j: int| 0 <= j < i ==> window@[j] == FREE,
            decreases n - i,
        {
            if window[i] != FREE {
                return false;
            }
            i = i + 1;
        }
        true
    }

    /// The first free window of `size` bytes in `page`.
    pub fn find_free_range(page: &[u8], size: usize) -> (found: Option<Range<usize>>)
        ensures
            match found {
                Some(range) => first_free(page@, size as int) == Some(range.start as int)
                    && range.end == range.start + size,
                None => first_free(page@, size as int) is None,
            },
    {
        let len = page.len();
        if size > len {
            proof {
                lemma_first_free_from(page@, size as int, 0);
            }
            return None;
        }
        let last = len - size;
        let mut at: usize = 0;
        loop
            invariant
                at <= last,
                last == len - size,
                len == page@.len(),
                forall|j: int| 0 <= j < at ==> !is_free(page@, j, size as int),
            decreases last - at,
        {
            let window = &page[at..at + size];
            assert(forall|i: int| 0 <= i < size ==> window@[i] == page@[at + i]);
            if Self::check_window_for_not_null(window) {
                assert(is_free(page@, at as int, size as int)) by {
                    assert forall|i: int| at <= i < at + size implies page@[i] == FREE by {
                        assert(window@[i - at] == page@[i]);
                    }
                }
                proof {
                    lemma_first_free_from_is(page@, size as int, 0, at as int);
                }
                return Some(at..at + size);
            }
            assert(!is_free(page@, at as int, size as int)) by {
                if is_free(page@, at as int, size as int) {
                    assert forall|i: int| 0 <= i < size implies window@[i] == FREE by {
                        assert(page@[at + i] == FREE);
                    }
                }
            }
            if at == last {
                proof {
                    lemma_first_free_from(page@, size as int, 0);
                }
                return None;
            }
            at = at + 1;
        }
    }

    /// The number of pages.
    pub fn page_count(&self) -> (count: usize)
        ensures
            count == self@.pages.len(),
    {
        self.pages.len()
    }

    /// The length of every page.
    pub fn page_size(&self) -> (size: usize)
        ensures
            size == self@.page_size,
    {
        self.size
    }

    /// The number of live records.
    pub fn len(&self) -> (live: usize)
        ensures
            live == self@.live,
    {
        self.live
    }

    /// The page with index `page`.
    pub fn page(&self, page: usize) -> (bytes: &[u8])
        requires
            page < self@.pages.len(),
        ensures
            bytes@ == self@.pages[page as int],
    {
        self.pages[page].as_slice()
    }

    /// Where a search for `key` ends: the page and the offset of the window.
    pub fn find_page(&self, key: &[u8]) -> (found: Option<(usize, usize)>)
        ensures
            match found {
                Some((p, w)) => self@.find(key@) == Some((p as int, w as int)),
                None => self@.find(key@) is None,
            },
    {
        if key.len() > 0 && key[0] == TERMINATOR {
            return None;
        }
        let count = self.pages.len();
        let mut p: usize = 0;
        while p < count
            invariant
                p <= count,
                count == self@.pages.len(),
                !(key@.len() > 0 && key@[0] == TERMINATOR),
                forall|q: int| 0 <= q < p ==> first_window(#[trigger] self@.pages[q], key@) is None,
            decreases count - p,
        {
            assert(self@.pages[p as int] == self.pages@[p as int]@);
            match find_window(self.pages[p].as_slice(), key) {
                Some(w) => {
                    proof {
                        lemma_holder_from_is(self@.pages, key@, 0, p as int);
                    }
                    return Some((p, w));
                },
                None => {},
            }
            p = p + 1;
        }
        proof {
            lemma_holder_from(self@.pages, key@, 0);
        }
        None
    }

    /// The value read for `key` from the page with index `page`.
    pub fn get_known(&self, page: usize, key: &[u8]) -> (value: Option<Vec<u8>>)
        ensures
            match value {
                Some(v) => self@.get_known(page as int, key@) == Some(v@),
                None => self@.get_known(page as int, key@) is None,
            },
    {
        if page >= self.pages.len() {
            return None;
        }
        let bytes = self.pages[page].as_slice();
        assert(self@.pages[page as int] == bytes@);
        let at = match find_window(bytes, key) {
            Some(at) => at,
            None => {
                return None;
            },
        };
        // The window ends inside the page, so neither sum can overflow there.
        let len = bytes.len();
        if at + key.len() >= len {
            return None;
        }
        let start = at + key.len() + 1;
        let stop = find_terminator(bytes, start);
        let mut out: Vec<u8> = Vec::new();
        let mut i: usize = start;
        while i < stop
            invariant
                start <= i <= stop <= bytes@.len(),
                out@ == bytes@.subrange(start as int, i as int),
            decreases stop - i,
        {
            out.push(bytes[i]);
            assert(out@ =~= bytes@.subrange(start as int, i + 1));
            i = i + 1;
        }
        Some(out)
    }

    /// The value read for `key`.
    pub fn get(&self, key: &[u8]) -> (value: Option<Vec<u8>>)
        ensures
            match value {
                Some(v) => self@.get(key@) == Some(v@),
                None => self@.get(key@) is None,
            },
    {
        match self.find_page(key) {
            Some((page, _)) => self.get_known(page, key),
            None => None,
        }
    }

    /// The page on which a search for `key` ends, and the value read from it.
    pub fn get_full(&self, key: &[u8]) -> (found: Option<(usize, Vec<u8>)>)
        ensures
            match found {
                Some((p, v)) => self@.get_full(key@) == Some((p as int, v@)),
                None => self@.get_full(key@) is None,
            },
    {
        let page = match self.find_page(key) {
            Some((page, _)) => page,
            None => {
                return None;
            },
        };
        match self.get_known(page, key) {
            Some(v) => Some((page, v)),
            None => None,
        }
    }

    /// The range that the record with `key` takes in the page with index
    /// `page`.
    pub fn get_key_range(&self, page: usize, key: &[u8]) -> (found: Option<Range<usize>>)
        ensures
            match found {
                Some(range) => self@.get_key_range(page as int, key@) == Some(
                    (range.start as int, range.end as int),
                ),
                None => self@.get_key_range(page as int, key@) is None,
            },
    {
        if page >= self.pages.len() {
            return None;
        }
        let bytes = self.pages[page].as_slice();
        assert(self@.pages[page as int] == bytes@);
        let at = match find_window(bytes, key) {
            Some(at) => at,
            None => {
                return None;
            },
        };
        let len = bytes.len();
        if at + key.len() >= len {
            return None;
        }
        let start = at + key.len() + 1;
        let stop = find_terminator(bytes, start);
        if stop < len {
            Some(at..stop + 1)
        } else {
            Some(at..stop)
        }
    }

    /// Puts a new page, free throughout, in front of the others, and returns
    /// the page that is then the last one.
    pub fn create_page(&mut self) -> (last: Option<&Vec<u8>>)
        requires
            old(self).wf(),
        ensures
            final(self).wf(),
            final(self)@ == old(self)@.create_page(),
            last is Some,
            last.unwrap()@ == final(self)@.pages.last(),
    {
        let page = vec![FREE; self.size];
        assert(page@ =~= blank(self.size as nat));
        self.pages.insert(0, page);
        assert(self@.pages =~= old(self)@.pages.insert(0, blank(self.size as nat)));
        let count = self.pages.len();
        Some(&self.pages[count - 1])
    }

    /// Writes the record of `key` and `value` into the page with index `page`,
    /// from `at` on.
    fn place(&mut self, page: usize, at: usize, key: &[u8], value: &[u8])
        requires
            old(self).wf(),
            page < old(self)@.pages.len(),
            at + key@.len() + value@.len() + 2 <= old(self)@.page_size,
        ensures
            final(self).wf(),
            final(self)@ == (BookView {
                pages: old(self)@.pages.update(
                    page as int,
                    overwrite(old(self)@.pages[page as int], at as int, frame(key@, value@)),
                ),
                ..old(self)@
            }),
    {
        let klen = key.len();
        let vlen = value.len();
        let ghost before = self.pages@[page as int]@;
        let ghost record = frame(key@, value@);
        assert(before == old(self)@.pages[page as int]);
        assert(before.len() == self.size);
        let mut i: usize = 0;
        while i < klen
            invariant
                i <= klen,
                klen == key@.len(),
                vlen == value@.len(),
                record == frame(key@, value@),
                page < self.pages@.len(),
                self.pages@.len() == old(self).pages@.len(),
                self.size == old(self).size,
                self.live == old(self).live,
                self.skip == old(self).skip,
                before.len() == self.size,
                at + klen + vlen + 2 <= self.size,
                forall|q: int|
                    0 <= q < self.pages@.len() && q != page ==> self.pages@[q] == old(
                        self,
                    ).pages@[q],
                self.pages@[page as int]@ == overwrite(
                    before,
                    at as int,
                    record.subrange(0, i as int),
                ),
            decreases klen - i,
        {
            self.pages[page][at + i] = key[i];
            assert(self.pages@[page as int]@ =~= overwrite(
                before,
                at as int,
                record.subrange(0, i + 1),
            ));
            i = i + 1;
        }
        self.pages[page][at + klen] = SEPARATOR;
        assert(self.pages@[page as int]@ =~= overwrite(
            before,
            at as int,
            record.subrange(0, klen + 1),
        ));
        let base = at + klen + 1;
        let mut j: usize = 0;
        while j < vlen
            invariant
                j <= vlen,
                klen == key@.len(),
                vlen == value@.len(),
                record == frame(key@, value@),
                base == at + klen + 1,
                page < self.pages@.len(),
                self.pages@.len() == old(self).pages@.len(),
                self.size == old(self).size,
                self.live == old(self).live,
                self.skip == old(self).skip,
                before.len() == self.size,
                at + klen + vlen + 2 <= self.size,
                forall|q: int|
                    0 <= q < self.pages@.len() && q != page ==> self.pages@[q] == old(
                        self,
                    ).pages@[q],
                self.pages@[page as int]@ == overwrite(
                    before,
                    at as int,
                    record.subrange(0, klen + 1 + j),
                ),
            decreases vlen - j,
        {
            self.pages[page][base + j] = value[j];
            assert(self.pages@[page as int]@ =~= overwrite(
                before,
                at as int,
                record.subrange(0, klen + 1 + j + 1),
            ));
            j = j + 1;
        }
        self.pages[page][base + vlen] = TERMINATOR;
        assert(record.subrange(0, klen + vlen + 2) =~= record);
        assert(self.pages@[page as int]@ =~= overwrite(before, at as int, record));
        assert(self@.pages =~= old(self)@.pages.update(
            page as int,
            overwrite(before, at as int, record),
        ));
    }

    /// Puts the record of `key` and `value` into the book.
    pub fn insert(&mut self, key: &[u8], value: &[u8])
        requires
            old(self).wf(),
            sentinel_free(key@),
            sentinel_free(value@),
            key@.len() + value@.len() + 2 <= old(self)@.page_size,
            old(self)@.live < usize::MAX,
        ensures
            final(self).wf(),
            final(self)@ == old(self)@.insert(key@, value@),
            old(self)@.balanced() ==> final(self)@.balanced(),
            old(self)@.sealed() ==> final(self)@.sealed(),
    {
        proof {
            crate::pagemap::framing::lemma_insert_counts(old(self)@, key@, value@);
            if old(self)@.sealed() {
                crate::pagemap::framing::lemma_insert_keeps_seal(old(self)@, key@, value@);
            }
        }
        // With the record no longer than a page, the sum cannot overflow.
        let need = key.len() + value.len() + 2;
        let count = self.pages.len();
        let mut spot: Option<(usize, usize)> = None;
        let mut p: usize = self.skip;
        while p < count
            invariant_except_break
                spot is None,
            invariant
                *self == *old(self),
                self.skip <= p,
                count == self@.pages.len(),
                match spot {
                    Some((q, at)) => roomy_from(self@.pages, need as int, self.skip as int) == Some(
                        q as int,
                    ) && first_free(self@.pages[q as int], need as int) == Some(at as int),
                    None => forall|q: int|
                        self.skip <= q < p && q < count ==> first_free(
                            #[trigger] self@.pages[q],
                            need as int,
                        ) is None,
                },
            ensures
                spot is None ==> p >= count,
            decreases count - p,
        {
            assert(self@.pages[p as int] == self.pages@[p as int]@);
            match Self::find_free_range(self.pages[p].as_slice(), need) {
                Some(range) => {
                    proof {
                        lemma_roomy_from_is(self@.pages, need as int, self.skip as int, p as int);
                    }
                    spot = Some((p, range.start));
                    break;
                },
                None => {},
            }
            p = p + 1;
        }
        proof {
            lemma_roomy_from(self@.pages, need as int, self.skip as int);
        }
        match spot {
            Some((page, at)) => {
                proof {
                    lemma_first_free_from(self@.pages[page as int], need as int, 0);
                }
                self.skip = page;
                self.place(page, at, key, value);
            },
            None => {
                self.create_page();
                self.skip = 0;
                self.place(0, 0, key, value);
                assert(self@.pages =~= old(self)@.pages.insert(
                    0,
                    overwrite(blank(self.size as nat), 0, frame(key@, value@)),
                ));
            },
        }
        self.live = self.live + 1;
    }

    /// Takes the record with `key` out of the page with index `page`. Returns
    /// `None`, and changes nothing, where the page holds no such record.
    pub fn remove_known(&mut self, page: usize, key: &[u8]) -> (done: Option<()>)
        requires
            old(self).wf(),
        ensures
            final(self).wf(),
            final(self)@ == old(self)@.remove_known(page as int, key@),
            done is Some <==> old(self)@.get_key_range(page as int, key@) is Some,
    {
        let range = match self.get_key_range(page, key) {
            Some(range) => range,
            None => {
                return None;
            },
        };
        let ghost before = self.pages@[page as int]@;
        assert(before == old(self)@.pages[page as int]);
        proof {
            crate::pagemap::page::lemma_record_range(before, key@);
        }
        let mut i: usize = range.start;
        while i < range.end
            invariant
                range.start <= i <= range.end <= self.size,
                page < self.pages@.len(),
                self.pages@.len() == old(self).pages@.len(),
                self.size == old(self).size,
                self.live == old(self).live,
                before.len() == self.size,
                forall|q: int|
                    0 <= q < self.pages@.len() && q != page ==> self.pages@[q] == old(
                        self,
                    ).pages@[q],
                self.pages@[page as int]@ == erase(before, range.start as int, i as int),
            decreases range.end - i,
        {
            self.pages[page][i] = FREE;
            assert(self.pages@[page as int]@ =~= erase(before, range.start as int, i + 1));
            i = i + 1;
        }
        if self.live > 0 {
            self.live = self.live - 1;
        }
        self.skip = 0;
        assert(self@.pages =~= old(self)@.pages.update(
            page as int,
            erase(before, range.start as int, range.end as int),
        ));
        Some(())
    }

    /// Takes out the record that a search for `key` finds. Returns `None`, and
    /// changes nothing, where the search finds none.
    pub fn remove(&mut self, key: &[u8]) -> (done: Option<()>)
        requires
            old(self).wf(),
        ensures
            final(self).wf(),
            final(self)@ == old(self)@.remove(key@),
            done is Some <==> (old(self)@.find(key@) is Some && old(self)@.get_key_range(
                old(self)@.find(key@).unwrap().0,
                key@,
            ) is Some),
    {
        match self.find_page(key) {
            Some((page, _)) => self.remove_known(page, key),
            None => None,
        }
    }
}

} // verus!
