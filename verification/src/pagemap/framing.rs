//! What holds of a page book that only ever received well-formed records:
//! its separators and terminators are as many as its live records, and a
//! record that was put in and taken out again leaves no trace.

use vstd::prelude::*;
use crate::pagemap::page::{
    erase, first_free, first_window, frame, FREE, is_free, lemma_first_free_from,
    lemma_first_window_from, lemma_first_window_from_is, lemma_terminator_from_is, overwrite,
    record_range, sentinel_free, SEPARATOR, TERMINATOR, value_after, window_is,
};
use crate::pagemap::pagebook::{
    blank, BookView, holder_from, lemma_holder_from, lemma_holder_from_is, lemma_roomy_from,
    roomy_from,
};

verus! {

/// How many bytes of `bytes` equal `byte`.
pub open spec fn count_of(bytes: Seq<u8>, byte: u8) -> nat
    decreases bytes.len(),
{
    if bytes.len() == 0 {
        0
    } else {
        count_of(bytes.drop_last(), byte) + if bytes.last() == byte {
            1nat
        } else {
            0nat
        }
    }
}

/// How many bytes of all `pages` together equal `byte`.
pub open spec fn count_in(pages: Seq<Seq<u8>>, byte: u8) -> nat
    decreases pages.len(),
{
    if pages.len() == 0 {
        0
    } else {
        count_in(pages.drop_last(), byte) + count_of(pages.last(), byte)
    }
}

/// Counting over two sequences one after the other adds up.
pub proof fn lemma_count_of_concat(a: Seq<u8>, b: Seq<u8>, byte: u8)
    ensures
        count_of(a + b, byte) == count_of(a, byte) + count_of(b, byte),
    decreases b.len(),
{
    if b.len() == 0 {
        assert(a + b =~= a);
    } else {
        assert((a + b).drop_last() =~= a + b.drop_last());
        lemma_count_of_concat(a, b.drop_last(), byte);
    }
}

/// A sequence without the byte counts none of it.
pub proof fn lemma_count_of_absent(bytes: Seq<u8>, byte: u8)
    requires
        forall|i: int| 0 <= i < bytes.len() ==> bytes[i] != byte,
    ensures
        count_of(bytes, byte) == 0,
    decreases bytes.len(),
{
    if bytes.len() > 0 {
        lemma_count_of_absent(bytes.drop_last(), byte);
    }
}

/// A sequence of one byte counts one of that byte and none of any other.
pub proof fn lemma_count_of_single(held: u8, byte: u8)
    ensures
        count_of(seq![held], byte) == if held == byte {
            1nat
        } else {
            0nat
        },
{
    assert(seq![held].drop_last() =~= Seq::<u8>::empty());
    assert(count_of(seq![held].drop_last(), byte) == 0);
}

/// The record of a key and a value without framing bytes holds one separator,
/// one terminator and no free byte.
pub proof fn lemma_count_of_frame(key: Seq<u8>, value: Seq<u8>)
    requires
        sentinel_free(key),
        sentinel_free(value),
    ensures
        count_of(frame(key, value), SEPARATOR) == 1,
        count_of(frame(key, value), TERMINATOR) == 1,
        count_of(frame(key, value), FREE) == 0,
{
    lemma_count_of_absent(key, SEPARATOR);
    lemma_count_of_absent(key, TERMINATOR);
    lemma_count_of_absent(key, FREE);
    lemma_count_of_absent(value, SEPARATOR);
    lemma_count_of_absent(value, TERMINATOR);
    lemma_count_of_absent(value, FREE);
    lemma_count_of_single(SEPARATOR, SEPARATOR);
    lemma_count_of_single(SEPARATOR, TERMINATOR);
    lemma_count_of_single(SEPARATOR, FREE);
    lemma_count_of_single(TERMINATOR, SEPARATOR);
    lemma_count_of_single(TERMINATOR, TERMINATOR);
    lemma_count_of_single(TERMINATOR, FREE);
    lemma_count_of_concat(key, seq![SEPARATOR], SEPARATOR);
    lemma_count_of_concat(key, seq![SEPARATOR], TERMINATOR);
    lemma_count_of_concat(key, seq![SEPARATOR], FREE);
    lemma_count_of_concat(key + seq![SEPARATOR], value, SEPARATOR);
    lemma_count_of_concat(key + seq![SEPARATOR], value, TERMINATOR);
    lemma_count_of_concat(key + seq![SEPARATOR], value, FREE);
    lemma_count_of_concat(key + seq![SEPARATOR] + value, seq![TERMINATOR], SEPARATOR);
    lemma_count_of_concat(key + seq![SEPARATOR] + value, seq![TERMINATOR], TERMINATOR);
    lemma_count_of_concat(key + seq![SEPARATOR] + value, seq![TERMINATOR], FREE);
}

/// Writing `bytes` over a free window changes the count of a byte other than
/// the free one by what `bytes` holds of it.
pub proof fn lemma_count_of_overwrite(page: Seq<u8>, at: int, bytes: Seq<u8>, byte: u8)
    requires
        is_free(page, at, bytes.len() as int),
        byte != FREE,
    ensures
        count_of(overwrite(page, at, bytes), byte) == count_of(page, byte) + count_of(bytes, byte),
{
    let n = bytes.len() as int;
    let head = page.subrange(0, at);
    let gap = page.subrange(at, at + n);
    let tail = page.subrange(at + n, page.len() as int);
    assert(page =~= head + gap + tail);
    assert(overwrite(page, at, bytes) =~= head + bytes + tail);
    lemma_count_of_absent(gap, byte);
    lemma_count_of_concat(head, gap, byte);
    lemma_count_of_concat(head + gap, tail, byte);
    lemma_count_of_concat(head, bytes, byte);
    lemma_count_of_concat(head + bytes, tail, byte);
}

/// Replacing one page changes the count by the difference between the two
/// pages.
pub proof fn lemma_count_in_update(pages: Seq<Seq<u8>>, p: int, page: Seq<u8>, byte: u8)
    requires
        0 <= p < pages.len(),
    ensures
        count_in(pages.update(p, page), byte) + count_of(pages[p], byte) == count_in(pages, byte)
            + count_of(page, byte),
    decreases pages.len(),
{
    if p == pages.len() - 1 {
        assert(pages.update(p, page).drop_last() =~= pages.drop_last());
    } else {
        assert(pages.update(p, page).drop_last() =~= pages.drop_last().update(p, page));
        lemma_count_in_update(pages.drop_last(), p, page, byte);
    }
}

/// A page put in front adds what it holds to the count.
pub proof fn lemma_count_in_front(pages: Seq<Seq<u8>>, page: Seq<u8>, byte: u8)
    ensures
        count_in(pages.insert(0, page), byte) == count_in(pages, byte) + count_of(page, byte),
    decreases pages.len(),
{
    if pages.len() == 0 {
        assert(pages.insert(0, page).drop_last() =~= pages);
    } else {
        assert(pages.insert(0, page).drop_last() =~= pages.drop_last().insert(0, page));
        assert(pages.insert(0, page).last() == pages.last());
        lemma_count_in_front(pages.drop_last(), page, byte);
    }
}

impl BookView {
    /// The separators in the pages, and the terminators, are as many as the
    /// live records.
    pub open spec fn balanced(self) -> bool {
        &&& count_in(self.pages, SEPARATOR) == self.live
        &&& count_in(self.pages, TERMINATOR) == self.live
    }

    /// Wherever a free byte follows an occupied one, the occupied one is a
    /// terminator: what was written ends where a record ends.
    pub open spec fn sealed(self) -> bool {
        forall|p: int, i: int|
            0 <= p < self.pages.len() && 0 < i < self.pages[p].len() && #[trigger] self.pages[p][i]
                == FREE ==> self.pages[p][i - 1] == FREE || self.pages[p][i - 1] == TERMINATOR
    }
}

/// After a record without framing bytes in its key and value was put in, the
/// pages hold one separator and one terminator more than before, and one more
/// record is live: a book whose separators and terminators were as many as its
/// live records is such a book afterwards.
pub proof fn lemma_insert_counts(book: BookView, key: Seq<u8>, value: Seq<u8>)
    requires
        book.wf(),
        sentinel_free(key),
        sentinel_free(value),
        BookView::need(key, value) <= book.page_size,
    ensures
        count_in(book.insert(key, value).pages, SEPARATOR) == count_in(book.pages, SEPARATOR) + 1,
        count_in(book.insert(key, value).pages, TERMINATOR) == count_in(book.pages, TERMINATOR)
            + 1,
        book.insert(key, value).live == book.live + 1,
        book.balanced() ==> book.insert(key, value).balanced(),
{
    let need = BookView::need(key, value);
    let record = frame(key, value);
    lemma_count_of_frame(key, value);
    lemma_roomy_from(book.pages, need, book.skip as int);
    match roomy_from(book.pages, need, book.skip as int) {
        Some(p) => {
            lemma_first_free_from(book.pages[p], need, 0);
            let at = first_free(book.pages[p], need).unwrap();
            let page = overwrite(book.pages[p], at, record);
            lemma_count_of_overwrite(book.pages[p], at, record, SEPARATOR);
            lemma_count_of_overwrite(book.pages[p], at, record, TERMINATOR);
            lemma_count_in_update(book.pages, p, page, SEPARATOR);
            lemma_count_in_update(book.pages, p, page, TERMINATOR);
        },
        None => {
            let fresh = blank(book.page_size);
            let page = overwrite(fresh, 0, record);
            assert(is_free(fresh, 0, need));
            lemma_count_of_absent(fresh, SEPARATOR);
            lemma_count_of_absent(fresh, TERMINATOR);
            lemma_count_of_overwrite(fresh, 0, record, SEPARATOR);
            lemma_count_of_overwrite(fresh, 0, record, TERMINATOR);
            lemma_count_in_front(book.pages, page, SEPARATOR);
            lemma_count_in_front(book.pages, page, TERMINATOR);
        },
    }
}

/// No byte of a record is free when its key and value hold no framing byte.
pub proof fn lemma_frame_occupied(key: Seq<u8>, value: Seq<u8>)
    requires
        sentinel_free(key),
        sentinel_free(value),
    ensures
        frame(key, value).len() == BookView::need(key, value),
        frame(key, value).last() == TERMINATOR,
        forall|i: int| 0 <= i < frame(key, value).len() ==> frame(key, value)[i] != FREE,
        forall|i: int| 0 <= i < key.len() ==> frame(key, value)[i] == key[i],
        frame(key, value)[key.len() as int] == SEPARATOR,
        forall|i: int|
            0 <= i < value.len() ==> #[trigger] frame(key, value)[key.len() + 1 + i] == value[i],
{
}

/// A page that is written over a free window whose left neighbour, if it has
/// one, is free or a terminator is read as follows, where the key has no
/// framing byte, is not empty and was in no window of the page before: the
/// first window that holds the key is the one written, the value read for it
/// is the one written, the record's range is the window written, and freeing
/// that range gives the page as it was.
pub proof fn lemma_written_page(page: Seq<u8>, at: int, key: Seq<u8>, value: Seq<u8>)
    requires
        sentinel_free(key),
        sentinel_free(value),
        key.len() > 0,
        is_free(page, at, BookView::need(key, value)),
        at == 0 || page[at - 1] == FREE || page[at - 1] == TERMINATOR,
        first_window(page, key) is None,
    ensures
        first_window(overwrite(page, at, frame(key, value)), key) == Some(at),
        value_after(overwrite(page, at, frame(key, value)), key) == Some(value),
        record_range(overwrite(page, at, frame(key, value)), key) == Some(
            (at, at + BookView::need(key, value)),
        ),
        erase(overwrite(page, at, frame(key, value)), at, at + BookView::need(key, value)) == page,
{
    let record = frame(key, value);
    let need = BookView::need(key, value);
    let after = overwrite(page, at, record);
    let klen = key.len() as int;
    let vlen = value.len() as int;
    lemma_frame_occupied(key, value);
    lemma_first_window_from(page, key, 0);
    assert(after.subrange(at, at + klen) =~= key);
    assert forall|j: int| 0 <= j < at implies !window_is(after, j, key) by {
        if j + klen <= at {
            assert(after.subrange(j, j + klen) =~= page.subrange(j, j + klen));
            assert(!window_is(page, j, key));
        } else if j + klen <= after.len() {
            assert(after.subrange(j, j + klen)[at - 1 - j] == page[at - 1]);
            assert(key[at - 1 - j] > TERMINATOR);
        }
    }
    lemma_first_window_from_is(after, key, 0, at);
    let start = at + klen + 1;
    let stop = start + vlen;
    assert forall|j: int| start <= j < stop implies after[j] != TERMINATOR by {
        assert(after[j] == record[klen + 1 + (j - start)]);
    }
    assert(after[stop] == record[need - 1]);
    lemma_terminator_from_is(after, start, stop);
    assert(after.subrange(start, stop) =~= value) by {
        assert forall|i: int| 0 <= i < vlen implies after.subrange(start, stop)[i] == value[i] by {
            assert(after[start + i] == record[klen + 1 + i]);
        }
    }
    assert(erase(after, at, at + need) =~= page);
}

/// A book in which every written stretch ends with a terminator is such a
/// book after a record without framing bytes was put in.
pub proof fn lemma_insert_keeps_seal(book: BookView, key: Seq<u8>, value: Seq<u8>)
    requires
        book.wf(),
        book.sealed(),
        sentinel_free(key),
        sentinel_free(value),
        BookView::need(key, value) <= book.page_size,
    ensures
        book.insert(key, value).sealed(),
        book.insert(key, value).wf(),
{
    let need = BookView::need(key, value);
    let record = frame(key, value);
    let after = book.insert(key, value);
    lemma_frame_occupied(key, value);
    lemma_roomy_from(book.pages, need, book.skip as int);
    match roomy_from(book.pages, need, book.skip as int) {
        Some(p) => {
            lemma_first_free_from(book.pages[p], need, 0);
            let at = first_free(book.pages[p], need).unwrap();
            assert forall|q: int, i: int|
                0 <= q < after.pages.len() && 0 < i < after.pages[q].len()
                    && #[trigger] after.pages[q][i] == FREE implies after.pages[q][i - 1] == FREE
                || after.pages[q][i - 1] == TERMINATOR by {
                if q == p {
                    if at <= i < at + need {
                        assert(after.pages[q][i] == record[i - at]);
                    } else if i == at + need {
                        assert(after.pages[q][i - 1] == record[need - 1]);
                    } else {
                        assert(book.pages[q][i] == FREE);
                    }
                } else {
                    assert(book.pages[q][i] == FREE);
                }
            }
        },
        None => {
            let fresh = blank(book.page_size);
            assert forall|q: int, i: int|
                0 <= q < after.pages.len() && 0 < i < after.pages[q].len()
                    && #[trigger] after.pages[q][i] == FREE implies after.pages[q][i - 1] == FREE
                || after.pages[q][i - 1] == TERMINATOR by {
                if q == 0 {
                    if i < need {
                        assert(after.pages[q][i] == record[i]);
                    } else if i == need {
                        assert(after.pages[q][i - 1] == record[need - 1]);
                    }
                } else {
                    assert(after.pages[q] == book.pages[q - 1]);
                    assert(book.pages[q - 1][i] == FREE);
                }
            }
            assert forall|q: int| 0 <= q < after.pages.len() implies (#[trigger] after.pages[q]).len()
                == after.page_size by {
                if q > 0 {
                    assert(after.pages[q] == book.pages[q - 1]);
                }
            }
        },
    }
}

/// Putting a record in and taking it out again leaves no trace. Let the book
/// be one in which every written stretch ends with a terminator, the key and
/// the value be without framing bytes, the key not empty, and the key in no
/// window of any page. Then, once the record is in, a search for the key ends
/// at the window written and reads the value written. Once it is taken out,
/// the window is free again, the key is read nowhere, and as many records are
/// live as at the start.
pub proof fn lemma_insert_then_remove(book: BookView, key: Seq<u8>, value: Seq<u8>)
    requires
        book.wf(),
        book.sealed(),
        sentinel_free(key),
        sentinel_free(value),
        key.len() > 0,
        BookView::need(key, value) <= book.page_size,
        book.find(key) is None,
    ensures
        book.insert(key, value).find(key) is Some,
        book.insert(key, value).get(key) == Some(value),
        book.insert(key, value).remove(key).get(key) is None,
        book.insert(key, value).remove(key).live == book.live,
        ({
            let (p, at) = book.insert(key, value).find(key).unwrap();
            &&& 0 <= p < book.insert(key, value).remove(key).pages.len()
            &&& is_free(
                book.insert(key, value).remove(key).pages[p],
                at,
                BookView::need(key, value),
            )
        }),
{
    let need = BookView::need(key, value);
    let record = frame(key, value);
    let mid = book.insert(key, value);
    lemma_holder_from(book.pages, key, 0);
    lemma_roomy_from(book.pages, need, book.skip as int);
    match roomy_from(book.pages, need, book.skip as int) {
        Some(p) => {
            let page = book.pages[p];
            lemma_first_free_from(page, need, 0);
            let at = first_free(page, need).unwrap();
            assert(at == 0 || page[at - 1] == FREE || page[at - 1] == TERMINATOR) by {
                if at > 0 {
                    assert(book.pages[p][at] == FREE);
                }
            }
            lemma_written_page(page, at, key, value);
            assert forall|q: int| 0 <= q < p implies first_window(#[trigger] mid.pages[q], key)
                is None by {
                assert(mid.pages[q] == book.pages[q]);
            }
            lemma_holder_from_is(mid.pages, key, 0, p);
            let end = mid.remove(key);
            assert(end.pages =~= book.pages);
            lemma_holder_from(end.pages, key, 0);
        },
        None => {
            let fresh = blank(book.page_size);
            assert(is_free(fresh, 0, need));
            assert(first_window(fresh, key) is None) by {
                lemma_first_window_from(fresh, key, 0);
                if let Some(w) = first_window(fresh, key) {
                    assert(fresh.subrange(w, w + key.len())[0] == FREE);
                }
            }
            lemma_written_page(fresh, 0, key, value);
            lemma_holder_from_is(mid.pages, key, 0, 0);
            let end = mid.remove(key);
            assert(end.pages =~= book.pages.insert(0, fresh));
            assert forall|q: int| 0 <= q < end.pages.len() implies first_window(
                #[trigger] end.pages[q],
                key,
            ) is None by {
                if q > 0 {
                    assert(end.pages[q] == book.pages[q - 1]);
                }
            }
            lemma_holder_from(end.pages, key, 0);
            match holder_from(end.pages, key, 0) {
                Some(h) => {
                    assert(first_window(end.pages[h], key) is Some);
                },
                None => {},
            }
        },
    }
}

/// Pages that are free throughout hold none of a byte other than the free one.
pub proof fn lemma_count_in_blank(count: nat, size: nat, byte: u8)
    requires
        byte != FREE,
    ensures
        count_in(Seq::new(count, |p: int| blank(size)), byte) == 0,
    decreases count,
{
    let pages = Seq::new(count, |p: int| blank(size));
    if count > 0 {
        assert(pages.drop_last() =~= Seq::new((count - 1) as nat, |p: int| blank(size)));
        lemma_count_in_blank((count - 1) as nat, size, byte);
        lemma_count_of_absent(pages.last(), byte);
    }
}

/// Freeing a stretch of a page that holds `bytes` takes what `bytes` hold of a
/// byte other than the free one from the count.
pub proof fn lemma_count_of_erase(page: Seq<u8>, at: int, bytes: Seq<u8>, byte: u8)
    requires
        0 <= at,
        at + bytes.len() <= page.len(),
        page.subrange(at, at + bytes.len()) == bytes,
        byte != FREE,
    ensures
        count_of(erase(page, at, at + bytes.len()), byte) + count_of(bytes, byte) == count_of(
            page,
            byte,
        ),
{
    let n = bytes.len() as int;
    let head = page.subrange(0, at);
    let tail = page.subrange(at + n, page.len() as int);
    let gap = Seq::new(bytes.len(), |i: int| FREE);
    assert(page =~= head + bytes + tail);
    assert(erase(page, at, at + n) =~= head + gap + tail);
    lemma_count_of_absent(gap, byte);
    lemma_count_of_concat(head, gap, byte);
    lemma_count_of_concat(head + gap, tail, byte);
    lemma_count_of_concat(head, bytes, byte);
    lemma_count_of_concat(head + bytes, tail, byte);
}

/// Taking out a record that stands where the search for its key ends frees
/// exactly the record. Let the key and the value be without framing bytes, and
/// let the search for the key end at a window behind which the page holds the
/// record of the key and the value. Then the removal frees the record's bytes
/// and nothing else, the pages hold one separator and one terminator fewer, a
/// book whose separators and terminators were as many as its live records is
/// such a book afterwards, and so is a book in which every written stretch
/// ends with a terminator, where the record has no occupied byte other than a
/// terminator before it.
pub proof fn lemma_remove_record(book: BookView, key: Seq<u8>, value: Seq<u8>)
    requires
        book.wf(),
        sentinel_free(key),
        sentinel_free(value),
        book.find(key) is Some,
        ({
            let (p, at) = book.find(key).unwrap();
            &&& at + BookView::need(key, value) <= book.page_size
            &&& book.pages[p].subrange(at, at + BookView::need(key, value)) == frame(key, value)
        }),
    ensures
        ({
            let (p, at) = book.find(key).unwrap();
            let after = book.remove(key);
            &&& 0 <= p < book.pages.len()
            &&& after.pages == book.pages.update(
                p,
                erase(book.pages[p], at, at + BookView::need(key, value)),
            )
            &&& count_in(after.pages, SEPARATOR) + 1 == count_in(book.pages, SEPARATOR)
            &&& count_in(after.pages, TERMINATOR) + 1 == count_in(book.pages, TERMINATOR)
            &&& book.balanced() ==> after.balanced() && after.live + 1 == book.live
            &&& book.sealed() && (at == 0 || book.pages[p][at - 1] == FREE || book.pages[p][at - 1]
                == TERMINATOR) ==> after.sealed()
        }),
{
    let (p, at) = book.find(key).unwrap();
    let need = BookView::need(key, value);
    let record = frame(key, value);
    let page = book.pages[p];
    let after = book.remove(key);
    let klen = key.len() as int;
    let vlen = value.len() as int;
    lemma_holder_from(book.pages, key, 0);
    lemma_first_window_from(page, key, 0);
    lemma_frame_occupied(key, value);
    assert forall|j: int| 0 <= j < need implies page[at + j] == record[j] by {
        assert(page.subrange(at, at + need)[j] == record[j]);
    }
    let start = at + klen + 1;
    let stop = start + vlen;
    assert forall|j: int| start <= j < stop implies page[j] != TERMINATOR by {
        assert(page[at + (klen + 1 + (j - start))] == record[klen + 1 + (j - start)]);
    }
    assert(page[at + (need - 1)] == record[need - 1]);
    lemma_terminator_from_is(page, start, stop);
    let erased = erase(page, at, at + need);
    assert(after.pages == book.pages.update(p, erased));
    lemma_count_of_frame(key, value);
    lemma_count_of_erase(page, at, record, SEPARATOR);
    lemma_count_of_erase(page, at, record, TERMINATOR);
    lemma_count_in_update(book.pages, p, erased, SEPARATOR);
    lemma_count_in_update(book.pages, p, erased, TERMINATOR);
    if book.sealed() && (at == 0 || page[at - 1] == FREE || page[at - 1] == TERMINATOR) {
        assert forall|q: int, i: int|
            0 <= q < after.pages.len() && 0 < i < after.pages[q].len()
                && #[trigger] after.pages[q][i] == FREE implies after.pages[q][i - 1] == FREE
            || after.pages[q][i - 1] == TERMINATOR by {
            if q == p {
                if at <= i < at + need {
                } else if i == at + need {
                } else {
                    assert(book.pages[q][i] == FREE);
                }
            } else {
                assert(book.pages[q][i] == FREE);
            }
        }
    }
}

} // verus!
