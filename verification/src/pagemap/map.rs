//! The typed store: texts as keys and values, kept as records of a page book.

use vstd::prelude::*;
use vstd::utf8::{decode_utf8, encode_utf8, encode_utf8_decode_utf8, valid_utf8};
use crate::pagemap::codec::{
    armor, ESCAPE, escape, KEY_CLOSE, KEY_OPEN, lemma_armor_injective, lemma_armor_plain,
    lemma_unarmor_armor, lz4_compress, lz4_decompress, lz4_unblock, MAX_PLAIN, text_of,
    unescape,
};
use crate::pagemap::framing::lemma_remove_record;
use crate::pagemap::page::{
    erase, first_free, first_window, frame, FREE, lemma_first_free_from,
    lemma_first_window_from, lemma_first_window_from_is, lemma_terminator_from_is, overwrite,
    sentinel_free, SEPARATOR, TERMINATOR, window_is,
};
use crate::pagemap::pagebook::{
    blank, BookView, holder_from, lemma_holder_from, lemma_holder_from_is, lemma_roomy_from,
    PageBook, roomy_from,
};

verus! {

/// What a typed store holds: each key's text with its value's text.
pub type Shelf = Map<Seq<char>, Seq<char>>;

/// How a key's text stands in a page: its UTF-8 bytes, escaped, between the
/// two key marks.
pub open spec fn key_code(key: Seq<char>) -> Seq<u8> {
    seq![KEY_OPEN] + armor(encode_utf8(key)) + seq![KEY_CLOSE]
}

/// Where a record of the store stands, and what it holds.
pub struct Slot {
    /// The index of the page.
    pub page: int,
    /// The offset of the record's first byte in the page.
    pub at: int,
    /// The key's text.
    pub key: Seq<char>,
    /// The compressed block of the value.
    pub block: Seq<u8>,
}

impl Slot {
    /// The record's bytes.
    pub open spec fn record(self) -> Seq<u8> {
        frame(key_code(self.key), armor(self.block))
    }

    /// The index behind the record's last byte.
    pub open spec fn end(self) -> int {
        self.at + self.record().len()
    }

    /// The value's text.
    pub open spec fn text(self) -> Seq<char> {
        decode_utf8(lz4_unblock(self.block).unwrap())
    }

    /// The record stands in `book` where the slot says, and its block is one
    /// from which the decoder reads valid UTF-8.
    pub open spec fn placed(self, book: BookView) -> bool {
        &&& 0 <= self.page < book.pages.len()
        &&& 0 <= self.at
        &&& self.end() <= book.page_size
        &&& book.pages[self.page].subrange(self.at, self.end()) == self.record()
        &&& lz4_unblock(self.block) is Some
        &&& valid_utf8(lz4_unblock(self.block).unwrap())
    }

    /// The record takes the byte `i` of the page `page`.
    pub open spec fn covers(self, page: int, i: int) -> bool {
        self.page == page && self.at <= i < self.end()
    }

    /// The same record one page further on.
    pub open spec fn shifted(self) -> Slot {
        Slot { page: self.page + 1, ..self }
    }
}

/// `slots` describe `book` completely: every slot's record stands where the
/// slot says, every occupied byte belongs to a slot, no two slots share a key,
/// and no two share a byte.
pub open spec fn laid_out(book: BookView, slots: Set<Slot>) -> bool {
    &&& book.wf()
    &&& forall|s: Slot| #[trigger] slots.contains(s) ==> s.placed(book)
    &&& forall|p: int, i: int|
        0 <= p < book.pages.len() && 0 <= i < book.page_size && #[trigger] book.pages[p][i] != FREE
            ==> exists|s: Slot| #[trigger] slots.contains(s) && s.covers(p, i)
    &&& forall|s: Slot, t: Slot|
        #[trigger] slots.contains(s) && #[trigger] slots.contains(t) && s.key == t.key ==> s == t
    &&& forall|s: Slot, t: Slot|
        #[trigger] slots.contains(s) && #[trigger] slots.contains(t) && s.page == t.page && s != t
            ==> s.end() <= t.at || t.end() <= s.at
}

/// Some slot of `slots` has the key `key`.
pub open spec fn holds(slots: Set<Slot>, key: Seq<char>) -> bool {
    exists|s: Slot| #[trigger] slots.contains(s) && s.key == key
}

/// A slot of `slots` with the key `key`.
pub open spec fn slot_of(slots: Set<Slot>, key: Seq<char>) -> Slot {
    choose|s: Slot| #[trigger] slots.contains(s) && s.key == key
}

/// The texts that `slots` stand for.
pub open spec fn shelf(slots: Set<Slot>) -> Shelf {
    Map::new(|key: Seq<char>| holds(slots, key), |key: Seq<char>| slot_of(slots, key).text())
}

/// The shape of an encoded key: the opening mark, bytes that are no mark and
/// no framing byte, the closing mark.
pub proof fn lemma_key_code_shape(key: Seq<char>)
    ensures
        key_code(key).len() == armor(encode_utf8(key)).len() + 2,
        key_code(key)[0] == KEY_OPEN,
        key_code(key)[key_code(key).len() - 1] == KEY_CLOSE,
        forall|j: int| 0 < j < key_code(key).len() - 1 ==> key_code(key)[j] >= ESCAPE,
        sentinel_free(key_code(key)),
{
    lemma_armor_plain(encode_utf8(key));
    let inner = armor(encode_utf8(key));
    assert forall|j: int| 0 < j < key_code(key).len() - 1 implies key_code(key)[j] >= ESCAPE by {
        assert(key_code(key)[j] == inner[j - 1]);
    }
    assert forall|j: int| 0 <= j < key_code(key).len() implies key_code(key)[j] > TERMINATOR by {
        if 0 < j < key_code(key).len() - 1 {
            assert(key_code(key)[j] == inner[j - 1]);
        }
    }
}

/// Two keys with one encoded form are one key.
pub proof fn lemma_key_code_injective(a: Seq<char>, b: Seq<char>)
    requires
        key_code(a) == key_code(b),
    ensures
        a == b,
{
    let x = armor(encode_utf8(a));
    let y = armor(encode_utf8(b));
    assert(key_code(a).subrange(1, key_code(a).len() - 1) =~= x);
    assert(key_code(b).subrange(1, key_code(b).len() - 1) =~= y);
    lemma_armor_injective(encode_utf8(a), encode_utf8(b));
    encode_utf8_decode_utf8(a);
    encode_utf8_decode_utf8(b);
}

/// The shape of a record: the encoded key, the separator, bytes that are no
/// mark and no framing byte, the terminator.
pub proof fn lemma_record_shape(slot: Slot)
    ensures
        slot.record().len() == key_code(slot.key).len() + armor(slot.block).len() + 2,
        forall|j: int|
            0 <= j < key_code(slot.key).len() ==> slot.record()[j] == key_code(slot.key)[j],
        slot.record()[key_code(slot.key).len() as int] == SEPARATOR,
        forall|j: int|
            0 <= j < armor(slot.block).len() ==> #[trigger] slot.record()[key_code(slot.key).len()
                + 1 + j] == armor(slot.block)[j] && armor(slot.block)[j] >= ESCAPE,
        slot.record()[slot.record().len() - 1] == TERMINATOR,
        forall|j: int| 0 <= j < slot.record().len() ==> slot.record()[j] != FREE,
        forall|j: int| 0 < j < slot.record().len() ==> slot.record()[j] != KEY_OPEN,
        sentinel_free(armor(slot.block)),
{
    lemma_key_code_shape(slot.key);
    lemma_armor_plain(slot.block);
    let code = key_code(slot.key);
    let body = armor(slot.block);
    let record = slot.record();
    let n = code.len() as int;
    assert forall|j: int| 0 <= j < record.len() implies record[j] != FREE && (j > 0 ==> record[j]
        != KEY_OPEN) by {
        if j < n {
            assert(record[j] == code[j]);
            if 0 < j < n - 1 {
                assert(code[j] >= ESCAPE);
            }
        } else if j == n {
        } else if j < n + 1 + body.len() {
            assert(record[j] == body[j - n - 1]);
        } else {
        }
    }
}

/// In a book that the slots describe, a window that holds an encoded key is
/// the start of the record of the slot with that key.
pub proof fn lemma_window_is_slot(book: BookView, slots: Set<Slot>, p: int, w: int, key: Seq<char>)
    requires
        laid_out(book, slots),
        0 <= p < book.pages.len(),
        window_is(book.pages[p], w, key_code(key)),
    ensures
        holds(slots, key),
        slot_of(slots, key).page == p,
        slot_of(slots, key).at == w,
{
    let page = book.pages[p];
    let code = key_code(key);
    let m = code.len() as int;
    lemma_key_code_shape(key);
    assert(page.subrange(w, w + m)[0] == code[0]);
    assert(page[w] == KEY_OPEN);
    let s = choose|s: Slot| #[trigger] slots.contains(s) && s.covers(p, w);
    assert(s.placed(book));
    lemma_record_shape(s);
    lemma_key_code_shape(s.key);
    let record = s.record();
    let n = key_code(s.key).len() as int;
    assert forall|j: int| 0 <= j < record.len() implies page[s.at + j] == record[j] by {
        assert(page.subrange(s.at, s.end())[j] == record[j]);
    }
    assert forall|j: int| 0 <= j < m implies page[w + j] == code[j] by {
        assert(page.subrange(w, w + m)[j] == code[j]);
    }
    assert(page[s.at + (w - s.at)] == record[w - s.at]);
    assert(w == s.at);
    if m < n {
        assert(page[w + (m - 1)] == code[m - 1]);
        assert(page[s.at + (m - 1)] == record[m - 1]);
        assert(record[m - 1] == key_code(s.key)[m - 1]);
        assert(false);
    }
    if m > n {
        assert(page[w + (n - 1)] == code[n - 1]);
        assert(page[s.at + (n - 1)] == record[n - 1]);
        assert(record[n - 1] == key_code(s.key)[n - 1]);
        assert(false);
    }
    assert(code =~= key_code(s.key)) by {
        assert forall|j: int| 0 <= j < m implies code[j] == key_code(s.key)[j] by {
            assert(page[w + j] == code[j]);
            assert(page[s.at + j] == record[j]);
        }
    }
    lemma_key_code_injective(key, s.key);
    assert(slots.contains(s) && s.key == key);
    let t = slot_of(slots, key);
    assert(slots.contains(t) && t.key == key);
    assert(t == s);
}

/// How a book that the slots describe is searched for a key: where a slot
/// has the key, the search ends at that slot's record, the value read is the
/// slot's escaped block, and the record's range is the slot's; where no slot
/// has the key, the search finds nothing.
pub proof fn lemma_lookup(book: BookView, slots: Set<Slot>, key: Seq<char>)
    requires
        laid_out(book, slots),
    ensures
        holds(slots, key) ==> {
            let s = slot_of(slots, key);
            &&& slots.contains(s)
            &&& s.key == key
            &&& book.find(key_code(key)) == Some((s.page, s.at))
            &&& book.get(key_code(key)) == Some(armor(s.block))
            &&& book.get_key_range(s.page, key_code(key)) == Some((s.at, s.end()))
        },
        !holds(slots, key) ==> book.find(key_code(key)) is None && book.get(key_code(key)) is None,
{
    let code = key_code(key);
    let m = code.len() as int;
    lemma_key_code_shape(key);
    lemma_holder_from(book.pages, code, 0);
    if holds(slots, key) {
        let s = slot_of(slots, key);
        assert(s.placed(book));
        lemma_record_shape(s);
        let page = book.pages[s.page];
        let record = s.record();
        let body = armor(s.block);
        assert forall|j: int| 0 <= j < record.len() implies page[s.at + j] == record[j] by {
            assert(page.subrange(s.at, s.end())[j] == record[j]);
        }
        assert(page.subrange(s.at, s.at + m) =~= code);
        assert(window_is(page, s.at, code));
        assert forall|w: int| 0 <= w < s.at implies !window_is(page, w, code) by {
            if window_is(page, w, code) {
                lemma_window_is_slot(book, slots, s.page, w, key);
            }
        }
        lemma_first_window_from_is(page, code, 0, s.at);
        assert forall|q: int| 0 <= q < s.page implies first_window(#[trigger] book.pages[q], code)
            is None by {
            lemma_first_window_from(book.pages[q], code, 0);
            if let Some(w) = first_window(book.pages[q], code) {
                lemma_window_is_slot(book, slots, q, w, key);
            }
        }
        lemma_holder_from_is(book.pages, code, 0, s.page);
        let start = s.at + m + 1;
        let stop = start + body.len();
        assert forall|j: int| start <= j < stop implies page[j] != TERMINATOR by {
            assert(page[s.at + (m + 1 + (j - start))] == record[m + 1 + (j - start)]);
        }
        assert(page[s.at + (record.len() - 1)] == record[record.len() - 1]);
        lemma_terminator_from_is(page, start, stop);
        assert(page.subrange(start, stop) =~= body) by {
            assert forall|j: int| 0 <= j < body.len() implies page.subrange(start, stop)[j]
                == body[j] by {
                assert(page[s.at + (m + 1 + j)] == record[m + 1 + j]);
            }
        }
    } else {
        match holder_from(book.pages, code, 0) {
            Some(q) => {
                lemma_first_window_from(book.pages[q], code, 0);
                let w = first_window(book.pages[q], code).unwrap();
                lemma_window_is_slot(book, slots, q, w, key);
            },
            None => {},
        }
    }
}

/// The slots after a record for `key` with the block `block` was put into
/// `book`: the slots before, one page further on where the book has grown at
/// its front, and the slot of the new record.
pub open spec fn with_record(
    book: BookView,
    slots: Set<Slot>,
    key: Seq<char>,
    block: Seq<u8>,
) -> Set<Slot> {
    let need = BookView::need(key_code(key), armor(block));
    match roomy_from(book.pages, need, book.skip as int) {
        Some(p) => slots.insert(
            Slot { page: p, at: first_free(book.pages[p], need).unwrap(), key, block },
        ),
        None => Set::new(|s: Slot| s.page >= 1 && slots.contains(Slot { page: s.page - 1, ..s }))
            .insert(Slot { page: 0, at: 0, key, block }),
    }
}

/// A book that the slots describe is, after a record with a new key was put
/// in, described by the slots with the new record; and the texts are those of
/// before with the new key and its value's text.
pub proof fn lemma_insert_laid_out(
    book: BookView,
    slots: Set<Slot>,
    key: Seq<char>,
    block: Seq<u8>,
)
    requires
        laid_out(book, slots),
        !holds(slots, key),
        BookView::need(key_code(key), armor(block)) <= book.page_size,
        lz4_unblock(block) is Some,
        valid_utf8(lz4_unblock(block).unwrap()),
    ensures
        laid_out(book.insert(key_code(key), armor(block)), with_record(book, slots, key, block)),
        shelf(with_record(book, slots, key, block)) == shelf(slots).insert(
            key,
            decode_utf8(lz4_unblock(block).unwrap()),
        ),
{
    let code = key_code(key);
    let body = armor(block);
    let need = BookView::need(code, body);
    let after = book.insert(code, body);
    let next = with_record(book, slots, key, block);
    lemma_roomy_from(book.pages, need, book.skip as int);
    match roomy_from(book.pages, need, book.skip as int) {
        Some(p) => {
            let page = book.pages[p];
            lemma_first_free_from(page, need, 0);
            let at = first_free(page, need).unwrap();
            let fresh = Slot { page: p, at, key, block };
            lemma_record_shape(fresh);
            let written = after.pages[p];
            assert(written == overwrite(page, at, fresh.record()));
            // No slot of before shares a byte with the window written.
            assert forall|s: Slot| #[trigger] slots.contains(s) && s.page == p implies s.end() <= at
                || at + need <= s.at by {
                assert(s.placed(book));
                lemma_record_shape(s);
                if !(s.end() <= at || at + need <= s.at) {
                    let i = if s.at >= at {
                        s.at
                    } else {
                        at
                    };
                    assert(page[i] == FREE);
                    assert(page.subrange(s.at, s.end())[i - s.at] == s.record()[i - s.at]);
                }
            }
            assert forall|s: Slot| #[trigger] next.contains(s) implies s.placed(after) by {
                if s == fresh {
                    assert(written.subrange(at, at + need) =~= fresh.record());
                } else {
                    assert(slots.contains(s));
                    assert(s.placed(book));
                    if s.page == p {
                        assert(written.subrange(s.at, s.end()) =~= page.subrange(s.at, s.end()));
                    }
                }
            }
            assert forall|q: int, i: int|
                0 <= q < after.pages.len() && 0 <= i < after.page_size
                    && #[trigger] after.pages[q][i] != FREE implies exists|s: Slot| #[trigger]
                next.contains(s) && s.covers(q, i) by {
                if q == p && at <= i < at + need {
                    assert(next.contains(fresh) && fresh.covers(q, i));
                } else {
                    assert(book.pages[q][i] != FREE);
                    let s = choose|s: Slot| #[trigger] slots.contains(s) && s.covers(q, i);
                    assert(next.contains(s) && s.covers(q, i));
                }
            }
            assert forall|s: Slot, t: Slot|
                #[trigger] next.contains(s) && #[trigger] next.contains(t) && s.key
                    == t.key implies s == t by {
                if s != fresh && t != fresh {
                    assert(slots.contains(s) && slots.contains(t));
                } else if s != fresh {
                    assert(slots.contains(s) && s.key == key);
                } else if t != fresh {
                    assert(slots.contains(t) && t.key == key);
                }
            }
            assert forall|s: Slot, t: Slot|
                #[trigger] next.contains(s) && #[trigger] next.contains(t) && s.page == t.page && s
                    != t implies s.end() <= t.at || t.end() <= s.at by {
                if s != fresh && t != fresh {
                    assert(slots.contains(s) && slots.contains(t));
                } else if s != fresh {
                    assert(slots.contains(s));
                } else {
                    assert(slots.contains(t));
                }
            }
            assert forall|t: Slot| #[trigger] slots.contains(t) implies exists|s: Slot| #[trigger]
                next.contains(s) && t.key == s.key && t.block == s.block by {
                assert(next.contains(t));
            }
            assert forall|s: Slot| #[trigger] next.contains(s) && s != fresh implies exists|
                t: Slot,
            | #[trigger] slots.contains(t) && t.key == s.key && t.block == s.block by {
                assert(slots.contains(s));
            }
            lemma_shelf_insert(slots, next, fresh);
        },
        None => {
            let fresh = Slot { page: 0, at: 0, key, block };
            lemma_record_shape(fresh);
            let empty = blank(book.page_size);
            let written = overwrite(empty, 0, fresh.record());
            assert(after.pages[0] == written);
            assert forall|q: int| 1 <= q < after.pages.len() implies #[trigger] after.pages[q]
                == book.pages[q - 1] by {}
            assert forall|s: Slot| #[trigger] next.contains(s) implies s.placed(after) by {
                if s == fresh {
                    assert(written.subrange(0, need) =~= fresh.record());
                } else {
                    let origin = Slot { page: s.page - 1, ..s };
                    assert(slots.contains(origin));
                    assert(origin.placed(book));
                    assert(after.pages[s.page] == book.pages[origin.page]);
                }
            }
            assert forall|q: int, i: int|
                0 <= q < after.pages.len() && 0 <= i < after.page_size
                    && #[trigger] after.pages[q][i] != FREE implies exists|s: Slot| #[trigger]
                next.contains(s) && s.covers(q, i) by {
                if q == 0 {
                    assert(next.contains(fresh) && fresh.covers(q, i));
                } else {
                    assert(after.pages[q] == book.pages[q - 1]);
                    assert(book.pages[q - 1][i] != FREE);
                    let origin = choose|s: Slot| #[trigger] slots.contains(s) && s.covers(q - 1, i);
                    let s = origin.shifted();
                    assert(Slot { page: s.page - 1, ..s } == origin);
                    assert(next.contains(s) && s.covers(q, i));
                }
            }
            assert forall|s: Slot, t: Slot|
                #[trigger] next.contains(s) && #[trigger] next.contains(t) && s.key
                    == t.key implies s == t by {
                let so = Slot { page: s.page - 1, ..s };
                let to = Slot { page: t.page - 1, ..t };
                if s != fresh && t != fresh {
                    assert(slots.contains(so) && slots.contains(to));
                    assert(so == to);
                } else if s != fresh {
                    assert(slots.contains(so) && so.key == key);
                } else if t != fresh {
                    assert(slots.contains(to) && to.key == key);
                }
            }
            assert forall|s: Slot, t: Slot|
                #[trigger] next.contains(s) && #[trigger] next.contains(t) && s.page == t.page && s
                    != t implies s.end() <= t.at || t.end() <= s.at by {
                let so = Slot { page: s.page - 1, ..s };
                let to = Slot { page: t.page - 1, ..t };
                if s != fresh && t != fresh {
                    assert(slots.contains(so) && slots.contains(to));
                    assert(so != to);
                }
            }
            assert forall|q: int| 0 <= q < after.pages.len() implies (#[trigger] after.pages[q]).len()
                == after.page_size by {
                if q > 0 {
                    assert(after.pages[q] == book.pages[q - 1]);
                }
            }
            assert forall|t: Slot| #[trigger] slots.contains(t) implies exists|s: Slot| #[trigger]
                next.contains(s) && t.key == s.key && t.block == s.block by {
                let s = t.shifted();
                assert(Slot { page: s.page - 1, ..s } == t);
                assert(t.placed(book));
                assert(next.contains(s));
            }
            assert forall|s: Slot| #[trigger] next.contains(s) && s != fresh implies exists|
                t: Slot,
            | #[trigger] slots.contains(t) && t.key == s.key && t.block == s.block by {
                assert(slots.contains(Slot { page: s.page - 1, ..s }));
            }
            lemma_shelf_insert(slots, next, fresh);
        },
    }
}

/// Where the slots `next` are the slots `slots`, each perhaps on another
/// page, and one more slot with a new key, the texts of `next` are the texts
/// of `slots` with the new key and its text.
pub proof fn lemma_shelf_insert(slots: Set<Slot>, next: Set<Slot>, fresh: Slot)
    requires
        !holds(slots, fresh.key),
        next.contains(fresh),
        forall|s: Slot, t: Slot|
            #[trigger] slots.contains(s) && #[trigger] slots.contains(t) && s.key == t.key ==> s
                == t,
        forall|s: Slot| #[trigger]
            next.contains(s) && s != fresh ==> exists|t: Slot| #[trigger]
                slots.contains(t) && t.key == s.key && t.block == s.block,
        forall|t: Slot| #[trigger]
            slots.contains(t) ==> exists|s: Slot| #[trigger]
                next.contains(s) && t.key == s.key && t.block == s.block,
    ensures
        shelf(next) == shelf(slots).insert(fresh.key, fresh.text()),
{
    let wanted = shelf(slots).insert(fresh.key, fresh.text());
    assert forall|key: Seq<char>| #[trigger] shelf(next).contains_key(key) <==> wanted.contains_key(
        key,
    ) by {
        if holds(next, key) {
            let s = slot_of(next, key);
            if s != fresh {
                let t = choose|t: Slot| #[trigger] slots.contains(t) && t.key == s.key && t.block
                    == s.block;
                assert(slots.contains(t) && t.key == key);
            }
        }
        if holds(slots, key) {
            let t = slot_of(slots, key);
            let s = choose|s: Slot| #[trigger] next.contains(s) && t.key == s.key && t.block
                == s.block;
            assert(next.contains(s) && s.key == key);
        }
        if key == fresh.key {
            assert(next.contains(fresh) && fresh.key == key);
        }
    }
    assert forall|key: Seq<char>| shelf(next).contains_key(key) implies shelf(next)[key]
        == wanted[key] by {
        let s = slot_of(next, key);
        if s == fresh {
        } else {
            let t = choose|t: Slot| #[trigger] slots.contains(t) && t.key == s.key && t.block
                == s.block;
            assert(slots.contains(t) && t.key == key);
            let u = slot_of(slots, key);
            assert(u == t);
            if key == fresh.key {
                assert(holds(slots, fresh.key));
            }
        }
    }
    assert(shelf(next) =~= wanted);
}

/// A book that the slots describe is, after the record of a key was taken
/// out, described by the other slots; and the texts are those of before
/// without the key.
pub proof fn lemma_remove_laid_out(book: BookView, slots: Set<Slot>, key: Seq<char>)
    requires
        laid_out(book, slots),
        holds(slots, key),
    ensures
        laid_out(book.remove(key_code(key)), slots.remove(slot_of(slots, key))),
        shelf(slots.remove(slot_of(slots, key))) == shelf(slots).remove(key),
        book.remove(key_code(key)).live == if book.live > 0 {
            book.live - 1
        } else {
            0
        },
{
    let gone = slot_of(slots, key);
    let rest = slots.remove(gone);
    let after = book.remove(key_code(key));
    lemma_lookup(book, slots, key);
    let page = book.pages[gone.page];
    let erased = erase(page, gone.at, gone.end());
    assert(after.pages == book.pages.update(gone.page, erased));
    assert forall|s: Slot| #[trigger] rest.contains(s) implies s.placed(after) by {
        assert(slots.contains(s));
        assert(s.placed(book));
        if s.page == gone.page {
            assert(s.end() <= gone.at || gone.end() <= s.at);
            assert(erased.subrange(s.at, s.end()) =~= page.subrange(s.at, s.end()));
        }
    }
    assert forall|q: int, i: int|
        0 <= q < after.pages.len() && 0 <= i < after.page_size && #[trigger] after.pages[q][i]
            != FREE implies exists|s: Slot| #[trigger] rest.contains(s) && s.covers(q, i) by {
        assert(book.pages[q][i] != FREE);
        let s = choose|s: Slot| #[trigger] slots.contains(s) && s.covers(q, i);
        assert(rest.contains(s) && s.covers(q, i));
    }
    assert forall|s: Slot, t: Slot|
        #[trigger] rest.contains(s) && #[trigger] rest.contains(t) && s.key == t.key implies s
        == t by {
        assert(slots.contains(s) && slots.contains(t));
    }
    assert forall|s: Slot, t: Slot|
        #[trigger] rest.contains(s) && #[trigger] rest.contains(t) && s.page == t.page && s
            != t implies s.end() <= t.at || t.end() <= s.at by {
        assert(slots.contains(s) && slots.contains(t));
    }
    let wanted = shelf(slots).remove(key);
    assert forall|k: Seq<char>| #[trigger] shelf(rest).contains_key(k) <==> wanted.contains_key(
        k,
    ) by {
        if holds(rest, k) {
            let s = slot_of(rest, k);
            assert(slots.contains(s) && s.key == k);
            if k == key {
                assert(s == gone);
            }
        }
        if holds(slots, k) && k != key {
            let s = slot_of(slots, k);
            assert(rest.contains(s) && s.key == k);
        }
    }
    assert forall|k: Seq<char>| shelf(rest).contains_key(k) implies shelf(rest)[k] == wanted[k] by {
        let s = slot_of(rest, k);
        assert(slots.contains(s) && s.key == k);
        let t = slot_of(slots, k);
        assert(s == t);
    }
    assert(shelf(rest) =~= wanted);
}

/// A book that the slots describe keeps, when the record of a key is taken
/// out, its separators and terminators as many as its live records, and every
/// written stretch ending with a terminator.
pub proof fn lemma_remove_keeps_counts(book: BookView, slots: Set<Slot>, key: Seq<char>)
    requires
        laid_out(book, slots),
        holds(slots, key),
    ensures
        book.balanced() ==> book.remove(key_code(key)).balanced(),
        book.sealed() ==> book.remove(key_code(key)).sealed(),
{
    let s = slot_of(slots, key);
    lemma_lookup(book, slots, key);
    lemma_key_code_shape(key);
    lemma_record_shape(s);
    assert(s.placed(book));
    let page = book.pages[s.page];
    if s.at > 0 && page[s.at - 1] != FREE {
        let t = choose|t: Slot| #[trigger] slots.contains(t) && t.covers(s.page, s.at - 1);
        assert(t.placed(book));
        lemma_record_shape(t);
        assert(t != s);
        assert(t.end() == s.at);
        assert(page.subrange(t.at, t.end())[t.record().len() - 1] == t.record()[t.record().len()
            - 1]);
    }
    lemma_remove_record(book, key_code(key), armor(s.block));
}

/// The size of a record for `key` with the block `block` is at most
/// `page_size`.
pub open spec fn fits(key: Seq<char>, block: Seq<u8>, page_size: nat) -> bool {
    BookView::need(key_code(key), armor(block)) <= page_size
}

/// A size that suffices for the record of `key` and `value`, whatever block
/// the compressor returns for the value.
pub open spec fn ample(key: Seq<char>, value: Seq<char>) -> int {
    (2 * encode_utf8(key).len() + 2 * (encode_utf8(value).len() * 110 / 100 + 24) + 4) as int
}

/// The options of a typed store.
pub struct PageMapOptions {
    /// The number of pages at the start.
    pub pages: usize,
    /// The size of each page.
    pub page_size: usize,
}

/// A store of texts under texts, kept as records of a page book.
pub struct PageMap {
    pagebook: PageBook,
    options: PageMapOptions,
    slots: Ghost<Set<Slot>>,
}

impl View for PageMap {
    type V = Shelf;

    closed spec fn view(&self) -> Shelf {
        shelf(self.slots@)
    }
}

impl PageMap {
    /// The page book is one that only this store's records were put into, with
    /// pages of the size that the options name.
    pub closed spec fn wf(&self) -> bool {
        &&& self.pagebook.wf()
        &&& laid_out(self.pagebook@, self.slots@)
        &&& self.pagebook@.page_size == self.options.page_size
        &&& self.pagebook@.balanced()
        &&& self.pagebook@.sealed()
    }

    /// The options that the store was made with.
    pub closed spec fn made_with(&self) -> PageMapOptions {
        self.options
    }

    /// What the page book holds.
    pub closed spec fn book(&self) -> BookView {
        self.pagebook@
    }

    /// An empty store on a page book made by the options.
    pub fn new(options: PageMapOptions) -> (map: Self)
        ensures
            map.wf(),
            map@ == Shelf::empty(),
            map.book().pages == Seq::new(
                options.pages as nat,
                |p: int| blank(options.page_size as nat),
            ),
            map.book().page_size == options.page_size,
            map.book().live == 0,
            map.made_with() == options,
    {
        let pagebook = PageBook::new(options.pages, options.page_size);
        let map = PageMap { pagebook, options, slots: Ghost(Set::empty()) };
        assert(map@ =~= Shelf::empty());
        map
    }

    /// The page book.
    pub fn pagebook(&self) -> (book: &PageBook)
        ensures
            book@ == self.book(),
            self.wf() ==> book.wf() && book@.balanced() && book@.sealed(),
    {
        &self.pagebook
    }

    /// The options that the store was made with.
    pub fn options(&self) -> (options: &PageMapOptions)
        ensures
            *options == self.made_with(),
            self.wf() ==> options.page_size == self.book().page_size,
    {
        &self.options
    }

    /// The bytes that stand for `key` in a page.
    fn key_bytes(key: &str) -> (code: Vec<u8>)
        ensures
            code@ == key_code(key@),
    {
        let mut code: Vec<u8> = Vec::new();
        code.push(KEY_OPEN);
        let mut inner = escape(key.as_bytes());
        code.append(&mut inner);
        code.push(KEY_CLOSE);
        assert(code@ =~= key_code(key@));
        code
    }

    /// The value stored under `key`, if there is one.
    pub fn get(&self, key: &String) -> (value: Option<String>)
        requires
            self.wf(),
        ensures
            match value {
                Some(text) => self@.contains_key(key@) && text@ == self@[key@],
                None => !self@.contains_key(key@),
            },
    {
        let code = Self::key_bytes(key.as_str());
        proof {
            lemma_lookup(self.pagebook@, self.slots@, key@);
        }
        let stored = match self.pagebook.get(code.as_slice()) {
            Some(stored) => stored,
            None => {
                return None;
            },
        };
        let ghost slot = slot_of(self.slots@, key@);
        proof {
            assert(slot.placed(self.pagebook@));
            lemma_unarmor_armor(slot.block);
        }
        let block = match unescape(stored.as_slice()) {
            Some(block) => block,
            None => {
                return None;
            },
        };
        let plain = match lz4_decompress(block.as_slice()) {
            Ok(plain) => plain,
            Err(_) => {
                return None;
            },
        };
        text_of(plain)
    }

    /// Takes the record under `key` out of the store. Returns `None`, and
    /// changes nothing, where there is none.
    pub fn remove(&mut self, key: &String) -> (done: Option<()>)
        requires
            old(self).wf(),
        ensures
            final(self).wf(),
            final(self)@ == old(self)@.remove(key@),
            done is Some <==> old(self)@.contains_key(key@),
            final(self).made_with() == old(self).made_with(),
            final(self).book().page_size == old(self).book().page_size,
            final(self).book().live <= old(self).book().live,
    {
        let code = Self::key_bytes(key.as_str());
        proof {
            lemma_lookup(self.pagebook@, self.slots@, key@);
            if holds(self.slots@, key@) {
                lemma_remove_laid_out(self.pagebook@, self.slots@, key@);
                lemma_remove_keeps_counts(self.pagebook@, self.slots@, key@);
            } else {
                assert(self@.remove(key@) =~= self@);
            }
        }
        let done = self.pagebook.remove(code.as_slice());
        proof {
            if holds(old(self).slots@, key@) {
                self.slots@ = old(self).slots@.remove(slot_of(old(self).slots@, key@));
            }
        }
        done
    }

    /// Stores the value whose compressed block is `block` under `key`, in place
    /// of what was stored there. Returns whether it did: it does not, and
    /// changes nothing, where the record is longer than a page or the count
    /// of records is at its limit.
    pub fn insert_block(&mut self, key: &String, block: &[u8]) -> (stored: bool)
        requires
            old(self).wf(),
            lz4_unblock(block@) is Some,
            valid_utf8(lz4_unblock(block@).unwrap()),
        ensures
            final(self).wf(),
            stored == (fits(key@, block@, old(self).book().page_size) && old(self).book().live
                < usize::MAX),
            stored ==> final(self)@ == old(self)@.insert(
                key@,
                decode_utf8(lz4_unblock(block@).unwrap()),
            ),
            !stored ==> final(self)@ == old(self)@ && final(self).book() == old(self).book(),
            final(self).made_with() == old(self).made_with(),
            final(self).book().page_size == old(self).book().page_size,
    {
        let code = Self::key_bytes(key.as_str());
        let body = escape(block);
        let size = self.pagebook.page_size();
        if code.len() > size || body.len() > size - code.len() || size - code.len() - body.len()
            < 2 {
            return false;
        }
        if self.pagebook.len() == usize::MAX {
            return false;
        }
        self.remove(key);
        let ghost before = self.pagebook@;
        let ghost slots = self.slots@;
        proof {
            lemma_key_code_shape(key@);
            lemma_armor_plain(block@);
            assert(sentinel_free(body@));
            assert(!shelf(slots).contains_key(key@));
            lemma_insert_laid_out(before, slots, key@, block@);
            assert(old(self)@.remove(key@).insert(key@, decode_utf8(lz4_unblock(block@).unwrap()))
                =~= old(self)@.insert(key@, decode_utf8(lz4_unblock(block@).unwrap())));
        }
        self.pagebook.insert(code.as_slice(), body.as_slice());
        proof {
            self.slots@ = with_record(before, slots, key@, block@);
        }
        true
    }

    /// Stores `value` under `key`, in place of what was stored there. Returns
    /// whether it did: it does not, and changes nothing, where the record is
    /// longer than a page, the value is longer than the compressor takes, or
    /// the count of records is at its limit.
    pub fn insert(&mut self, key: String, value: String) -> (stored: bool)
        requires
            old(self).wf(),
        ensures
            final(self).wf(),
            stored ==> final(self)@ == old(self)@.insert(key@, value@),
            !stored ==> final(self)@ == old(self)@ && final(self).book() == old(self).book(),
            final(self).made_with() == old(self).made_with(),
            ample(key@, value@) <= old(self).book().page_size && encode_utf8(value@).len()
                <= MAX_PLAIN && old(self).book().live < usize::MAX ==> stored,
    {
        let plain = value.as_str().as_bytes();
        if plain.len() > MAX_PLAIN {
            return false;
        }
        let block = lz4_compress(plain);
        proof {
            vstd::utf8::encode_utf8_valid_utf8(value@);
            encode_utf8_decode_utf8(value@);
            lemma_armor_plain(block@);
            lemma_armor_plain(encode_utf8(key@));
            lemma_key_code_shape(key@);
        }
        self.insert_block(&key, block.as_slice())
    }
}

} // verus!
