//! How the typed store writes keys and values into pages: compressed, then
//! escaped so that no framing byte is left, and keys between two marks of
//! their own.

use vstd::prelude::*;
use vstd::utf8::{encode_utf8, valid_utf8};
use lz4_flex::block::{compress_prepend_size, decompress_size_prepended, DecompressError};

verus! {

/// Opens an encoded key. It occurs nowhere else in what the store writes.
pub const KEY_OPEN: u8 = 3;

/// Closes an encoded key. It occurs nowhere else in what the store writes.
pub const KEY_CLOSE: u8 = 4;

/// Announces an escaped byte.
pub const ESCAPE: u8 = 5;

/// What is added to a byte when it is escaped.
pub const SHIFT: u8 = 6;

/// The longest text, in bytes, that the store compresses.
pub const MAX_PLAIN: usize = 16_777_216;

/// One byte escaped: the bytes up to the escape byte become the escape byte
/// and the byte plus the shift; any other byte stays.
pub open spec fn armor_byte(byte: u8) -> Seq<u8> {
    if byte <= ESCAPE {
        seq![ESCAPE, (byte + SHIFT) as u8]
    } else {
        seq![byte]
    }
}

/// `bytes` escaped, byte by byte.
pub open spec fn armor(bytes: Seq<u8>) -> Seq<u8>
    decreases bytes.len(),
{
    if bytes.len() == 0 {
        Seq::empty()
    } else {
        armor_byte(bytes[0]) + armor(bytes.drop_first())
    }
}

/// The bytes that `bytes` are the escaped form of, if there are any.
pub open spec fn unarmor(bytes: Seq<u8>) -> Option<Seq<u8>>
    decreases bytes.len(),
{
    if bytes.len() == 0 {
        Some(Seq::empty())
    } else if bytes[0] == ESCAPE {
        if bytes.len() >= 2 && SHIFT <= bytes[1] <= SHIFT + ESCAPE {
            match unarmor(bytes.skip(2)) {
                Some(rest) => Some(seq![(bytes[1] - SHIFT) as u8] + rest),
                None => None,
            }
        } else {
            None
        }
    } else if bytes[0] > ESCAPE {
        match unarmor(bytes.skip(1)) {
            Some(rest) => Some(seq![bytes[0]] + rest),
            None => None,
        }
    } else {
        None
    }
}

/// Escaping two sequences one after the other is escaping them as one.
pub proof fn lemma_armor_concat(a: Seq<u8>, b: Seq<u8>)
    ensures
        armor(a + b) == armor(a) + armor(b),
    decreases a.len(),
{
    if a.len() == 0 {
        assert(a + b =~= b);
        assert(armor(a) + armor(b) =~= armor(b));
    } else {
        assert((a + b).drop_first() =~= a.drop_first() + b);
        lemma_armor_concat(a.drop_first(), b);
        assert(armor_byte(a[0]) + (armor(a.drop_first()) + armor(b)) =~= (armor_byte(a[0]) + armor(
            a.drop_first(),
        )) + armor(b));
    }
}

/// Escaped bytes hold no byte below the escape byte, and are at most twice as
/// many as the bytes escaped.
pub proof fn lemma_armor_plain(bytes: Seq<u8>)
    ensures
        forall|i: int| 0 <= i < armor(bytes).len() ==> armor(bytes)[i] >= ESCAPE,
        bytes.len() <= armor(bytes).len() <= 2 * bytes.len(),
    decreases bytes.len(),
{
    if bytes.len() > 0 {
        lemma_armor_plain(bytes.drop_first());
    }
}

/// What was escaped is read back from its escaped form.
pub proof fn lemma_unarmor_armor(bytes: Seq<u8>)
    ensures
        unarmor(armor(bytes)) == Some(bytes),
    decreases bytes.len(),
{
    if bytes.len() > 0 {
        let rest = bytes.drop_first();
        lemma_unarmor_armor(rest);
        let whole = armor(bytes);
        if bytes[0] <= ESCAPE {
            assert(whole.skip(2) =~= armor(rest));
            assert(seq![(whole[1] - SHIFT) as u8] + rest =~= bytes);
        } else {
            assert(whole.skip(1) =~= armor(rest));
            assert(seq![whole[0]] + rest =~= bytes);
        }
    }
}

/// Two sequences with one escaped form are one sequence.
pub proof fn lemma_armor_injective(a: Seq<u8>, b: Seq<u8>)
    requires
        armor(a) == armor(b),
    ensures
        a == b,
{
    lemma_unarmor_armor(a);
    lemma_unarmor_armor(b);
}

/// `bytes` escaped.
pub fn escape(bytes: &[u8]) -> (out: Vec<u8>)
    ensures
        out@ == armor(bytes@),
{
    let n = bytes.len();
    let mut out: Vec<u8> = Vec::new();
    let mut i: usize = 0;
    while i < n
        invariant
            i <= n,
            n == bytes@.len(),
            out@ == armor(bytes@.take(i as int)),
        decreases n - i,
    {
        proof {
            assert(bytes@.take(i + 1) =~= bytes@.take(i as int) + seq![bytes@[i as int]]);
            lemma_armor_concat(bytes@.take(i as int), seq![bytes@[i as int]]);
            let one = seq![bytes@[i as int]];
            assert(one.drop_first() =~= Seq::<u8>::empty());
            assert(armor(one.drop_first()) =~= Seq::<u8>::empty());
            assert(armor(one) =~= armor_byte(bytes@[i as int]));
        }
        let byte = bytes[i];
        if byte <= ESCAPE {
            out.push(ESCAPE);
            out.push(byte + SHIFT);
        } else {
            out.push(byte);
        }
        assert(out@ =~= armor(bytes@.take(i as int)) + armor_byte(byte));
        i = i + 1;
    }
    assert(bytes@.take(n as int) =~= bytes@);
    out
}

/// The bytes that `bytes` are the escaped form of, if there are any.
pub fn unescape(bytes: &[u8]) -> (out: Option<Vec<u8>>)
    ensures
        match out {
            Some(plain) => unarmor(bytes@) == Some(plain@),
            None => unarmor(bytes@) is None,
        },
{
    let n = bytes.len();
    let mut plain: Vec<u8> = Vec::new();
    let mut i: usize = 0;
    proof {
        assert(bytes@.skip(0) =~= bytes@);
        if let Some(rest) = unarmor(bytes@) {
            assert(plain@ + rest =~= rest);
        }
    }
    while i < n
        invariant
            i <= n,
            n == bytes@.len(),
            unarmor(bytes@) == match unarmor(bytes@.skip(i as int)) {
                Some(rest) => Some(plain@ + rest),
                None => None,
            },
        decreases n - i,
    {
        let ghost here = bytes@.skip(i as int);
        let byte = bytes[i];
        assert(here[0] == byte);
        if byte == ESCAPE {
            if i + 1 >= n {
                return None;
            }
            let next = bytes[i + 1];
            assert(here[1] == next);
            if next < SHIFT || next > SHIFT + ESCAPE {
                return None;
            }
            assert(here.skip(2) =~= bytes@.skip(i + 2));
            let ghost before = plain@;
            plain.push(next - SHIFT);
            proof {
                if let Some(rest) = unarmor(bytes@.skip(i + 2)) {
                    assert(before + (seq![(next - SHIFT) as u8] + rest) =~= plain@ + rest);
                }
            }
            i = i + 2;
        } else if byte > ESCAPE {
            assert(here.skip(1) =~= bytes@.skip(i + 1));
            let ghost before = plain@;
            plain.push(byte);
            proof {
                if let Some(rest) = unarmor(bytes@.skip(i + 1)) {
                    assert(before + (seq![byte] + rest) =~= plain@ + rest);
                }
            }
            i = i + 1;
        } else {
            return None;
        }
    }
    assert(bytes@.skip(n as int) =~= Seq::<u8>::empty());
    assert(plain@ + Seq::<u8>::empty() =~= plain@);
    Some(plain)
}

/// The error of `lz4_flex`'s block decoder.
#[verifier::external_type_specification]
#[verifier::external_body]
pub struct ExDecompressError(DecompressError);

/// What `lz4_flex::block::decompress_size_prepended` makes of `block`: the
/// bytes it returns, or `None` where it returns an error.
pub uninterp spec fn lz4_unblock(block: Seq<u8>) -> Option<Seq<u8>>;

/// Calls `lz4_flex::block::compress_prepend_size`. The claims: the decoder
/// reads the input back from the block returned, which is the crate's
/// documented round trip; and the block is no longer than the buffer that the
/// function allocates for it. Which block of several comes back is not said:
/// it depends on the machine's word size.
#[verifier::external_body]
pub(crate) fn lz4_compress(plain: &[u8]) -> (block: Vec<u8>)
    requires
        plain@.len() <= MAX_PLAIN,
    ensures
        lz4_unblock(block@) == Some(plain@),
        block@.len() <= plain@.len() * 110 / 100 + 24,
{
    compress_prepend_size(plain)
}

/// Calls `lz4_flex::block::decompress_size_prepended`, on blocks that the
/// decoder accepts. The claim: what comes back is what the name above stands
/// for.
#[verifier::external_body]
pub(crate) fn lz4_decompress(block: &[u8]) -> (plain: Result<Vec<u8>, DecompressError>)
    requires
        lz4_unblock(block@) is Some,
    ensures
        match plain {
            Ok(bytes) => lz4_unblock(block@) == Some(bytes@),
            Err(_) => lz4_unblock(block@) is None,
        },
{
    decompress_size_prepended(block)
}

/// Calls `String::from_utf8`. The claim: it returns the text whose UTF-8
/// form the bytes are, and none where the bytes are not valid UTF-8.
#[verifier::external_body]
fn utf8_text(bytes: Vec<u8>) -> (text: Option<String>)
    ensures
        match text {
            Some(text) => encode_utf8(text@) == bytes@,
            None => !valid_utf8(bytes@),
        },
{
    String::from_utf8(bytes).ok()
}

/// The text whose UTF-8 form `bytes` are, if they are one.
pub fn text_of(bytes: Vec<u8>) -> (text: Option<String>)
    ensures
        match text {
            Some(text) => valid_utf8(bytes@) && text@ == vstd::utf8::decode_utf8(bytes@),
            None => !valid_utf8(bytes@),
        },
{
    let text = utf8_text(bytes);
    proof {
        if let Some(t) = &text {
            vstd::utf8::encode_utf8_valid_utf8(t@);
            vstd::utf8::encode_utf8_decode_utf8(t@);
        }
    }
    text
}

} // verus!
