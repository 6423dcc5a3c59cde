//! The printable string at a match: the text up to the first NUL byte, or,
//! where none follows, the text up to the first byte at which the bytes
//! stop being UTF-8.

use crate::chars::string_of;
use vstd::prelude::*;
use vstd::slice::slice_subrange;
use vstd::utf8::{
    decode_utf8, encode_utf8, encode_utf8_decode_utf8, encode_utf8_valid_utf8, is_ascii_chars,
    is_ascii_chars_encode_utf8, partial_valid_partial_invalid_utf8, valid_utf8,
};

verus! {

/// Whether a NUL byte ended the extracted text.
#[derive(PartialEq, Eq, Clone, Copy, Debug, Structural)]
pub enum Completeness {
    /// The text ends at a NUL byte.
    Complete,
    /// No NUL byte follows: the text ends where decoding did.
    Truncated,
}

/// The text that lossy decoding makes of bytes: what std's
/// `String::from_utf8_lossy` returns for them.
pub uninterp spec fn lossy_text(bytes: Seq<u8>) -> Seq<char>;

/// The text of `bytes`: what they encode where they are UTF-8, and else
/// what lossy decoding makes of them.
pub open spec fn text_of(bytes: Seq<u8>) -> Seq<char> {
    if valid_utf8(bytes) {
        decode_utf8(bytes)
    } else {
        lossy_text(bytes)
    }
}

/// Where the first NUL byte stands in `bytes`, or their length where none
/// does.
pub open spec fn first_nul(bytes: Seq<u8>) -> nat
    decreases bytes.len(),
{
    if bytes.len() == 0 || bytes[0] == 0 {
        0
    } else {
        1 + first_nul(bytes.drop_first())
    }
}

/// The length reached from `n` by taking one more byte for as long as the
/// bytes taken are UTF-8.
pub open spec fn run_from(bytes: Seq<u8>, n: nat) -> nat
    decreases bytes.len() - n,
{
    if n < bytes.len() && valid_utf8(bytes.take(n as int + 1)) {
        run_from(bytes, n + 1)
    } else {
        n
    }
}

/// The text extracted from `bytes` and whether a NUL byte ended it.
pub open spec fn extract_text(bytes: Seq<u8>) -> (Seq<char>, Completeness) {
    let nul = first_nul(bytes) as int;
    if nul < bytes.len() {
        (text_of(bytes.take(nul)), Completeness::Complete)
    } else {
        (decode_utf8(bytes.take(run_from(bytes, 0) as int)), Completeness::Truncated)
    }
}

/// Calls `String::from_utf8_lossy`, which returns the text that UTF-8 bytes
/// encode and, of other bytes, a text with U+FFFD in place of what is not
/// UTF-8. The second of these is not spelled out here: it goes by the name
/// `lossy_text`.
#[verifier::external_body]
fn decode_lossy(bytes: &[u8]) -> (text: String)
    ensures
        text@ == lossy_text(bytes@),
        valid_utf8(bytes@) ==> text@ == decode_utf8(bytes@),
{
    String::from_utf8_lossy(bytes).into_owned()
}

/// The first NUL byte is where a NUL byte stands and none stands before.
pub proof fn lemma_first_nul_is(bytes: Seq<u8>, n: int)
    requires
        0 <= n <= bytes.len(),
        forall|i: int| 0 <= i < n ==> #[trigger] bytes[i] != 0,
        n < bytes.len() ==> bytes[n] == 0,
    ensures
        first_nul(bytes) == n,
    decreases n,
{
    if n > 0 {
        let rest = bytes.drop_first();
        assert forall|i: int| 0 <= i < n - 1 implies #[trigger] rest[i] != 0 by {
            assert(rest[i] == bytes[i + 1]);
        }
        if n < bytes.len() {
            assert(rest[n - 1] == bytes[n]);
        }
        lemma_first_nul_is(rest, n - 1);
    }
}

/// The characters that ASCII bytes stand for, one for each byte.
pub open spec fn ascii_text(bytes: Seq<u8>) -> Seq<char> {
    Seq::new(bytes.len(), |i: int| bytes[i] as char)
}

/// ASCII bytes are UTF-8, and encode one character each.
pub proof fn lemma_ascii_is_utf8(bytes: Seq<u8>)
    requires
        forall|i: int| 0 <= i < bytes.len() ==> #[trigger] bytes[i] < 0x80,
    ensures
        valid_utf8(bytes),
        decode_utf8(bytes) == ascii_text(bytes),
{
    let text = ascii_text(bytes);
    assert(is_ascii_chars(text));
    is_ascii_chars_encode_utf8(text);
    assert(encode_utf8(text) =~= bytes);
    encode_utf8_decode_utf8(text);
    encode_utf8_valid_utf8(text);
}

/// A byte that is not ASCII makes the ASCII bytes before it, taken with it,
/// no UTF-8.
pub proof fn lemma_cut_character_is_no_utf8(bytes: Seq<u8>)
    requires
        bytes.len() > 0,
        forall|i: int| 0 <= i < bytes.len() - 1 ==> #[trigger] bytes[i] < 0x80,
        bytes.last() >= 0x80,
    ensures
        !valid_utf8(bytes),
{
    let n = bytes.len() - 1;
    lemma_ascii_is_utf8(bytes.subrange(0, n));
    let tail = bytes.subrange(n, bytes.len() as int);
    assert(tail.len() == 1 && tail[0] == bytes.last());
    assert(!valid_utf8(tail));
    partial_valid_partial_invalid_utf8(bytes, n);
}

/// The run from `from` ends at `n` where every start of the bytes from
/// there up to `n` is UTF-8 and the next longer one, if there is one, is
/// not.
pub proof fn lemma_run_reaches(bytes: Seq<u8>, from: nat, n: nat)
    requires
        from <= n <= bytes.len(),
        forall|k: int| from < k <= n ==> valid_utf8(#[trigger] bytes.take(k)),
        n < bytes.len() ==> !valid_utf8(bytes.take(n as int + 1)),
    ensures
        run_from(bytes, from) == n,
    decreases n - from,
{
    if from < n {
        assert(valid_utf8(bytes.take(from as int + 1)));
        lemma_run_reaches(bytes, from + 1, n);
    }
}

/// Where the first `n` bytes are ASCII and the next one is not, or none
/// follows, the run from the start ends at `n`, and its text is those
/// bytes as characters.
pub proof fn lemma_run_of_ascii(bytes: Seq<u8>, n: int)
    requires
        0 <= n <= bytes.len(),
        forall|i: int| 0 <= i < n ==> #[trigger] bytes[i] < 0x80,
        n < bytes.len() ==> bytes[n] >= 0x80,
    ensures
        run_from(bytes, 0) == n,
        decode_utf8(bytes.take(n)) == ascii_text(bytes.take(n)),
{
    assert forall|k: int| 0 < k <= n implies valid_utf8(#[trigger] bytes.take(k)) by {
        lemma_ascii_is_utf8(bytes.take(k));
    }
    if n < bytes.len() {
        lemma_cut_character_is_no_utf8(bytes.take(n + 1));
    }
    lemma_run_reaches(bytes, 0, n as nat);
    lemma_ascii_is_utf8(bytes.take(n));
}

/// Extracts the printable string at the start of `bytes`.
pub fn extract(bytes: &[u8]) -> (r: (String, Completeness))
    ensures
        (r.0@, r.1) == extract_text(bytes@),
{
    let mut nul: usize = 0;
    while nul < bytes.len() && bytes[nul] != 0
        invariant
            nul <= bytes@.len(),
            forall|i: int| 0 <= i < nul ==> #[trigger] bytes@[i] != 0,
        decreases bytes@.len() - nul,
    {
        nul += 1;
    }
    proof {
        lemma_first_nul_is(bytes@, nul as int);
    }
    if nul < bytes.len() {
        let text = decode_lossy(slice_subrange(bytes, 0, nul));
        return (text, Completeness::Complete);
    }
    let mut text: Vec<char> = Vec::new();
    let mut n: usize = 0;
    while n < bytes.len() && bytes[n] < 0x80
        invariant
            n <= bytes@.len(),
            forall|i: int| 0 <= i < n ==> #[trigger] bytes@[i] < 0x80,
            text@ == ascii_text(bytes@.take(n as int)),
        decreases bytes@.len() - n,
    {
        text.push(bytes[n] as char);
        n += 1;
        assert(text@ =~= ascii_text(bytes@.take(n as int)));
    }
    proof {
        lemma_run_of_ascii(bytes@, n as int);
    }
    (string_of(text.as_slice()), Completeness::Truncated)
}

/// The first NUL byte stands within the bytes or at their end, no NUL byte
/// stands before it, and one stands at it unless it is the end.
pub proof fn lemma_first_nul(bytes: Seq<u8>)
    ensures
        first_nul(bytes) <= bytes.len(),
        forall|i: int| 0 <= i < first_nul(bytes) ==> #[trigger] bytes[i] != 0,
        first_nul(bytes) < bytes.len() ==> bytes[first_nul(bytes) as int] == 0,
    decreases bytes.len(),
{
    if bytes.len() == 0 || bytes[0] == 0 {
    } else {
        let rest = bytes.drop_first();
        lemma_first_nul(rest);
        assert forall|i: int| 0 <= i < first_nul(bytes) implies #[trigger] bytes[i] != 0 by {
            if i > 0 {
                assert(bytes[i] == rest[i - 1]);
            }
        }
    }
}

/// The run from `n` ends within the bytes, reaches every length up to its
/// end through UTF-8 alone, and ends where one more byte is no UTF-8.
pub proof fn lemma_run_from(bytes: Seq<u8>, n: nat)
    requires
        n <= bytes.len(),
    ensures
        n <= run_from(bytes, n) <= bytes.len(),
        forall|k: int| n < k <= run_from(bytes, n) ==> valid_utf8(#[trigger] bytes.take(k)),
        run_from(bytes, n) < bytes.len() ==> !valid_utf8(
            bytes.take(run_from(bytes, n) as int + 1),
        ),
    decreases bytes.len() - n,
{
    if n < bytes.len() && valid_utf8(bytes.take(n as int + 1)) {
        lemma_run_from(bytes, n + 1);
    }
}

/// The extracted text is complete exactly where the bytes hold a NUL byte,
/// and is then the text of the bytes before the first one.
pub proof fn lemma_extract_complete(bytes: Seq<u8>)
    ensures
        extract_text(bytes).1 == Completeness::Complete <==> exists|i: int|
            0 <= i < bytes.len() && #[trigger] bytes[i] == 0,
        extract_text(bytes).1 == Completeness::Complete ==> extract_text(bytes).0 == text_of(
            bytes.take(first_nul(bytes) as int),
        ),
{
    lemma_first_nul(bytes);
}

/// Where the bytes hold no NUL byte, the extracted text is truncated: it is
/// the text of the longest start of the bytes all of whose own starts are
/// UTF-8.
pub proof fn lemma_extract_truncated(bytes: Seq<u8>)
    requires
        forall|i: int| 0 <= i < bytes.len() ==> #[trigger] bytes[i] != 0,
    ensures
        extract_text(bytes).1 == Completeness::Truncated,
        extract_text(bytes).0 == decode_utf8(bytes.take(run_from(bytes, 0) as int)),
        run_from(bytes, 0) <= bytes.len(),
        forall|k: int| 0 < k <= run_from(bytes, 0) ==> valid_utf8(#[trigger] bytes.take(k)),
        run_from(bytes, 0) < bytes.len() ==> !valid_utf8(bytes.take(run_from(bytes, 0) as int + 1)),
{
    lemma_first_nul(bytes);
    lemma_run_from(bytes, 0);
}

/// Where a NUL byte follows a text in UTF-8 that holds none, the text is
/// extracted whole.
pub proof fn lemma_extract_terminated(text: Seq<u8>, rest: Seq<u8>)
    requires
        valid_utf8(text),
        forall|i: int| 0 <= i < text.len() ==> #[trigger] text[i] != 0,
    ensures
        extract_text(text + seq![0u8] + rest) == (decode_utf8(text), Completeness::Complete),
{
    let bytes = text + seq![0u8] + rest;
    assert forall|i: int| 0 <= i < text.len() implies #[trigger] bytes[i] != 0 by {
        assert(bytes[i] == text[i]);
    }
    assert(bytes[text.len() as int] == 0);
    lemma_first_nul_is(bytes, text.len() as int);
    assert(bytes.take(text.len() as int) =~= text);
}

} // verus!
