//! Escaping of fragment content for the quoted body of a message.
//!
//! The body of a message stands between double quotes on a single line.
//! Content is therefore cut at its first carriage return or line feed, and
//! every backslash and double quote in what is kept is preceded by a
//! backslash. All other bytes pass unchanged, whatever their encoding.

use crate::ascii::{BACKSLASH, CR, LF, QUOTE};
use vstd::prelude::*;

verus! {

/// Whether `b` ends the body of a message.
pub open spec fn ends_body(b: u8) -> bool {
    b == CR || b == LF
}

/// Whether `b` is written with a backslash before it.
pub open spec fn needs_escape(b: u8) -> bool {
    b == BACKSLASH || b == QUOTE
}

/// The number of bytes of `chunk` before its first carriage return or line
/// feed; all of them where it holds neither.
pub open spec fn body_length(chunk: Seq<u8>) -> nat
    decreases chunk.len(),
{
    if chunk.len() == 0 || ends_body(chunk[0]) {
        0
    } else {
        1 + body_length(chunk.drop_first())
    }
}

/// One byte as it is written in a body.
pub open spec fn escape_byte(b: u8) -> Seq<u8> {
    if needs_escape(b) {
        seq![BACKSLASH, b]
    } else {
        seq![b]
    }
}

/// Every byte of `bytes` as it is written in a body, in order.
pub open spec fn escape_all(bytes: Seq<u8>) -> Seq<u8>
    decreases bytes.len(),
{
    if bytes.len() == 0 {
        Seq::empty()
    } else {
        escape_all(bytes.drop_last()) + escape_byte(bytes.last())
    }
}

/// The number of backslashes and double quotes in `bytes`.
pub open spec fn escapes_needed(bytes: Seq<u8>) -> nat
    decreases bytes.len(),
{
    if bytes.len() == 0 {
        0
    } else {
        escapes_needed(bytes.drop_last()) + if needs_escape(bytes.last()) { 1nat } else { 0nat }
    }
}

/// The body written for `chunk`: its bytes up to the first carriage return
/// or line feed, escaped.
pub open spec fn escaped_body(chunk: Seq<u8>) -> Seq<u8> {
    escape_all(chunk.take(body_length(chunk) as int))
}

/// What a reader of a body recovers: a backslash stands for the byte that
/// follows it, every other byte for itself.
pub open spec fn unescape(text: Seq<u8>) -> Seq<u8>
    decreases text.len(),
{
    if text.len() == 0 {
        Seq::empty()
    } else if text[0] == BACKSLASH && text.len() >= 2 {
        seq![text[1]] + unescape(text.skip(2))
    } else {
        seq![text[0]] + unescape(text.skip(1))
    }
}

/// Whether a reader that scans `text` from the left, taking a backslash
/// together with the byte after it, meets no double quote, no line break and
/// no backslash without a byte after it.
pub open spec fn well_quoted(text: Seq<u8>) -> bool
    decreases text.len(),
{
    if text.len() == 0 {
        true
    } else if text[0] == BACKSLASH {
        text.len() >= 2 && !ends_body(text[1]) && well_quoted(text.skip(2))
    } else {
        text[0] != QUOTE && !ends_body(text[0]) && well_quoted(text.skip(1))
    }
}

/// Appends the body written for `chunk` to `out`.
pub fn escape_into(out: &mut Vec<u8>, chunk: &[u8])
    ensures
        final(out)@ == old(out)@ + escaped_body(chunk@),
{
    let mut i: usize = 0;
    assert(chunk@.take(0) =~= Seq::<u8>::empty());
    while i < chunk.len()
        invariant
            i <= chunk.len(),
            forall|j: int| 0 <= j < i ==> !ends_body(chunk@[j]),
            out@ == old(out)@ + escape_all(chunk@.take(i as int)),
        decreases chunk.len() - i,
    {
        let c = chunk[i];
        if c == CR || c == LF {
            proof {
                lemma_body_length_is(chunk@, i as int);
            }
            return ;
        }
        proof {
            assert(chunk@.take(i + 1).drop_last() =~= chunk@.take(i as int));
        }
        if c == BACKSLASH || c == QUOTE {
            out.push(BACKSLASH);
        }
        out.push(c);
        i += 1;
    }
    proof {
        lemma_body_length_is(chunk@, i as int);
    }
}

/// Returns the body written for `chunk`.
pub fn escape(chunk: &[u8]) -> (body: Vec<u8>)
    ensures
        body@ == escaped_body(chunk@),
{
    let mut body: Vec<u8> = Vec::new();
    escape_into(&mut body, chunk);
    body
}

/// The body of a chunk ends at `n` where no byte before `n` is a carriage
/// return or a line feed and the byte at `n`, if there is one, is.
pub proof fn lemma_body_length_is(chunk: Seq<u8>, n: int)
    requires
        0 <= n <= chunk.len(),
        forall|j: int| 0 <= j < n ==> !ends_body(chunk[j]),
        n < chunk.len() ==> ends_body(chunk[n]),
    ensures
        body_length(chunk) == n,
    decreases n,
{
    if n > 0 {
        lemma_body_length_is(chunk.drop_first(), n - 1);
    }
}

/// A body ends at the first carriage return or line feed of its chunk: no
/// byte that is kept is one, and the first byte that is left out is.
pub proof fn lemma_body_length(chunk: Seq<u8>)
    ensures
        body_length(chunk) <= chunk.len(),
        forall|j: int| 0 <= j < body_length(chunk) ==> !ends_body(#[trigger] chunk[j]),
        body_length(chunk) < chunk.len() ==> ends_body(chunk[body_length(chunk) as int]),
    decreases chunk.len(),
{
    if chunk.len() > 0 && !ends_body(chunk[0]) {
        let rest = chunk.drop_first();
        lemma_body_length(rest);
        assert forall|j: int| 0 <= j < body_length(chunk) implies !ends_body(
            #[trigger] chunk[j],
        ) by {
            if j > 0 {
                assert(chunk[j] == rest[j - 1]);
            }
        }
    }
}

/// A single byte is written as `escape_byte` says.
pub proof fn lemma_escape_all_single(b: u8)
    ensures
        escape_all(seq![b]) == escape_byte(b),
{
    let one = seq![b];
    assert(one.drop_last() =~= Seq::<u8>::empty());
    assert(escape_all(one.drop_last()) + escape_byte(one.last()) =~= escape_byte(b));
}

/// Escaping goes byte by byte: what is written for two pieces in a row is
/// what is written for the first, then what is written for the second.
pub proof fn lemma_escape_all_concat(a: Seq<u8>, b: Seq<u8>)
    ensures
        escape_all(a + b) == escape_all(a) + escape_all(b),
    decreases b.len(),
{
    if b.len() == 0 {
        assert(a + b =~= a);
        assert(escape_all(a) + escape_all(b) =~= escape_all(a));
    } else {
        assert((a + b).drop_last() =~= a + b.drop_last());
        lemma_escape_all_concat(a, b.drop_last());
        assert(escape_all(a + b) =~= escape_all(a) + escape_all(b));
    }
}

/// A carriage return or line feed cuts the body: content after it is not
/// written, and content before it is written in full.
pub proof fn lemma_body_is_cut(kept: Seq<u8>, end: u8, rest: Seq<u8>)
    requires
        forall|j: int| 0 <= j < kept.len() ==> !ends_body(kept[j]),
        ends_body(end),
    ensures
        escaped_body(kept + seq![end] + rest) == escape_all(kept),
        escaped_body(kept) == escape_all(kept),
{
    let chunk = kept + seq![end] + rest;
    lemma_body_length_is(chunk, kept.len() as int);
    assert(chunk.take(kept.len() as int) =~= kept);
    lemma_body_length_is(kept, kept.len() as int);
    assert(kept.take(kept.len() as int) =~= kept);
}

/// Escaping adds one byte for every backslash and every double quote, and
/// nothing else.
pub proof fn lemma_escape_all_len(bytes: Seq<u8>)
    ensures
        escape_all(bytes).len() == bytes.len() + escapes_needed(bytes),
    decreases bytes.len(),
{
    if bytes.len() > 0 {
        lemma_escape_all_len(bytes.drop_last());
    }
}

/// Reading back what was escaped gives the bytes that were escaped.
pub proof fn lemma_unescape_escape_all(bytes: Seq<u8>)
    ensures
        unescape(escape_all(bytes)) == bytes,
    decreases bytes.len(),
{
    if bytes.len() > 0 {
        let head = seq![bytes[0]];
        let rest = bytes.drop_first();
        assert(bytes =~= head + rest);
        lemma_escape_all_concat(head, rest);
        lemma_escape_all_single(bytes[0]);
        lemma_unescape_escape_all(rest);
        let text = escape_all(bytes);
        if needs_escape(bytes[0]) {
            assert(text.skip(2) =~= escape_all(rest));
        } else {
            assert(text.skip(1) =~= escape_all(rest));
        }
        assert(unescape(text) =~= bytes);
    }
}

/// Reading back the body of a chunk gives the chunk up to its first carriage
/// return or line feed.
pub proof fn lemma_unescape_body(chunk: Seq<u8>)
    ensures
        unescape(escaped_body(chunk)) == chunk.take(body_length(chunk) as int),
{
    lemma_unescape_escape_all(chunk.take(body_length(chunk) as int));
}

/// Bytes without a line break, once escaped, hold no bare double quote, no
/// backslash that stands alone and no line break.
pub proof fn lemma_escape_all_well_quoted(bytes: Seq<u8>)
    requires
        forall|j: int| 0 <= j < bytes.len() ==> !ends_body(bytes[j]),
    ensures
        well_quoted(escape_all(bytes)),
    decreases bytes.len(),
{
    if bytes.len() > 0 {
        let head = seq![bytes[0]];
        let rest = bytes.drop_first();
        assert(bytes =~= head + rest);
        lemma_escape_all_concat(head, rest);
        lemma_escape_all_single(bytes[0]);
        assert forall|j: int| 0 <= j < rest.len() implies !ends_body(rest[j]) by {
            assert(rest[j] == bytes[j + 1]);
        }
        lemma_escape_all_well_quoted(rest);
        let text = escape_all(bytes);
        if needs_escape(bytes[0]) {
            assert(text.skip(2) =~= escape_all(rest));
        } else {
            assert(text.skip(1) =~= escape_all(rest));
        }
    }
}

/// In the body of any chunk every backslash and every double quote of the
/// content is escaped, and there is no line break.
pub proof fn lemma_body_well_quoted(chunk: Seq<u8>)
    ensures
        well_quoted(escaped_body(chunk)),
{
    lemma_body_length(chunk);
    lemma_escape_all_well_quoted(chunk.take(body_length(chunk) as int));
}

/// Two well quoted texts in a row are well quoted.
pub proof fn lemma_well_quoted_concat(a: Seq<u8>, b: Seq<u8>)
    requires
        well_quoted(a),
        well_quoted(b),
    ensures
        well_quoted(a + b),
    decreases a.len(),
{
    if a.len() == 0 {
        assert(a + b =~= b);
    } else if a[0] == BACKSLASH {
        assert((a + b).skip(2) =~= a.skip(2) + b);
        lemma_well_quoted_concat(a.skip(2), b);
    } else {
        assert((a + b).skip(1) =~= a.skip(1) + b);
        lemma_well_quoted_concat(a.skip(1), b);
    }
}

/// A text without backslash, double quote and line break is well quoted.
pub proof fn lemma_plain_well_quoted(text: Seq<u8>)
    requires
        forall|i: int| 0 <= i < text.len() ==> !needs_escape(text[i]) && !ends_body(text[i]),
    ensures
        well_quoted(text),
    decreases text.len(),
{
    if text.len() > 0 {
        let rest = text.skip(1);
        assert forall|i: int| 0 <= i < rest.len() implies !needs_escape(rest[i]) && !ends_body(
            rest[i],
        ) by {
            assert(rest[i] == text[i + 1]);
        }
        lemma_plain_well_quoted(rest);
    }
}

} // verus!
