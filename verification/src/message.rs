//! Rendering of one notification message, and of the notice for a line that
//! was discarded.
//!
//! A message is one line of text:
//!
//! ```text
//! PUTNOTIF host=<h> severity=okay time=<t> plugin=<p> type=<c> message="[@<id>:<seq>:<total>@]<body>"
//! ```
//!
//! The correlation header between `@` signs links the messages of a line that
//! was cut into several fragments; a line that fits into one message has none.

use crate::ascii::{LF, QUOTE, ZERO};
use crate::escape::{
    ends_body, escape_into, escaped_body, lemma_body_well_quoted, lemma_plain_well_quoted,
    lemma_well_quoted_concat, needs_escape, well_quoted,
};
use vstd::prelude::*;
use vstd::string::StringSliceAdditionalSpecFns;

verus! {

/// Links the fragments of one line: the line's correlation ID, the number of
/// this fragment counted from 1, and the number of fragments of the line.
#[derive(Clone, Copy, Debug, PartialEq, Eq)]
pub struct Header {
    /// The correlation ID of the line.
    pub id: u64,
    /// The number of the fragment, counted from 1.
    pub seq: usize,
    /// The number of fragments of the line.
    pub total: usize,
}

/// The decimal digits of `n`, most significant first, as ASCII bytes.
pub open spec fn decimal(n: nat) -> Seq<u8>
    decreases n,
{
    if n < 10 {
        seq![(ZERO + n) as u8]
    } else {
        decimal(n / 10).push((ZERO + n % 10) as u8)
    }
}

/// The number that a sequence of ASCII digits denotes.
pub open spec fn decimal_value(digits: Seq<u8>) -> nat
    decreases digits.len(),
{
    if digits.len() == 0 {
        0
    } else {
        (10 * decimal_value(digits.drop_last()) + (digits.last() - ZERO)) as nat
    }
}

/// The correlation header as it is written: `@<id>:<seq>:<total>@`.
pub open spec fn header_text(header: Header) -> Seq<u8> {
    "@".spec_bytes() + decimal(header.id as nat) + ":".spec_bytes() + decimal(header.seq as nat)
        + ":".spec_bytes() + decimal(header.total as nat) + "@".spec_bytes()
}

/// What stands between the opening quote and the body: the header where
/// there is one, else nothing.
pub open spec fn header_or_nothing(header: Option<Header>) -> Seq<u8> {
    match header {
        Some(h) => header_text(h),
        None => Seq::empty(),
    }
}

/// A message up to the quote that opens its body. `host`, `plugin` and
/// `ctype` are written as they are, `time` in decimal.
pub open spec fn message_prefix(plugin: Seq<u8>, ctype: Seq<u8>, host: Seq<u8>, time: nat) -> Seq<
    u8,
> {
    "PUTNOTIF host=".spec_bytes() + host + " severity=okay time=".spec_bytes() + decimal(time)
        + " plugin=".spec_bytes() + plugin + " type=".spec_bytes() + ctype
        + " message=\"".spec_bytes()
}

/// What stands between the quotes of a message: the correlation header,
/// where there is one, and the escaped body of the chunk.
pub open spec fn message_body(header: Option<Header>, chunk: Seq<u8>) -> Seq<u8> {
    header_or_nothing(header) + escaped_body(chunk)
}

/// One message, from `PUTNOTIF` to the line feed that ends it.
pub open spec fn message_text(
    plugin: Seq<u8>,
    ctype: Seq<u8>,
    host: Seq<u8>,
    time: nat,
    header: Option<Header>,
    chunk: Seq<u8>,
) -> Seq<u8> {
    message_prefix(plugin, ctype, host, time) + message_body(header, chunk) + "\"\n".spec_bytes()
}

/// The notice for a discarded line: `DISCARD:<count>/<limit>:` and the raw
/// line as it was read, terminator included.
pub open spec fn discard_text(count: nat, limit: nat, line: Seq<u8>) -> Seq<u8> {
    "DISCARD:".spec_bytes() + decimal(count) + "/".spec_bytes() + decimal(limit)
        + ":".spec_bytes() + line
}

/// Appends the decimal digits of `n` to `out`.
pub fn push_decimal(out: &mut Vec<u8>, n: u64)
    ensures
        final(out)@ == old(out)@ + decimal(n as nat),
    decreases n,
{
    if n >= 10 {
        push_decimal(out, n / 10);
    }
    let digit: u8 = (n % 10) as u8;
    out.push(ZERO + digit);
    assert(out@ =~= old(out)@ + decimal(n as nat));
}

/// Appends `bytes` to `out`.
pub fn push_bytes(out: &mut Vec<u8>, bytes: &[u8])
    ensures
        final(out)@ == old(out)@ + bytes@,
{
    let mut i: usize = 0;
    while i < bytes.len()
        invariant
            i <= bytes.len(),
            out@ == old(out)@ + bytes@.take(i as int),
        decreases bytes.len() - i,
    {
        out.push(bytes[i]);
        assert(bytes@.take(i + 1) =~= bytes@.take(i as int).push(bytes@[i as int]));
        i += 1;
    }
    assert(bytes@.take(bytes@.len() as int) =~= bytes@);
}

/// Appends the correlation header to `out`.
pub fn push_header(out: &mut Vec<u8>, header: Header)
    ensures
        final(out)@ == old(out)@ + header_text(header),
{
    push_bytes(out, "@".as_bytes());
    push_decimal(out, header.id);
    push_bytes(out, ":".as_bytes());
    push_decimal(out, header.seq as u64);
    push_bytes(out, ":".as_bytes());
    push_decimal(out, header.total as u64);
    push_bytes(out, "@".as_bytes());
    assert(out@ =~= old(out)@ + header_text(header));
}

/// Renders one message: the fixed prefix with host, time, plugin and type,
/// the correlation header if there is one, the escaped body of `chunk`, the
/// closing quote and a line feed.
pub fn format_message(
    plugin: &str,
    ctype: &str,
    hostname: &str,
    timestamp: u64,
    header: Option<Header>,
    chunk: &[u8],
) -> (message: Vec<u8>)
    ensures
        message@ == message_text(
            plugin.spec_bytes(),
            ctype.spec_bytes(),
            hostname.spec_bytes(),
            timestamp as nat,
            header,
            chunk@,
        ),
{
    let mut message: Vec<u8> = Vec::new();
    push_bytes(&mut message, "PUTNOTIF host=".as_bytes());
    push_bytes(&mut message, hostname.as_bytes());
    push_bytes(&mut message, " severity=okay time=".as_bytes());
    push_decimal(&mut message, timestamp);
    push_bytes(&mut message, " plugin=".as_bytes());
    push_bytes(&mut message, plugin.as_bytes());
    push_bytes(&mut message, " type=".as_bytes());
    push_bytes(&mut message, ctype.as_bytes());
    push_bytes(&mut message, " message=\"".as_bytes());
    match header {
        Some(h) => {
            push_header(&mut message, h);
        },
        None => {},
    }
    escape_into(&mut message, chunk);
    push_bytes(&mut message, "\"\n".as_bytes());
    assert(message@ =~= message_text(
        plugin.spec_bytes(),
        ctype.spec_bytes(),
        hostname.spec_bytes(),
        timestamp as nat,
        header,
        chunk@,
    ));
    message
}

/// Renders the notice for a discarded line.
pub fn discard_notice(count: usize, limit: usize, line: &[u8]) -> (notice: Vec<u8>)
    ensures
        notice@ == discard_text(count as nat, limit as nat, line@),
{
    let mut notice: Vec<u8> = Vec::new();
    push_bytes(&mut notice, "DISCARD:".as_bytes());
    push_decimal(&mut notice, count as u64);
    push_bytes(&mut notice, "/".as_bytes());
    push_decimal(&mut notice, limit as u64);
    push_bytes(&mut notice, ":".as_bytes());
    push_bytes(&mut notice, line);
    assert(notice@ =~= discard_text(count as nat, limit as nat, line@));
    notice
}

/// The digits of a number denote that number, and there is at least one.
pub proof fn lemma_decimal_value(n: nat)
    ensures
        decimal_value(decimal(n)) == n,
        decimal(n).len() >= 1,
        forall|i: int| 0 <= i < decimal(n).len() ==> ZERO <= #[trigger] decimal(n)[i] <= ZERO + 9,
    decreases n,
{
    if n < 10 {
        let d = decimal(n);
        assert(d.drop_last() =~= Seq::<u8>::empty());
        assert(decimal_value(d.drop_last()) == 0);
    } else {
        lemma_decimal_value(n / 10);
        let d = decimal(n);
        assert(d.drop_last() =~= decimal(n / 10));
    }
}

/// The decimal digits of a number hold no backslash, no double quote and no
/// line break.
pub proof fn lemma_decimal_is_plain(n: nat)
    ensures
        forall|i: int|
            0 <= i < decimal(n).len() ==> !needs_escape(#[trigger] decimal(n)[i]) && !ends_body(
                decimal(n)[i],
            ),
{
    lemma_decimal_value(n);
}

/// A message is framed by its quotes. Its body opens with a double quote
/// and closes with a double quote and a line feed; between the two quotes a
/// reader meets no bare double quote and no line break, whatever the content
/// of the chunk.
pub proof fn lemma_message_frame(
    plugin: Seq<u8>,
    ctype: Seq<u8>,
    host: Seq<u8>,
    time: nat,
    header: Option<Header>,
    chunk: Seq<u8>,
)
    ensures
        message_text(plugin, ctype, host, time, header, chunk) == message_prefix(
            plugin,
            ctype,
            host,
            time,
        ) + message_body(header, chunk) + seq![QUOTE, LF],
        message_prefix(plugin, ctype, host, time).last() == QUOTE,
        well_quoted(message_body(header, chunk)),
{
    broadcast use vstd::string::is_ascii_spec_bytes;

    reveal_strlit("\"\n");
    assert(vstd::string::is_ascii("\"\n"));
    assert("\"\n".spec_bytes() =~= seq![QUOTE, LF]);
    reveal_strlit(" message=\"");
    assert(vstd::string::is_ascii(" message=\""));
    assert(" message=\"".spec_bytes().last() == QUOTE);
    lemma_body_well_quoted(chunk);
    match header {
        Some(h) => {
            reveal_strlit("@");
            reveal_strlit(":");
            assert(vstd::string::is_ascii("@"));
            assert(vstd::string::is_ascii(":"));
            lemma_decimal_is_plain(h.id as nat);
            lemma_decimal_is_plain(h.seq as nat);
            lemma_decimal_is_plain(h.total as nat);
            lemma_plain_well_quoted(header_text(h));
            lemma_well_quoted_concat(header_text(h), escaped_body(chunk));
        },
        None => {
            assert(message_body(header, chunk) =~= escaped_body(chunk));
        },
    }
}

} // verus!
