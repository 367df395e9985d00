//! The state carried from line to line, and the steps taken for each line:
//! the rate check, the emission of its messages, and the move to the next
//! correlation ID.
//!
//! The caller owns the loop. For each line it reads, it takes a reading of
//! its monotonic clock and calls `check_rate`. For a line that is accepted it
//! reads the wall clock, calls `emit`, writes the messages in order, and
//! calls `advance` with their number.

use crate::clock::Moment;
use crate::config::Config;
use crate::fragment::{
    count_fragments, fragment_count, fragment_range, fragments, lemma_fragment_bounds,
    logical_length, measure, split,
};
use crate::limiter::{Arrival, Decision, RateWindow, WindowModel};
use crate::message::{discard_notice, discard_text, format_message, message_text, Header};
use vstd::prelude::*;
use vstd::utf8::encode_utf8;

verus! {

/// What becomes of a line after the rate check.
#[derive(Debug, PartialEq, Eq)]
pub enum Verdict {
    /// The line goes on to be emitted.
    Accept,
    /// The line is dropped. Under verbose settings `notice` holds the report
    /// for the error stream.
    Discard { notice: Option<Vec<u8>> },
}

/// The state of the loop: the settings, the limiter's window, and the
/// correlation ID that the next line cut into several fragments will carry.
#[derive(Debug, PartialEq, Eq)]
pub struct Relay {
    /// The settings of the run.
    pub config: Config,
    /// The limiter's window.
    pub window: RateWindow,
    /// The correlation ID for the next line of more than one fragment.
    pub id: u64,
}

/// The correlation ID after a line of `total` fragments, where it was `id`
/// before: the next ID, and 1 after the largest, where the line was cut into
/// more than one fragment; else the same ID.
pub open spec fn next_id(id: nat, total: nat, max: nat) -> nat
    recommends
        max > 0,
{
    if total > 1 {
        id % max + 1
    } else {
        id
    }
}

/// The correlation ID after lines with the fragment counts `totals` have
/// been emitted in order, starting from 1.
pub open spec fn id_after(totals: Seq<nat>, max: nat) -> nat
    decreases totals.len(),
{
    if totals.len() == 0 {
        1
    } else {
        next_id(id_after(totals.drop_last(), max), totals.last(), max)
    }
}

/// The number of lines among `totals` that were cut into more than one
/// fragment.
pub open spec fn cut_lines(totals: Seq<nat>) -> nat
    decreases totals.len(),
{
    if totals.len() == 0 {
        0
    } else {
        cut_lines(totals.drop_last()) + if totals.last() > 1 { 1nat } else { 0nat }
    }
}

/// The correlation header of fragment `k`, counted from zero, of a line of
/// `total` fragments: none where the line fits into one message.
pub open spec fn correlation(id: u64, k: int, total: nat) -> Option<Header> {
    if total > 1 {
        Some(Header { id, seq: (k + 1) as usize, total: total as usize })
    } else {
        None
    }
}

/// The message for fragment `k`, counted from zero, of a raw line.
pub open spec fn line_message(config: Config, id: u64, unix_secs: u64, line: Seq<u8>, k: int) -> Seq<
    u8,
> {
    let len = logical_length(line);
    let max = config.max_event_length as nat;
    let range = fragment_range(len, max, k);
    message_text(
        encode_utf8(config.plugin@),
        encode_utf8(config.ctype@),
        encode_utf8(config.hostname@),
        unix_secs as nat,
        correlation(id, k, fragment_count(len, max)),
        line.subrange(range.0, range.1),
    )
}

/// The messages for a raw line, one for each fragment of its content, in
/// order. All carry the same time and the same correlation ID.
pub open spec fn line_messages(config: Config, id: u64, unix_secs: u64, line: Seq<u8>) -> Seq<
    Seq<u8>,
> {
    Seq::new(
        fragment_count(logical_length(line), config.max_event_length as nat),
        |k: int| line_message(config, id, unix_secs, line, k),
    )
}

impl Relay {
    /// Whether the state is one in which lines can be processed: the settings
    /// are well formed, and the correlation ID is 1 or lies between 1 and the
    /// largest ID.
    pub open spec fn wf(&self) -> bool {
        self.config.wf() && (self.id == 1 || 1 <= self.id <= self.config.max_event_id)
    }

    /// A line as the limiter sees it.
    pub open spec fn arrival(&self, line: Seq<u8>, now: Moment) -> Arrival {
        Arrival {
            units: fragment_count(logical_length(line), self.config.max_event_length as nat),
            now,
        }
    }

    /// Whether the count can take in `line` at `now` within the range of
    /// `usize`.
    pub open spec fn has_room(&self, line: Seq<u8>, now: Moment) -> bool {
        self.window@.carried(self.config.window as nat, now) + self.arrival(line, now).units
            <= usize::MAX
    }

    /// The state at the start of the loop: a window opened at `now` with
    /// nothing counted, and the correlation ID 1.
    pub fn new(config: Config, now: Moment) -> (relay: Relay)
        ensures
            relay.wf() == config.wf(),
            relay.config == config,
            relay.window@ == (WindowModel { start: now, count: 0 }),
            relay.id == 1,
    {
        Relay { config, window: RateWindow::new(now), id: 1 }
    }

    /// Tests whether the count can take in `line` at `now`.
    pub fn fits(&self, line: &[u8], now: Moment) -> (ok: bool)
        requires
            self.wf(),
        ensures
            ok == self.has_room(line@, now),
    {
        let units = count_fragments(measure(line), self.config.max_event_length);
        units <= self.window.room(self.config.window, now)
    }

    /// Counts the fragments of a raw line that was read at `now` against the
    /// rate limit, and decides whether the line goes on. A line of no content
    /// has no fragments and counts as nothing. The correlation ID stays.
    pub fn check_rate(&mut self, line: &[u8], now: Moment) -> (verdict: Verdict)
        requires
            old(self).wf(),
            old(self).has_room(line@, now),
        ensures
            final(self).wf(),
            final(self).config == old(self).config,
            final(self).id == old(self).id,
            final(self).window@ == old(self).window@.after(
                old(self).config.window as nat,
                old(self).arrival(line@, now),
            ),
            old(self).window@.decision(
                old(self).config.limit as nat,
                old(self).config.window as nat,
                old(self).arrival(line@, now),
            ) == Decision::Accept <==> verdict == Verdict::Accept,
            verdict matches Verdict::Discard { notice } ==> match notice {
                Some(text) => old(self).config.verbose && text@ == discard_text(
                    final(self).window.count as nat,
                    old(self).config.limit as nat,
                    line@,
                ),
                None => !old(self).config.verbose,
            },
    {
        let units = count_fragments(measure(line), self.config.max_event_length);
        match self.window.observe(self.config.limit, self.config.window, units, now) {
            Decision::Accept => Verdict::Accept,
            Decision::Discard => {
                let notice = if self.config.verbose {
                    Some(discard_notice(self.window.count, self.config.limit, line))
                } else {
                    None
                };
                Verdict::Discard { notice }
            },
        }
    }

    /// Renders the messages for a raw line, one for each fragment of its
    /// content, in order, all with the time `unix_secs` and the current
    /// correlation ID.
    pub fn emit(&self, line: &[u8], unix_secs: u64) -> (messages: Vec<Vec<u8>>)
        requires
            self.wf(),
        ensures
            messages@.len() == line_messages(self.config, self.id, unix_secs, line@).len(),
            forall|k: int|
                0 <= k < messages@.len() ==> (#[trigger] messages@[k])@ == line_messages(
                    self.config,
                    self.id,
                    unix_secs,
                    line@,
                )[k],
    {
        let len = measure(line);
        let ranges = split(len, self.config.max_event_length);
        let total = ranges.len();
        let mut messages: Vec<Vec<u8>> = Vec::new();
        let mut n: usize = 0;
        while n < total
            invariant
                n <= total,
                total == ranges@.len(),
                total == fragment_count(len as nat, self.config.max_event_length as nat),
                len == logical_length(line@),
                len <= line@.len(),
                forall|k: int|
                    0 <= k < total ==> ((#[trigger] ranges@[k]).0 as int, ranges@[k].1 as int)
                        == fragments(len as nat, self.config.max_event_length as nat)[k],
                self.config.max_event_length > 0,
                messages@.len() == n,
                forall|k: int|
                    0 <= k < n ==> (#[trigger] messages@[k])@ == line_message(
                        self.config,
                        self.id,
                        unix_secs,
                        line@,
                        k,
                    ),
            decreases total - n,
        {
            let (start, end) = ranges[n];
            proof {
                lemma_fragment_bounds(len as nat, self.config.max_event_length as nat, n as int);
            }
            let header = if total > 1 {
                Some(Header { id: self.id, seq: n + 1, total })
            } else {
                None
            };
            let chunk = &line[start..end];
            let message = format_message(
                self.config.plugin.as_str(),
                self.config.ctype.as_str(),
                self.config.hostname.as_str(),
                unix_secs,
                header,
                chunk,
            );
            messages.push(message);
            n += 1;
        }
        messages
    }

    /// Moves on to the next correlation ID once the `total` messages of a
    /// line are written: to the ID after the current one, and to 1 after the
    /// largest, where the line was cut into more than one fragment; else the
    /// ID stays. The settings and the limiter's window stay.
    pub fn advance(&mut self, total: usize)
        requires
            old(self).wf(),
            total > 1 ==> old(self).config.max_event_id > 0,
        ensures
            final(self).wf(),
            final(self).config == old(self).config,
            final(self).window == old(self).window,
            final(self).id == next_id(
                old(self).id as nat,
                total as nat,
                old(self).config.max_event_id as nat,
            ),
            total > 1 ==> 1 <= final(self).id <= old(self).config.max_event_id,
    {
        if total > 1 {
            self.id = self.id % self.config.max_event_id + 1;
        }
    }
}

/// A line that fits into one message carries no header. Every message of a
/// line cut into several fragments carries one, with the ID of the line, the
/// number of the fragment counted from 1, and the number of fragments.
pub proof fn lemma_correlation(id: u64, k: int, total: nat)
    requires
        0 <= k < total <= usize::MAX,
    ensures
        total == 1 ==> correlation(id, k, total) is None,
        total > 1 ==> (correlation(id, k, total) matches Some(h) && h.id == id && h.seq == k + 1
            && 1 <= h.seq <= h.total && h.total == total),
{
}

/// Correlation IDs run in a cycle from 1 to the largest ID. After any
/// sequence of lines the ID is the number of lines that were cut into more
/// than one fragment, taken modulo the largest ID, plus 1: so the first such
/// line carries 1, and the `n`-th carries `(n - 1) % max + 1`. A line of one
/// fragment or none leaves the ID as it is.
pub proof fn lemma_id_cycle(totals: Seq<nat>, max: nat)
    requires
        max > 0,
    ensures
        id_after(totals, max) == cut_lines(totals) % max + 1,
        1 <= id_after(totals, max) <= max,
        totals.len() > 0 && totals.last() > 1 ==> id_after(totals.drop_last(), max) == (cut_lines(
            totals,
        ) - 1) % (max as int) + 1,
        totals.len() > 0 && totals.last() <= 1 ==> id_after(totals, max) == id_after(
            totals.drop_last(),
            max,
        ),
    decreases totals.len(),
{
    if totals.len() > 0 {
        let before = totals.drop_last();
        lemma_id_cycle(before, max);
        let c = cut_lines(before);
        assert((c % max + 1) % max == (c + 1) % max) by (nonlinear_arith)
            requires
                max > 0,
        ;
    } else {
        assert(0nat % max == 0) by (nonlinear_arith)
            requires
                max > 0,
        ;
    }
    assert(0 <= cut_lines(totals) % max < max) by (nonlinear_arith)
        requires
            max > 0,
    ;
}

} // verus!
