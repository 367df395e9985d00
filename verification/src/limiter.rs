//! Rate limiting over a time window.
//!
//! The limiter counts fragments, not lines. The count starts again at zero
//! with the first line that arrives once the window's length has passed
//! since the window was opened, and that line opens the next window. A line
//! is counted before it is judged, so a line that is discarded uses up quota
//! as well.

use crate::clock::Moment;
use vstd::prelude::*;

verus! {

/// Whether a line goes on to be emitted.
#[derive(Clone, Copy, Debug, PartialEq, Eq)]
pub enum Decision {
    /// The count that includes the line is within the limit, or there is no
    /// limit.
    Accept,
    /// The count that includes the line is over the limit.
    Discard,
}

/// The state of the limiter: when the current window was opened, and the
/// fragments counted in it.
#[derive(Clone, Copy, Debug, PartialEq, Eq)]
pub struct RateWindow {
    /// When the window was opened.
    pub start: Moment,
    /// The fragments of all lines that arrived in the window.
    pub count: usize,
}

/// The limiter's state with a count that has no upper bound.
pub struct WindowModel {
    pub start: Moment,
    pub count: nat,
}

/// A line as the limiter sees it: its number of fragments, and when it came.
pub struct Arrival {
    pub units: nat,
    pub now: Moment,
}

impl View for RateWindow {
    type V = WindowModel;

    open spec fn view(&self) -> WindowModel {
        WindowModel { start: self.start, count: self.count as nat }
    }
}

impl WindowModel {
    /// Whether the window is over at `now`: at least `window_secs` whole
    /// seconds have passed since it was opened.
    pub open spec fn expired(self, window_secs: nat, now: Moment) -> bool {
        now.seconds_since(self.start) >= window_secs
    }

    /// The count that a line arriving at `now` adds to.
    pub open spec fn carried(self, window_secs: nat, now: Moment) -> nat {
        if self.expired(window_secs, now) {
            0
        } else {
            self.count
        }
    }

    /// The window in which a line arriving at `now` is counted.
    pub open spec fn opened(self, window_secs: nat, now: Moment) -> Moment {
        if self.expired(window_secs, now) {
            now
        } else {
            self.start
        }
    }

    /// The state after a line of `units` fragments has arrived at `now`.
    pub open spec fn after(self, window_secs: nat, line: Arrival) -> WindowModel {
        WindowModel {
            start: self.opened(window_secs, line.now),
            count: self.carried(window_secs, line.now) + line.units,
        }
    }

    /// The decision on a line, taken on the count that includes the line. A
    /// limit of zero switches the limiter off.
    pub open spec fn decision(self, limit: nat, window_secs: nat, line: Arrival) -> Decision {
        if limit > 0 && self.after(window_secs, line).count > limit {
            Decision::Discard
        } else {
            Decision::Accept
        }
    }

    /// The state after the lines of `lines` have arrived in order.
    pub open spec fn after_all(self, window_secs: nat, lines: Seq<Arrival>) -> WindowModel
        decreases lines.len(),
    {
        if lines.len() == 0 {
            self
        } else {
            self.after_all(window_secs, lines.drop_last()).after(window_secs, lines.last())
        }
    }

    /// The decision on the last line of `lines`, which arrive in order.
    pub open spec fn last_decision(self, limit: nat, window_secs: nat, lines: Seq<Arrival>) -> Decision
        recommends
            lines.len() > 0,
    {
        self.after_all(window_secs, lines.drop_last()).decision(limit, window_secs, lines.last())
    }
}

/// The fragments of all lines of `lines` together.
pub open spec fn total_units(lines: Seq<Arrival>) -> nat
    decreases lines.len(),
{
    if lines.len() == 0 {
        0
    } else {
        total_units(lines.drop_last()) + lines.last().units
    }
}

impl RateWindow {
    /// A window opened at `now`, with nothing counted.
    pub fn new(now: Moment) -> (window: RateWindow)
        ensures
            window@ == (WindowModel { start: now, count: 0 }),
    {
        RateWindow { start: now, count: 0 }
    }

    /// The number of fragments that a line arriving at `now` may have without
    /// the count leaving the range of `usize`.
    pub fn room(&self, window_secs: u64, now: Moment) -> (room: usize)
        ensures
            room == usize::MAX - self@.carried(window_secs as nat, now),
    {
        if now.whole_seconds_since(&self.start) >= window_secs as u128 {
            usize::MAX
        } else {
            usize::MAX - self.count
        }
    }

    /// Counts a line of `units` fragments that arrives at `now`, and decides
    /// on it. Where the window is over, the line opens a new one first. The
    /// line is counted whatever the decision.
    pub fn observe(&mut self, limit: usize, window_secs: u64, units: usize, now: Moment) -> (decision:
        Decision)
        requires
            old(self)@.carried(window_secs as nat, now) + units <= usize::MAX,
        ensures
            final(self)@ == old(self)@.after(
                window_secs as nat,
                Arrival { units: units as nat, now },
            ),
            decision == old(self)@.decision(
                limit as nat,
                window_secs as nat,
                Arrival { units: units as nat, now },
            ),
    {
        if now.whole_seconds_since(&self.start) >= window_secs as u128 {
            self.count = 0;
            self.start = now;
        }
        self.count = self.count + units;
        if limit > 0 && self.count > limit {
            Decision::Discard
        } else {
            Decision::Accept
        }
    }
}

/// Within one window the count is the count at its start plus the fragments
/// of every line since, and a line is discarded exactly when the count that
/// includes it is over the limit.
pub proof fn lemma_decisions_within_window(
    window: WindowModel,
    limit: nat,
    window_secs: nat,
    lines: Seq<Arrival>,
)
    requires
        forall|i: int| 0 <= i < lines.len() ==> !window.expired(window_secs, (#[trigger] lines[i]).now),
    ensures
        window.after_all(window_secs, lines) == (WindowModel {
            start: window.start,
            count: window.count + total_units(lines),
        }),
        lines.len() > 0 ==> (window.last_decision(limit, window_secs, lines) == Decision::Discard
            <==> limit > 0 && window.count + total_units(lines) > limit),
    decreases lines.len(),
{
    if lines.len() > 0 {
        let before = lines.drop_last();
        assert forall|i: int| 0 <= i < before.len() implies !window.expired(
            window_secs,
            (#[trigger] before[i]).now,
        ) by {
            assert(before[i] == lines[i]);
        }
        lemma_decisions_within_window(window, limit, window_secs, before);
    }
}

/// The fragments of the first lines of a sequence are no more than those of
/// all its lines.
pub proof fn lemma_total_units_grows(lines: Seq<Arrival>, n: int)
    requires
        0 <= n <= lines.len(),
    ensures
        total_units(lines.take(n)) <= total_units(lines),
    decreases lines.len(),
{
    if n < lines.len() {
        assert(lines.drop_last().take(n) =~= lines.take(n));
        lemma_total_units_grows(lines.drop_last(), n);
    } else {
        assert(lines.take(n) =~= lines);
    }
}

/// Once the fragments counted in a window are over the limit, every further
/// line that arrives before the window is over is discarded.
pub proof fn lemma_exhausted_window_discards(
    window: WindowModel,
    limit: nat,
    window_secs: nat,
    lines: Seq<Arrival>,
    over: int,
)
    requires
        limit > 0,
        forall|i: int| 0 <= i < lines.len() ==> !window.expired(window_secs, (#[trigger] lines[i]).now),
        0 <= over <= lines.len(),
        window.count + total_units(lines.take(over)) > limit,
    ensures
        forall|k: int|
            over <= k <= lines.len() && k > 0 ==> #[trigger] window.last_decision(
                limit,
                window_secs,
                lines.take(k),
            ) == Decision::Discard,
{
    assert forall|k: int| over <= k <= lines.len() && k > 0 implies #[trigger] window.last_decision(
        limit,
        window_secs,
        lines.take(k),
    ) == Decision::Discard by {
        let upto = lines.take(k);
        assert forall|i: int| 0 <= i < upto.len() implies !window.expired(
            window_secs,
            (#[trigger] upto[i]).now,
        ) by {
            assert(upto[i] == lines[i]);
        }
        lemma_decisions_within_window(window, limit, window_secs, upto);
        assert(upto.take(over) =~= lines.take(over));
        lemma_total_units_grows(upto, over);
    }
}

/// The first line that arrives once the window is over opens a new window:
/// nothing counted before weighs on it, and it is discarded only where its
/// own fragments are over the limit.
pub proof fn lemma_window_reopens(window: WindowModel, limit: nat, window_secs: nat, line: Arrival)
    requires
        window.expired(window_secs, line.now),
    ensures
        window.after(window_secs, line) == (WindowModel { start: line.now, count: line.units }),
        window.decision(limit, window_secs, line) == Decision::Discard <==> limit > 0 && line.units
            > limit,
{
}

} // verus!
