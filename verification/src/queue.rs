//! The producer side of the dispatch queue.
//!
//! Connection handlers offer each received line to a bounded channel that
//! the worker pool drains.  The offer never blocks: when the channel is
//! full the line is dropped on the floor and only the `dropped` tally
//! grows, so a slow sink can never stall the producers.
use crate::sat_inc;
use vstd::prelude::*;

verus! {

#[verifier::external_type_specification]
#[verifier::external_body]
#[verifier::reject_recursive_types(T)]
pub struct ExSender<T>(flume::Sender<T>);

/// Relies on flume's `Sender::try_send`: it never blocks; it enqueues the
/// message and returns success when the bounded channel has a free slot,
/// and returns immediately with the message refused when the channel is
/// full or all receivers are gone.  Which outcome occurs depends on
/// concurrent consumers, so nothing is promised of the result.
#[verifier::external_body]
fn try_send_line(tx: &flume::Sender<Vec<u8>>, line: Vec<u8>) -> bool {
    tx.try_send(line).is_ok()
}

/// The enqueue adapter handed one line at a time: it owns the sending side
/// of the dispatch queue and the tally of lines dropped on overflow.
pub struct Dispatcher {
    tx: flume::Sender<Vec<u8>>,
    dropped: u64,
}

impl View for Dispatcher {
    type V = int;

    /// The view of a dispatcher is its dropped tally.
    closed spec fn view(&self) -> int {
        self.dropped as int
    }
}

impl Dispatcher {
    /// Wrap the sending side of a channel; nothing dropped yet.
    pub fn new(tx: flume::Sender<Vec<u8>>) -> (d: Dispatcher)
        ensures
            d@ == 0,
    {
        Dispatcher { tx, dropped: 0 }
    }

    /// Offer one line to the queue without blocking.  A refused line is
    /// discarded and counted: the dropped tally grows by one exactly when
    /// the offer is rejected, and is untouched when it is accepted.
    pub fn offer(&mut self, line: Vec<u8>) -> (accepted: bool)
        ensures
            final(self)@ == if accepted {
                old(self)@
            } else {
                sat_inc(old(self)@)
            },
    {
        let ok = try_send_line(&self.tx, line);
        if !ok {
            if self.dropped < 18446744073709551615 {
                self.dropped = self.dropped + 1;
            }
        }
        ok
    }

    /// The tally of lines dropped on overflow so far.
    pub fn dropped(&self) -> (n: u64)
        ensures
            n as int == self@,
    {
        self.dropped
    }
}

/// How many offers of a run were rejected.
pub open spec fn count_rejected(outcomes: Seq<bool>) -> int
    decreases outcomes.len(),
{
    if outcomes.len() == 0 {
        0
    } else {
        count_rejected(outcomes.drop_first()) + if outcomes.first() {
            0int
        } else {
            1int
        }
    }
}

/// The dropped tally after a run of offers with the given outcomes.
pub open spec fn dropped_after(d: int, outcomes: Seq<bool>) -> int
    decreases outcomes.len(),
{
    if outcomes.len() == 0 {
        d
    } else {
        dropped_after(
            if outcomes.first() {
                d
            } else {
                sat_inc(d)
            },
            outcomes.drop_first(),
        )
    }
}

/// Backpressure accounting: over any run of offers, the dropped tally
/// grows by exactly the number of rejected offers (as long as the 64-bit
/// tally cannot saturate).  Each `offer` call never blocks and steps the
/// tally by its own outcome; this law sums the steps.
pub proof fn lemma_dropped_counts_rejections(d: int, outcomes: Seq<bool>)
    requires
        0 <= d,
        d + count_rejected(outcomes) <= u64::MAX,
    ensures
        dropped_after(d, outcomes) == d + count_rejected(outcomes),
    decreases outcomes.len(),
{
    if outcomes.len() > 0 {
        lemma_count_rejected_bounds(outcomes.drop_first());
        if outcomes.first() {
            lemma_dropped_counts_rejections(d, outcomes.drop_first());
        } else {
            lemma_dropped_counts_rejections(d + 1, outcomes.drop_first());
        }
    }
}

pub proof fn lemma_count_rejected_bounds(outcomes: Seq<bool>)
    ensures
        0 <= count_rejected(outcomes) <= outcomes.len(),
    decreases outcomes.len(),
{
    if outcomes.len() > 0 {
        lemma_count_rejected_bounds(outcomes.drop_first());
    }
}

} // verus!
