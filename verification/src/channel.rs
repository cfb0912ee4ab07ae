//! The event channel: a bounded or unbounded multi-producer queue drained
//! by one consumer, and the non-blocking delivery discipline on top of it.
//!
//! Producers are never made to wait indefinitely on a slow consumer:
//! `Event::submit` attempts delivery, retries a fixed number of times while
//! the queue is full, then drops the event with a best-effort diagnostic.
//! A disconnected consumer side is terminal and reported at once.

use vstd::prelude::*;
use crate::event::Event;
use std::io::Write;

verus! {

/// How many times a full channel is retried before the event is dropped.
pub const RETRY_BUDGET: u64 = 5;

#[verifier::external_type_specification]
#[verifier::external_body]
#[verifier::reject_recursive_types(T)]
pub struct ExSender<T>(crossbeam_channel::Sender<T>);

#[verifier::external_type_specification]
#[verifier::external_body]
#[verifier::reject_recursive_types(T)]
pub struct ExReceiver<T>(crossbeam_channel::Receiver<T>);

/// The outcome of one non-blocking delivery attempt. On failure the event
/// comes back to the caller untouched.
pub enum TrySendOutcome {
    /// The event is now in the queue.
    Sent,
    /// The queue was at capacity; the event is handed back.
    Full(Event),
    /// The consumer side is gone; the event is handed back.
    Disconnected(Event),
}

/// The outcome of one non-blocking poll of the channel.
pub enum Polled {
    /// The oldest queued event.
    Received(Event),
    /// Nothing queued right now.
    Empty,
    /// All producers are gone and the queue is drained; terminal.
    Disconnected,
}

/// Relies on crossbeam_channel::bounded: a queue holding at most `cap`
/// events. `cap` is kept modest because the call allocates the slots up
/// front and panics when that is impossibly large.
#[verifier::external_body]
pub fn channel_bounded(cap: usize) -> (r: (
    crossbeam_channel::Sender<Event>,
    crossbeam_channel::Receiver<Event>,
))
    requires
        1 <= cap <= 0x0100_0000,
{
    crossbeam_channel::bounded(cap)
}

/// Relies on crossbeam_channel::unbounded: a queue without a capacity
/// bound; `try_send` on it never reports `Full`.
#[verifier::external_body]
pub fn channel_unbounded() -> (r: (
    crossbeam_channel::Sender<Event>,
    crossbeam_channel::Receiver<Event>,
))
{
    crossbeam_channel::unbounded()
}

/// Relies on crossbeam_channel::Sender::try_send: delivers without
/// blocking, or reports the queue full or disconnected; the returned error
/// contains the original message, handed back here unchanged.
#[verifier::external_body]
fn try_send(tx: &crossbeam_channel::Sender<Event>, event: Event) -> (r: TrySendOutcome)
    ensures
        r is Full ==> r->Full_0 == event,
        r is Disconnected ==> r->Disconnected_0 == event,
{
    match tx.try_send(event) {
        Ok(()) => TrySendOutcome::Sent,
        Err(crossbeam_channel::TrySendError::Full(v)) => TrySendOutcome::Full(v),
        Err(crossbeam_channel::TrySendError::Disconnected(v)) => TrySendOutcome::Disconnected(v),
    }
}

/// Relies on crossbeam_channel::Receiver::try_recv: takes one queued event
/// without blocking, or reports the queue empty or disconnected.
#[verifier::external_body]
pub fn try_recv(rx: &crossbeam_channel::Receiver<Event>) -> (r: Polled) {
    match rx.try_recv() {
        Ok(e) => Polled::Received(e),
        Err(crossbeam_channel::TryRecvError::Empty) => Polled::Empty,
        Err(crossbeam_channel::TryRecvError::Disconnected) => Polled::Disconnected,
    }
}

/// Relies on std::io::Write::write_fmt on stderr: the best-effort
/// diagnostic emitted when an event is dropped.
#[verifier::external_body]
fn report_drop() {
    let _ = writeln!(std::io::stderr(), "[kairoi] failed to submit event to event queue");
}

/// What became of a submitted event.
pub enum SubmitOutcome {
    /// Delivered into the queue.
    Delivered,
    /// The queue stayed full through the initial attempt and this many
    /// retries; the event was dropped and a diagnostic emitted.
    Dropped(u64),
    /// The consumer side is gone; terminal for the dispatch engine.
    Disconnected,
}

/// One decision of the delivery loop.
pub enum SubmitStep {
    /// The attempt settled the submission: report this outcome.
    Finished(SubmitOutcome),
    /// The queue was full and budget remains: try this event again, with
    /// the retry count so far.
    Retry(Event, u64),
}

/// The delivery discipline, one channel answer at a time: success and
/// disconnection settle the submission at once; a full queue is retried
/// while the budget lasts and dropped when it is spent.
pub fn submit_step(outcome: TrySendOutcome, retries: u64) -> (s: SubmitStep)
    requires
        retries <= RETRY_BUDGET,
    ensures
        outcome is Sent ==> s == SubmitStep::Finished(SubmitOutcome::Delivered),
        outcome is Disconnected ==> s == SubmitStep::Finished(SubmitOutcome::Disconnected),
        outcome is Full && retries == RETRY_BUDGET ==> s == SubmitStep::Finished(
            SubmitOutcome::Dropped(RETRY_BUDGET),
        ),
        outcome is Full && retries < RETRY_BUDGET ==> s == SubmitStep::Retry(
            outcome->Full_0,
            (retries + 1) as u64,
        ),
{
    match outcome {
        TrySendOutcome::Sent => SubmitStep::Finished(SubmitOutcome::Delivered),
        TrySendOutcome::Disconnected(_) => SubmitStep::Finished(SubmitOutcome::Disconnected),
        TrySendOutcome::Full(event) => {
            if retries == RETRY_BUDGET {
                SubmitStep::Finished(SubmitOutcome::Dropped(RETRY_BUDGET))
            } else {
                SubmitStep::Retry(event, retries + 1)
            }
        },
    }
}

impl Event {
    /// Attempts delivery into the channel. While the queue is full the
    /// attempt is repeated, `RETRY_BUDGET` retries in all, then the event
    /// is dropped and reported to stderr; the caller is never blocked
    /// beyond that budget. A disconnected consumer side fails immediately.
    pub fn submit(self, tx: &crossbeam_channel::Sender<Event>) -> (r: SubmitOutcome)
        ensures
            r is Dropped ==> r->Dropped_0 == RETRY_BUDGET,
    {
        let mut event = self;
        let mut retries: u64 = 0;
        loop
            invariant
                retries <= RETRY_BUDGET,
            decreases RETRY_BUDGET - retries,
        {
            let answer = try_send(tx, event);
            match submit_step(answer, retries) {
                SubmitStep::Finished(outcome) => {
                    if let SubmitOutcome::Dropped(_) = outcome {
                        report_drop();
                    }
                    return outcome;
                },
                SubmitStep::Retry(v, n) => {
                    event = v;
                    retries = n;
                },
            }
        }
    }
}

/// Builds the log event for the calling task: stamped exactly with the
/// given time, level and message, and with the resolved current span — the
/// context itself when it is live, the root when there is none. A stale
/// context is a contract violation and is refused, never attributed to a
/// wrong span.
pub fn build_log_event(
    tree: &crate::node::Tree<crate::span::Span>,
    context: Option<crate::node::Id>,
    now_ms: u64,
    level: crate::event::Level,
    message: String,
) -> (r: Result<Event, crate::span::StaleContext>)
    requires
        crate::node::tree_wf(tree@),
    ensures
        (r is Err) == (context is Some && !(((context->0).0 as int) < tree@.len()
            && crate::node::attached(tree@, (context->0).0 as int))),
        r is Ok ==> r->Ok_0 == (Event::Log(
            crate::event::Log {
                timestamp: now_ms,
                level,
                message,
                span: match context {
                    Some(c) => c,
                    None => crate::node::Id(0usize),
                },
            },
        )),
{
    match crate::span::resolve_current(tree, context) {
        Ok(span) => Ok(Event::log(now_ms, level, message, span)),
        Err(stale) => Err(stale),
    }
}

/// The logging call surface: builds the log event for the calling task and
/// submits it. The event handed to the channel is exactly the one
/// `build_log_event` fixes; the delivery discipline is `submit`'s.
pub fn log_event(
    tree: &crate::node::Tree<crate::span::Span>,
    context: Option<crate::node::Id>,
    now_ms: u64,
    level: crate::event::Level,
    message: String,
    tx: &crossbeam_channel::Sender<Event>,
) -> (r: Result<SubmitOutcome, crate::span::StaleContext>)
    requires
        crate::node::tree_wf(tree@),
    ensures
        (r is Err) == (context is Some && !(((context->0).0 as int) < tree@.len()
            && crate::node::attached(tree@, (context->0).0 as int))),
        r is Ok && r->Ok_0 is Dropped ==> r->Ok_0->Dropped_0 == RETRY_BUDGET,
{
    match build_log_event(tree, context, now_ms, level, message) {
        Ok(event) => Ok(event.submit(tx)),
        Err(stale) => Err(stale),
    }
}

} // verus!
