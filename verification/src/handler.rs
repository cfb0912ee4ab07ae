//! The dispatch engine: owns the registered consumers, drains the event
//! channel into them, and tick-drives them at a bounded rate. A consumer
//! whose `handle` or `tick` fails is removed for good and its error
//! recorded; the engine keeps serving the remaining consumers and reports
//! the aggregate when it stops.

use vstd::prelude::*;
use vstd::string::StringExecFns;
use crate::channel::Polled;
use crate::format::spec_decimal;
use crate::format::to_decimal;
use crate::channel::try_recv;
use crate::event::Event;
use crate::node::Tree;
use crate::span::Span;

verus! {

/// Tick rate used when the builder is not told otherwise, in ticks per
/// second.
pub const DEFAULT_FPS: u32 = 15;

/// How many queued events one `step` drains at most before it checks the
/// tick clock again.
pub const MAX_EVENTS_PER_STEP: usize = 1024;

/// A consumer of events and periodic ticks. `handle` reacts to one event;
/// `tick` is invoked at the bounded tick rate with the current tree root,
/// typically to render or export state. Side effects are consumer-local.
/// Either operation returning an error permanently deregisters the
/// consumer.
pub trait Handler {
    fn handle(&self, event: &Event) -> Result<(), String>;

    fn tick(&self, root: &Tree<Span>) -> Result<(), String>;
}

/// The subsequence of `s` selected by a mask: element `i` is kept exactly
/// where `kept[i]` is true, in order.
pub open spec fn mask_filter<A>(s: Seq<A>, kept: Seq<bool>) -> Seq<A>
    decreases s.len(),
{
    if s.len() == 0 {
        Seq::empty()
    } else if kept[0] {
        seq![s[0]] + mask_filter(s.drop_first(), kept.drop_first())
    } else {
        mask_filter(s.drop_first(), kept.drop_first())
    }
}

proof fn lemma_mask_filter_push<A>(s: Seq<A>, m: Seq<bool>, x: A, b: bool)
    requires
        s.len() == m.len(),
    ensures
        mask_filter(s.push(x), m.push(b)) == if b {
            mask_filter(s, m).push(x)
        } else {
            mask_filter(s, m)
        },
    decreases s.len(),
{
    if s.len() == 0 {
        assert(s.push(x)[0] == x);
        assert(m.push(b)[0] == b);
        assert(s.push(x).drop_first() =~= Seq::<A>::empty());
        assert(m.push(b).drop_first() =~= Seq::<bool>::empty());
        assert(mask_filter(Seq::<A>::empty(), Seq::<bool>::empty()) == Seq::<A>::empty());
        assert(s =~= Seq::<A>::empty());
        assert(m =~= Seq::<bool>::empty());
        if b {
            assert(mask_filter(s.push(x), m.push(b)) == seq![x] + Seq::<A>::empty());
            assert(seq![x] + Seq::<A>::empty() =~= Seq::<A>::empty().push(x));
        } else {
            assert(mask_filter(s.push(x), m.push(b)) == Seq::<A>::empty());
        }
    } else {
        assert(s.push(x).drop_first() =~= s.drop_first().push(x));
        assert(m.push(b).drop_first() =~= m.drop_first().push(b));
        lemma_mask_filter_push(s.drop_first(), m.drop_first(), x, b);
        assert(s.push(x)[0] == s[0]);
        assert(m.push(b)[0] == m[0]);
        if b {
            if m[0] {
                assert(mask_filter(s.push(x), m.push(b)) =~= mask_filter(s, m).push(x));
            } else {
                assert(mask_filter(s.push(x), m.push(b)) =~= mask_filter(s, m).push(x));
            }
        } else {
            if m[0] {
                assert(mask_filter(s.push(x), m.push(b)) =~= mask_filter(s, m));
            } else {
                assert(mask_filter(s.push(x), m.push(b)) =~= mask_filter(s, m));
            }
        }
    }
}

/// The dispatch engine state: live consumers in registration order, the
/// errors of consumers removed so far, the tick pacing, and whether the
/// channel has disconnected (terminal).
pub struct Engine<H> {
    pub handlers: Vec<H>,
    pub errors: Vec<String>,
    pub tick_interval_ms: u64,
    pub last_tick_ms: u64,
    pub disconnected: bool,
}

/// What the loop driving the engine should do after one step.
pub enum StepOutcome {
    /// Events were drained or a tick was delivered; poll again at once.
    Progressed,
    /// Nothing queued and no tick owed; sleep briefly to avoid spinning.
    Idle,
    /// The channel is disconnected; the loop must stop.
    Stopped,
}

/// What the engine surfaces to its owner when it stops: whether the channel
/// disconnected, and the recorded error of every consumer that was removed.
pub struct AggregatedError {
    pub disconnected: bool,
    pub errors: Vec<String>,
}

/// The numbered failure lines of an aggregate, up to entry `k`: entry `i`
/// (1-based) reads `- i/n: <error>` on a line of its own, in collection
/// order.
pub open spec fn spec_error_lines(errors: Seq<String>, k: int) -> Seq<char>
    decreases k,
{
    if k <= 0 {
        Seq::<char>::empty()
    } else {
        spec_error_lines(errors, k - 1) + "\n- "@ + spec_decimal(k as nat) + "/"@ + spec_decimal(
            errors.len(),
        ) + ": "@ + errors[k - 1]@
    }
}

/// The full aggregate message: a heading with the failure count, one
/// numbered line per recorded failure, and the terminal condition when the
/// channel disconnected.
pub open spec fn spec_aggregate_text(disconnected: bool, errors: Seq<String>) -> Seq<char> {
    "Aggregated error(s) (total "@ + spec_decimal(errors.len()) + ")"@ + spec_error_lines(
        errors,
        errors.len() as int,
    ) + (if disconnected {
        "\nChannel has been disconnected"@
    } else {
        Seq::<char>::empty()
    })
}

impl AggregatedError {
    /// How many consumer failures the aggregate holds.
    pub fn total(&self) -> (n: usize)
        ensures
            n as int == self.errors@.len(),
    {
        self.errors.len()
    }

    /// The human-readable account of everything the engine aggregated,
    /// exactly as `spec_aggregate_text` lays it out.
    pub fn describe(&self) -> (r: String)
        ensures
            r@ == spec_aggregate_text(self.disconnected, self.errors@),
    {
        let n = self.errors.len();
        let total = to_decimal(n as u64);
        let mut s = String::from_str("Aggregated error(s) (total ");
        s.append(total.as_str());
        s.append(")");
        proof {
            assert(spec_error_lines(self.errors@, 0) == Seq::<char>::empty());
            assert(s@ =~= "Aggregated error(s) (total "@ + spec_decimal(self.errors@.len())
                + ")"@ + spec_error_lines(self.errors@, 0));
        }
        let mut i: usize = 0;
        while i < n
            invariant
                n as int == self.errors@.len(),
                i <= n,
                total@ == spec_decimal(self.errors@.len()),
                s@ == "Aggregated error(s) (total "@ + spec_decimal(self.errors@.len()) + ")"@
                    + spec_error_lines(self.errors@, i as int),
            decreases n - i,
        {
            s.append("\n- ");
            let num = to_decimal((i + 1) as u64);
            s.append(num.as_str());
            s.append("/");
            s.append(total.as_str());
            s.append(": ");
            s.append(self.errors[i].as_str());
            i += 1;
            proof {
                assert(s@ =~= "Aggregated error(s) (total "@ + spec_decimal(self.errors@.len())
                    + ")"@ + spec_error_lines(self.errors@, i as int));
            }
        }
        if self.disconnected {
            s.append("\nChannel has been disconnected");
        }
        proof {
            assert(s@ =~= spec_aggregate_text(self.disconnected, self.errors@));
        }
        s
    }
}

impl<H: Handler> Engine<H> {
    /// What one consumer's answer does to the engine: `Ok` leaves the
    /// engine exactly as it was; `Err` removes that consumer for good and
    /// records exactly the returned message. Both dispatchers apply every
    /// answer through this function.
    pub fn apply_outcome(&mut self, i: usize, outcome: Result<(), String>)
        requires
            (i as int) < old(self).handlers@.len(),
        ensures
            outcome is Ok ==> *final(self) == *old(self),
            outcome is Err ==> final(self).handlers@ == old(self).handlers@.remove(i as int)
                && final(self).errors@ == old(self).errors@.push(outcome->Err_0),
            final(self).tick_interval_ms == old(self).tick_interval_ms,
            final(self).last_tick_ms == old(self).last_tick_ms,
            final(self).disconnected == old(self).disconnected,
    {
        match outcome {
            Ok(()) => {},
            Err(msg) => {
                self.handlers.remove(i);
                self.errors.push(msg);
            },
        }
    }

    /// Hands one event to every live consumer in registration order. A
    /// consumer whose `handle` errs is removed for good and its error
    /// recorded; the others are unaffected and keep their order (fault
    /// isolation). The tick clock is untouched.
    pub fn dispatch_event(&mut self, event: &Event)
        ensures
            exists|kept: Seq<bool>|
                kept.len() == old(self).handlers@.len() && final(self).handlers@ == mask_filter(
                    old(self).handlers@,
                    kept,
                ),
            final(self).handlers@.len() <= old(self).handlers@.len(),
            final(self).errors@.len() == old(self).errors@.len() + old(self).handlers@.len()
                - final(self).handlers@.len(),
            forall|k: int|
                0 <= k < old(self).errors@.len() ==> final(self).errors@[k] == old(
                    self,
                ).errors@[k],
            final(self).tick_interval_ms == old(self).tick_interval_ms,
            final(self).last_tick_ms == old(self).last_tick_ms,
            final(self).disconnected == old(self).disconnected,
    {
        let ghost h0 = self.handlers@;
        let ghost e0 = self.errors@;
        let ghost mut kept: Seq<bool> = Seq::empty();
        let mut i: usize = 0;
        while i < self.handlers.len()
            invariant
                kept.len() <= h0.len(),
                i as int <= kept.len(),
                i as int == mask_filter(h0.take(kept.len() as int), kept).len(),
                self.handlers@ == mask_filter(h0.take(kept.len() as int), kept) + h0.skip(
                    kept.len() as int,
                ),
                self.errors@.len() == e0.len() + kept.len() - i as int,
                forall|k: int| 0 <= k < e0.len() ==> self.errors@[k] == e0[k],
                self.tick_interval_ms == old(self).tick_interval_ms,
                self.last_tick_ms == old(self).last_tick_ms,
                self.disconnected == old(self).disconnected,
            decreases h0.len() - kept.len(),
        {
            let ghost processed = kept.len() as int;
            let ghost filtered = mask_filter(h0.take(processed), kept);
            proof {
                assert(self.handlers@[i as int] == h0.skip(processed)[0]);
                assert(h0.skip(processed)[0] == h0[processed]);
                assert(h0.take(processed + 1) =~= h0.take(processed).push(h0[processed]));
            }
            let r = self.handlers[i].handle(event);
            let ok = r.is_ok();
            self.apply_outcome(i, r);
            if ok {
                proof {
                    lemma_mask_filter_push(h0.take(processed), kept, h0[processed], true);
                    kept = kept.push(true);
                    assert(self.handlers@ =~= mask_filter(h0.take(processed + 1), kept) + h0.skip(
                        processed + 1,
                    ));
                }
                i += 1;
            } else {
                proof {
                    lemma_mask_filter_push(h0.take(processed), kept, h0[processed], false);
                    kept = kept.push(false);
                    assert(self.handlers@ =~= mask_filter(h0.take(processed + 1), kept) + h0.skip(
                        processed + 1,
                    ));
                }
            }
        }
        proof {
            assert(h0.skip(kept.len() as int).len() == 0);
            assert(kept.len() == h0.len());
            assert(h0.take(kept.len() as int) =~= h0);
        }
    }

    /// Hands the current tree root to every live consumer's `tick`, with
    /// the same fault isolation as `dispatch_event`. The tick clock itself
    /// is advanced by the caller.
    pub fn dispatch_tick(&mut self, root: &Tree<Span>)
        ensures
            exists|kept: Seq<bool>|
                kept.len() == old(self).handlers@.len() && final(self).handlers@ == mask_filter(
                    old(self).handlers@,
                    kept,
                ),
            final(self).handlers@.len() <= old(self).handlers@.len(),
            final(self).errors@.len() == old(self).errors@.len() + old(self).handlers@.len()
                - final(self).handlers@.len(),
            forall|k: int|
                0 <= k < old(self).errors@.len() ==> final(self).errors@[k] == old(
                    self,
                ).errors@[k],
            final(self).tick_interval_ms == old(self).tick_interval_ms,
            final(self).last_tick_ms == old(self).last_tick_ms,
            final(self).disconnected == old(self).disconnected,
    {
        let ghost h0 = self.handlers@;
        let ghost e0 = self.errors@;
        let ghost mut kept: Seq<bool> = Seq::empty();
        let mut i: usize = 0;
        while i < self.handlers.len()
            invariant
                kept.len() <= h0.len(),
                i as int <= kept.len(),
                i as int == mask_filter(h0.take(kept.len() as int), kept).len(),
                self.handlers@ == mask_filter(h0.take(kept.len() as int), kept) + h0.skip(
                    kept.len() as int,
                ),
                self.errors@.len() == e0.len() + kept.len() - i as int,
                forall|k: int| 0 <= k < e0.len() ==> self.errors@[k] == e0[k],
                self.tick_interval_ms == old(self).tick_interval_ms,
                self.last_tick_ms == old(self).last_tick_ms,
                self.disconnected == old(self).disconnected,
            decreases h0.len() - kept.len(),
        {
            let ghost processed = kept.len() as int;
            proof {
                assert(self.handlers@[i as int] == h0.skip(processed)[0]);
                assert(h0.skip(processed)[0] == h0[processed]);
                assert(h0.take(processed + 1) =~= h0.take(processed).push(h0[processed]));
            }
            let r = self.handlers[i].tick(root);
            let ok = r.is_ok();
            self.apply_outcome(i, r);
            if ok {
                proof {
                    lemma_mask_filter_push(h0.take(processed), kept, h0[processed], true);
                    kept = kept.push(true);
                    assert(self.handlers@ =~= mask_filter(h0.take(processed + 1), kept) + h0.skip(
                        processed + 1,
                    ));
                }
                i += 1;
            } else {
                proof {
                    lemma_mask_filter_push(h0.take(processed), kept, h0[processed], false);
                    kept = kept.push(false);
                    assert(self.handlers@ =~= mask_filter(h0.take(processed + 1), kept) + h0.skip(
                        processed + 1,
                    ));
                }
            }
        }
        proof {
            assert(h0.skip(kept.len() as int).len() == 0);
            assert(kept.len() == h0.len());
            assert(h0.take(kept.len() as int) =~= h0);
        }
    }

    /// Whether a tick is owed at time `now_ms`: at least one tick interval
    /// has elapsed since the last tick. Ticks are never delivered faster.
    pub fn tick_due(&self, now_ms: u64) -> (r: bool)
        ensures
            r == (now_ms >= self.last_tick_ms + self.tick_interval_ms),
    {
        now_ms >= self.last_tick_ms && now_ms - self.last_tick_ms >= self.tick_interval_ms
    }

    /// One turn of the dispatch loop: drains queued events (a bounded batch)
    /// into the live consumers in arrival order, then delivers one tick if
    /// the interval has elapsed. Never blocks. On channel disconnection the
    /// engine is marked stopped and no further tick is delivered.
    pub fn step(
        &mut self,
        rx: &crossbeam_channel::Receiver<Event>,
        now_ms: u64,
        root: &Tree<Span>,
    ) -> (r: StepOutcome)
        requires
            !old(self).disconnected,
        ensures
            final(self).tick_interval_ms == old(self).tick_interval_ms,
            (r is Stopped) == final(self).disconnected,
            r is Stopped ==> final(self).last_tick_ms == old(self).last_tick_ms,
            !(r is Stopped) ==> final(self).last_tick_ms == (if now_ms >= old(self).last_tick_ms
                + old(self).tick_interval_ms {
                now_ms as int
            } else {
                old(self).last_tick_ms as int
            }),
            final(self).last_tick_ms != old(self).last_tick_ms ==> now_ms >= old(
                self,
            ).last_tick_ms + old(self).tick_interval_ms && final(self).last_tick_ms == now_ms,
            final(self).handlers@.len() <= old(self).handlers@.len(),
            final(self).errors@.len() == old(self).errors@.len() + old(self).handlers@.len()
                - final(self).handlers@.len(),
            forall|k: int|
                0 <= k < old(self).errors@.len() ==> final(self).errors@[k] == old(
                    self,
                ).errors@[k],
    {
        let mut drained: usize = 0;
        let mut done = false;
        let mut disconnected_now = false;
        while drained < MAX_EVENTS_PER_STEP && !done
            invariant
                drained <= MAX_EVENTS_PER_STEP,
                self.tick_interval_ms == old(self).tick_interval_ms,
                self.last_tick_ms == old(self).last_tick_ms,
                self.disconnected == old(self).disconnected,
                !self.disconnected,
                disconnected_now ==> done,
                self.handlers@.len() <= old(self).handlers@.len(),
                self.errors@.len() == old(self).errors@.len() + old(self).handlers@.len()
                    - self.handlers@.len(),
                forall|k: int|
                    0 <= k < old(self).errors@.len() ==> self.errors@[k] == old(self).errors@[k],
            decreases MAX_EVENTS_PER_STEP - drained, (if done { 0int } else { 1int }),
        {
            match try_recv(rx) {
                Polled::Received(e) => {
                    self.dispatch_event(&e);
                    drained += 1;
                },
                Polled::Empty => {
                    done = true;
                },
                Polled::Disconnected => {
                    disconnected_now = true;
                    done = true;
                },
            }
        }
        if disconnected_now {
            self.disconnected = true;
            return StepOutcome::Stopped;
        }
        if self.tick_due(now_ms) {
            self.dispatch_tick(root);
            self.last_tick_ms = now_ms;
            return StepOutcome::Progressed;
        }
        if drained > 0 {
            StepOutcome::Progressed
        } else {
            StepOutcome::Idle
        }
    }

    /// Consumes the engine at shutdown. `Ok` exactly when the channel never
    /// disconnected and every consumer stayed healthy; otherwise the
    /// aggregate carries the terminal condition and every recorded failure.
    pub fn into_result(self) -> (r: Result<(), AggregatedError>)
        ensures
            (r is Ok) == (!self.disconnected && self.errors@.len() == 0),
            r is Err ==> r->Err_0.disconnected == self.disconnected && r->Err_0.errors@
                == self.errors@,
    {
        if self.disconnected || self.errors.len() > 0 {
            Err(AggregatedError { disconnected: self.disconnected, errors: self.errors })
        } else {
            Ok(())
        }
    }
}

/// Collects consumers and a tick rate, then builds the engine state that a
/// dedicated background loop drives.
pub struct GlobalHandlerBuilder<H> {
    pub fps: u32,
    pub handlers: Vec<H>,
}

impl<H: Handler> GlobalHandlerBuilder<H> {
    /// An empty builder at the default tick rate.
    pub fn new() -> (r: Self)
        ensures
            r.fps == DEFAULT_FPS,
            r.handlers@.len() == 0,
    {
        Self { fps: DEFAULT_FPS, handlers: Vec::new() }
    }

    /// Sets the tick rate, in ticks per second. A rate of zero would leave
    /// the tick interval undefined, so it is excluded.
    pub fn fps(self, fps: u32) -> (r: Self)
        requires
            fps >= 1,
        ensures
            r.fps == fps,
            r.handlers@ == self.handlers@,
    {
        Self { fps, handlers: self.handlers }
    }

    /// Registers one more consumer; dispatch order is registration order.
    pub fn handler(self, handler: H) -> (r: Self)
        ensures
            r.fps == self.fps,
            r.handlers@ == self.handlers@.push(handler),
    {
        let mut handlers = self.handlers;
        handlers.push(handler);
        Self { fps: self.fps, handlers }
    }

    /// Builds the engine: tick interval `1000 / fps` milliseconds, no
    /// errors recorded, first tick owed immediately.
    pub fn build(self) -> (r: Engine<H>)
        requires
            self.fps >= 1,
        ensures
            r.handlers@ == self.handlers@,
            r.errors@.len() == 0,
            r.tick_interval_ms == 1000 as u64 / self.fps as u64,
            r.last_tick_ms == 0,
            !r.disconnected,
    {
        let interval: u64 = 1000u64 / (self.fps as u64);
        Engine {
            handlers: self.handlers,
            errors: Vec::new(),
            tick_interval_ms: interval,
            last_tick_ms: 0,
            disconnected: false,
        }
    }
}

impl<H: Handler> Engine<H> {
    /// An empty builder, as the conventional way to configure the engine.
    pub fn builder() -> (r: GlobalHandlerBuilder<H>)
        ensures
            r.fps == DEFAULT_FPS,
            r.handlers@.len() == 0,
    {
        GlobalHandlerBuilder::new()
    }
}

} // verus!
