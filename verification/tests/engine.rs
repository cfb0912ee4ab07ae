use std::cell::Cell;
use std::cell::RefCell;
use std::rc::Rc;

use kairoi::channel::{channel_bounded, channel_unbounded, SubmitOutcome};
use kairoi::event::{Event, Level};
use kairoi::handler::{Engine, Handler, StepOutcome, DEFAULT_FPS};
use kairoi::node::{Id, Tree};
use kairoi::span::Span;

/// Records what it is handed; errs on `handle` call number `fail_on`
/// (1-based), if set.
struct Probe {
    name: &'static str,
    seen: Rc<RefCell<Vec<String>>>,
    handled: Cell<usize>,
    ticked: Cell<usize>,
    fail_on: Option<usize>,
}

impl Probe {
    fn new(name: &'static str, seen: Rc<RefCell<Vec<String>>>, fail_on: Option<usize>) -> Self {
        Probe { name, seen, handled: Cell::new(0), ticked: Cell::new(0), fail_on }
    }
}

fn describe(event: &Event) -> String {
    match event {
        Event::Log(log) => format!("log:{}", log.message()),
        Event::SpanBegin(id) => format!("begin:{}", id.0),
        Event::SpanUpdate(id, data) => format!("update:{}:{}", id.0, data.name()),
        Event::SpanEnd(id) => format!("end:{}", id.0),
    }
}

impl Handler for Probe {
    fn handle(&self, event: &Event) -> Result<(), String> {
        let n = self.handled.get() + 1;
        self.handled.set(n);
        if self.fail_on == Some(n) {
            return Err(format!("{} failed on event {}", self.name, n));
        }
        self.seen.borrow_mut().push(format!("{}:{}", self.name, describe(event)));
        Ok(())
    }

    fn tick(&self, _root: &Tree<Span>) -> Result<(), String> {
        self.ticked.set(self.ticked.get() + 1);
        Ok(())
    }
}

#[test]
fn builder_collects_handlers_and_rate() {
    let seen = Rc::new(RefCell::new(Vec::new()));
    let engine: Engine<Probe> = Engine::builder()
        .fps(10)
        .handler(Probe::new("a", seen.clone(), None))
        .handler(Probe::new("b", seen.clone(), None))
        .build();
    assert_eq!(engine.handlers.len(), 2);
    assert_eq!(engine.tick_interval_ms, 100);
    assert_eq!(engine.last_tick_ms, 0);
    assert!(!engine.disconnected);
    assert_eq!(DEFAULT_FPS, 15);
}

#[test]
fn faulty_consumer_is_isolated_and_counted_once() {
    let seen = Rc::new(RefCell::new(Vec::new()));
    // consumer a fails on its third event; b is healthy
    let mut engine: Engine<Probe> = Engine::builder()
        .fps(1)
        .handler(Probe::new("a", seen.clone(), Some(3)))
        .handler(Probe::new("b", seen.clone(), None))
        .build();

    let (tx, rx) = channel_bounded(64);
    let tree: Tree<Span> = Tree::new(Span::new(0));
    for k in 1..=5usize {
        match Event::span_begin(Id(k)).submit(&tx) {
            SubmitOutcome::Delivered => {}
            _ => panic!("expected delivery"),
        }
        // now_ms stays 0 so no tick interferes with the event record
        match engine.step(&rx, 0, &tree) {
            StepOutcome::Progressed => {}
            _ => panic!("expected progress while events are queued"),
        }
    }

    // a saw events 1 and 2, then was removed on event 3; b saw all five
    let record = seen.borrow().clone();
    let a_events: Vec<&String> = record.iter().filter(|s| s.starts_with("a:")).collect();
    let b_events: Vec<&String> = record.iter().filter(|s| s.starts_with("b:")).collect();
    assert_eq!(a_events, vec!["a:begin:1", "a:begin:2"]);
    assert_eq!(
        b_events,
        vec!["b:begin:1", "b:begin:2", "b:begin:3", "b:begin:4", "b:begin:5"]
    );
    assert_eq!(engine.handlers.len(), 1);
    assert_eq!(engine.errors.len(), 1);
    assert_eq!(engine.errors[0], "a failed on event 3");

    // the final aggregated error mentions exactly one failure
    match engine.into_result() {
        Err(agg) => {
            assert_eq!(agg.total(), 1);
            assert!(!agg.disconnected);
        }
        Ok(()) => panic!("one consumer failed, so the aggregate must report it"),
    }
}

#[test]
fn ticks_run_at_the_configured_rate_and_never_faster() {
    let seen = Rc::new(RefCell::new(Vec::new()));
    let mut engine: Engine<Probe> =
        Engine::builder().fps(10).handler(Probe::new("a", seen, None)).build();
    assert_eq!(engine.tick_interval_ms, 100);

    let (_tx, rx) = channel_unbounded();
    let tree: Tree<Span> = Tree::new(Span::new(0));

    // drive the loop with a simulated clock advancing 25 ms per poll
    let mut tick_times = Vec::new();
    let mut now: u64 = 0;
    while now <= 1000 {
        let before = engine.last_tick_ms;
        match engine.step(&rx, now, &tree) {
            StepOutcome::Stopped => panic!("channel is alive"),
            _ => {}
        }
        if engine.last_tick_ms != before {
            tick_times.push(engine.last_tick_ms);
        }
        now += 25;
    }

    // ten ticks over one second after the first owed one, 100 ms apart
    assert_eq!(tick_times, vec![100, 200, 300, 400, 500, 600, 700, 800, 900, 1000]);
    for pair in tick_times.windows(2) {
        assert!(pair[1] - pair[0] >= 100);
    }
}

#[test]
fn disconnection_stops_the_engine_and_is_terminal() {
    let seen = Rc::new(RefCell::new(Vec::new()));
    let mut engine: Engine<Probe> =
        Engine::builder().handler(Probe::new("a", seen, None)).build();
    let (tx, rx) = channel_unbounded();
    let tree: Tree<Span> = Tree::new(Span::new(0));
    drop(tx);
    match engine.step(&rx, 5000, &tree) {
        StepOutcome::Stopped => {}
        _ => panic!("expected the engine to stop on disconnection"),
    }
    assert!(engine.disconnected);
    match engine.into_result() {
        Err(agg) => {
            assert!(agg.disconnected);
            assert_eq!(agg.total(), 0);
        }
        Ok(()) => panic!("disconnection must be surfaced"),
    }
}

#[test]
fn healthy_shutdown_reports_ok() {
    let seen = Rc::new(RefCell::new(Vec::new()));
    let mut engine: Engine<Probe> =
        Engine::builder().fps(20).handler(Probe::new("a", seen, None)).build();
    let (_tx, rx) = channel_unbounded();
    let tree: Tree<Span> = Tree::new(Span::new(0));
    match engine.step(&rx, 50, &tree) {
        StepOutcome::Progressed => {}
        _ => panic!("a tick was owed at 50 ms"),
    }
    match engine.step(&rx, 60, &tree) {
        StepOutcome::Idle => {}
        _ => panic!("nothing to do ten milliseconds later"),
    }
    assert!(engine.into_result().is_ok());
}

#[test]
fn faulty_tick_also_deregisters_the_consumer() {
    struct BadTick;
    impl Handler for BadTick {
        fn handle(&self, _event: &Event) -> Result<(), String> {
            Ok(())
        }
        fn tick(&self, _root: &Tree<Span>) -> Result<(), String> {
            Err(String::from("render failed"))
        }
    }
    let mut engine: Engine<BadTick> = Engine::builder().fps(10).handler(BadTick).build();
    let (_tx, rx) = channel_unbounded();
    let tree: Tree<Span> = Tree::new(Span::new(0));
    match engine.step(&rx, 100, &tree) {
        StepOutcome::Progressed => {}
        _ => panic!("the owed tick counts as progress"),
    }
    assert_eq!(engine.handlers.len(), 0);
    assert_eq!(engine.errors, vec![String::from("render failed")]);
}

#[test]
fn engine_with_no_consumers_still_paces_ticks() {
    let mut engine: Engine<Probe> = Engine::builder().fps(10).build();
    let (_tx, rx) = channel_unbounded();
    let tree: Tree<Span> = Tree::new(Span::new(0));
    assert!(matches!(engine.step(&rx, 100, &tree), StepOutcome::Progressed));
    assert_eq!(engine.last_tick_ms, 100);
    assert!(matches!(engine.step(&rx, 150, &tree), StepOutcome::Idle));
    assert_eq!(engine.last_tick_ms, 100);
}

#[test]
fn apply_outcome_removes_exactly_the_erring_consumer() {
    let seen = Rc::new(RefCell::new(Vec::new()));
    let mut engine: Engine<Probe> = Engine::builder()
        .handler(Probe::new("a", seen.clone(), None))
        .handler(Probe::new("b", seen.clone(), None))
        .handler(Probe::new("c", seen.clone(), None))
        .build();
    engine.apply_outcome(1, Ok(()));
    assert_eq!(engine.handlers.len(), 3);
    assert!(engine.errors.is_empty());
    engine.apply_outcome(1, Err(String::from("b broke")));
    assert_eq!(engine.handlers.len(), 2);
    assert_eq!(engine.handlers[0].name, "a");
    assert_eq!(engine.handlers[1].name, "c");
    assert_eq!(engine.errors, vec![String::from("b broke")]);
}

#[test]
fn aggregate_message_lists_every_failure() {
    let agg = kairoi::handler::AggregatedError {
        disconnected: false,
        errors: vec![String::from("first"), String::from("second")],
    };
    assert_eq!(
        agg.describe(),
        "Aggregated error(s) (total 2)\n- 1/2: first\n- 2/2: second"
    );

    let disconnected = kairoi::handler::AggregatedError {
        disconnected: true,
        errors: Vec::new(),
    };
    assert_eq!(
        disconnected.describe(),
        "Aggregated error(s) (total 0)\nChannel has been disconnected"
    );
}
