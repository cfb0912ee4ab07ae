use kairoi::channel::{
    build_log_event, channel_bounded, channel_unbounded, log_event, submit_step, try_recv, Polled,
    SubmitOutcome, SubmitStep, TrySendOutcome, RETRY_BUDGET,
};
use kairoi::event::{Event, Level};
use kairoi::node::{Id, Tree};
use kairoi::span::Span;

#[test]
fn submit_delivers_into_unbounded_channel() {
    let (tx, rx) = channel_unbounded();
    let e = Event::log(7, Level::Info, String::from("hello"), Id(0));
    match e.submit(&tx) {
        SubmitOutcome::Delivered => {}
        _ => panic!("expected delivery"),
    }
    match try_recv(&rx) {
        Polled::Received(Event::Log(log)) => {
            assert_eq!(log.timestamp(), 7);
            assert!(matches!(log.level(), Level::Info));
            assert_eq!(log.message(), "hello");
            assert_eq!(log.span(), Id(0));
        }
        _ => panic!("expected the submitted log event back"),
    }
}

#[test]
fn submit_into_full_channel_retries_five_times_then_drops() {
    let (tx, rx) = channel_bounded(1);
    match Event::span_begin(Id(1)).submit(&tx) {
        SubmitOutcome::Delivered => {}
        _ => panic!("first event must fit"),
    }
    // the channel is at capacity; nobody drains it
    match Event::span_begin(Id(2)).submit(&tx) {
        SubmitOutcome::Dropped(retries) => assert_eq!(retries, 5),
        _ => panic!("expected the event to be dropped after the retry budget"),
    }
    // the queued event is intact; the dropped one never got in
    match try_recv(&rx) {
        Polled::Received(Event::SpanBegin(id)) => assert_eq!(id, Id(1)),
        _ => panic!("expected the first event"),
    }
    assert!(matches!(try_recv(&rx), Polled::Empty));
}

#[test]
fn submit_after_disconnect_fails_immediately() {
    let (tx, rx) = channel_bounded(4);
    drop(rx);
    match Event::span_end(Id(3)).submit(&tx) {
        SubmitOutcome::Disconnected => {}
        _ => panic!("expected terminal disconnection"),
    }
}

#[test]
fn try_recv_reports_empty_and_disconnected() {
    let (tx, rx) = channel_unbounded();
    assert!(matches!(try_recv(&rx), Polled::Empty));
    drop(tx);
    assert!(matches!(try_recv(&rx), Polled::Disconnected));
}

#[test]
fn channel_preserves_submission_order_of_one_producer() {
    let (tx, rx) = channel_bounded(16);
    for k in 0..5usize {
        match Event::span_begin(Id(k)).submit(&tx) {
            SubmitOutcome::Delivered => {}
            _ => panic!("expected delivery"),
        }
    }
    for k in 0..5usize {
        match try_recv(&rx) {
            Polled::Received(Event::SpanBegin(id)) => assert_eq!(id, Id(k)),
            _ => panic!("expected events in submission order"),
        }
    }
}

#[test]
fn log_event_stamps_the_current_span() {
    let mut tree: Tree<Span> = Tree::new(Span::default());
    let inner = tree.add(Id(0), Span::new(1));
    let (tx, rx) = channel_unbounded();

    // with a live context, the log is tagged with it
    let r = log_event(&tree, Some(inner), 9, Level::Warn, String::from("w"), &tx);
    assert!(matches!(r, Ok(SubmitOutcome::Delivered)));
    match try_recv(&rx) {
        Polled::Received(Event::Log(log)) => {
            assert_eq!(log.span(), inner);
            assert_eq!(log.timestamp(), 9);
        }
        _ => panic!("expected the log event"),
    }

    // with no context, the log lands under the root
    let r = log_event(&tree, None, 10, Level::Info, String::from("i"), &tx);
    assert!(matches!(r, Ok(SubmitOutcome::Delivered)));
    match try_recv(&rx) {
        Polled::Received(Event::Log(log)) => assert_eq!(log.span(), Id(0)),
        _ => panic!("expected the log event"),
    }

    // a stale context is refused, not misattributed
    tree.delete(inner);
    let r = log_event(&tree, Some(inner), 11, Level::Error, String::from("e"), &tx);
    assert!(r.is_err());
    assert!(matches!(try_recv(&rx), Polled::Empty));
}

#[test]
fn draining_a_full_channel_makes_room_again() {
    let (tx, rx) = channel_bounded(1);
    assert!(matches!(Event::span_begin(Id(1)).submit(&tx), SubmitOutcome::Delivered));
    assert!(matches!(Event::span_begin(Id(2)).submit(&tx), SubmitOutcome::Dropped(5)));
    assert!(matches!(try_recv(&rx), Polled::Received(_)));
    // with the slot free, delivery succeeds again
    assert!(matches!(Event::span_begin(Id(3)).submit(&tx), SubmitOutcome::Delivered));
}

#[test]
fn submit_step_decides_each_outcome_exactly() {
    assert!(matches!(
        submit_step(TrySendOutcome::Sent, 0),
        SubmitStep::Finished(SubmitOutcome::Delivered)
    ));
    assert!(matches!(
        submit_step(TrySendOutcome::Disconnected(Event::span_begin(Id(1))), 2),
        SubmitStep::Finished(SubmitOutcome::Disconnected)
    ));
    match submit_step(TrySendOutcome::Full(Event::span_begin(Id(7))), 3) {
        SubmitStep::Retry(Event::SpanBegin(id), n) => {
            assert_eq!(id, Id(7));
            assert_eq!(n, 4);
        }
        _ => panic!("a full queue within budget is retried with the same event"),
    }
    assert!(matches!(
        submit_step(TrySendOutcome::Full(Event::span_begin(Id(7))), RETRY_BUDGET),
        SubmitStep::Finished(SubmitOutcome::Dropped(RETRY_BUDGET))
    ));
}

#[test]
fn build_log_event_stamps_exactly() {
    let mut tree: Tree<Span> = Tree::new(Span::default());
    let inner = tree.add(Id(0), Span::new(1));

    match build_log_event(&tree, Some(inner), 44, Level::Debug, String::from("msg")) {
        Ok(Event::Log(log)) => {
            assert_eq!(log.timestamp(), 44);
            assert!(matches!(log.level(), Level::Debug));
            assert_eq!(log.message(), "msg");
            assert_eq!(log.span(), inner);
        }
        _ => panic!("expected the exact log event"),
    }

    match build_log_event(&tree, None, 45, Level::Trace, String::from("r")) {
        Ok(Event::Log(log)) => assert_eq!(log.span(), Id(0)),
        _ => panic!("expected a root-stamped log event"),
    }

    tree.delete(inner);
    assert!(build_log_event(&tree, Some(inner), 46, Level::Info, String::from("x")).is_err());
}
