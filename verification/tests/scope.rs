use std::cell::RefCell;
use std::rc::Rc;

use kairoi::channel::{channel_bounded, SubmitOutcome};
use kairoi::event::Event;
use kairoi::handler::{Engine, Handler, StepOutcome};
use kairoi::node::{Id, Tree};
use kairoi::span::{enter_scope, exit_scope, resolve_current, Scope, Span, StaleContext};

#[test]
fn resolve_current_defaults_to_root() {
    let tree: Tree<Span> = Tree::new(Span::new(0));
    assert_eq!(resolve_current(&tree, None), Ok(Id(0)));
}

#[test]
fn resolve_current_returns_the_installed_span() {
    let mut tree: Tree<Span> = Tree::new(Span::new(0));
    let (id, _begin) = enter_scope(&mut tree, Id(0), 1);
    assert_eq!(resolve_current(&tree, Some(id)), Ok(id));
}

#[test]
fn stale_context_fails_loudly() {
    let mut tree: Tree<Span> = Tree::new(Span::new(0));
    let (id, _begin) = enter_scope(&mut tree, Id(0), 1);
    let _end = exit_scope(&mut tree, id);
    // the scope is gone: resolving its id is a contract violation,
    // reported as an error rather than silently mapped to a wrong span
    assert_eq!(resolve_current(&tree, Some(id)), Err(StaleContext));
    assert_eq!(StaleContext.message(), "current span context expired");
}

#[test]
fn scopes_nest_one_level_deeper_each() {
    let mut tree: Tree<Span> = Tree::new(Span::new(0));
    let (outer, _) = enter_scope(&mut tree, Id(0), 10);
    let (inner, _) = enter_scope(&mut tree, outer, 20);
    // every span created inside a scope at depth d sits at depth >= d + 1
    assert_eq!(tree.depth(Id(0)), 0);
    assert_eq!(tree.depth(outer), 1);
    assert_eq!(tree.depth(inner), 2);
    assert!(tree.depth(inner) >= tree.depth(outer) + 1);
    // the fresh span carries its creation time and an empty name
    assert_eq!(tree.value(inner).timestamp(), 20);
    assert_eq!(tree.value(inner).name(), "");
    assert!(tree.value(inner).progress().is_none());
}

#[test]
fn exit_scope_detaches_and_is_idempotent() {
    let mut tree: Tree<Span> = Tree::new(Span::new(0));
    let (outer, _) = enter_scope(&mut tree, Id(0), 1);
    let (inner, _) = enter_scope(&mut tree, outer, 2);
    let end = exit_scope(&mut tree, inner);
    assert!(matches!(end, Event::SpanEnd(id) if id == inner));
    assert!(!tree.is_attached(inner));
    // leaving again changes nothing and raises no error
    let _ = exit_scope(&mut tree, inner);
    assert!(tree.is_attached(outer));
}

#[test]
fn scope_update_replaces_the_payload_wholesale() {
    let mut tree: Tree<Span> = Tree::new(Span::new(0));
    let (id, _) = enter_scope(&mut tree, Id(0), 5);
    let scope = Scope::new(id);
    let data = Span::new(5).with_name(String::from("job"));
    let event = scope.update(&mut tree, data);
    match event {
        Event::SpanUpdate(eid, payload) => {
            assert_eq!(eid, id);
            assert_eq!(payload.name(), "job");
        }
        _ => panic!("expected a span update event"),
    }
    // an immediate read returns exactly the installed value
    assert_eq!(tree.value(id).name(), "job");
    assert_eq!(tree.value(id).timestamp(), 5);
}

/// Remembers the order in which span events arrive.
struct Recorder {
    order: Rc<RefCell<Vec<String>>>,
    names: Rc<RefCell<Vec<(Id, String)>>>,
}

impl Handler for Recorder {
    fn handle(&self, event: &Event) -> Result<(), String> {
        let line = match event {
            Event::Log(log) => format!("log:{}", log.message()),
            Event::SpanBegin(id) => format!("begin:{}", id.0),
            Event::SpanUpdate(id, data) => {
                self.names.borrow_mut().push((*id, data.name().to_string()));
                format!("update:{}", id.0)
            }
            Event::SpanEnd(id) => format!("end:{}", id.0),
        };
        self.order.borrow_mut().push(line);
        Ok(())
    }

    fn tick(&self, _root: &Tree<Span>) -> Result<(), String> {
        Ok(())
    }
}

#[test]
fn nested_scopes_emit_events_in_structured_order() {
    let mut tree: Tree<Span> = Tree::new(Span::new(0));
    let (tx, rx) = channel_bounded(64);
    let submit = |e: Event| match e.submit(&tx) {
        SubmitOutcome::Delivered => {}
        _ => panic!("expected delivery"),
    };

    // enter "outer" under the root, and "inner" inside it
    let current = resolve_current(&tree, None).unwrap();
    let (outer, begin_outer) = enter_scope(&mut tree, current, 1);
    submit(begin_outer);
    let outer_scope = Scope::new(outer);
    submit(outer_scope.update(&mut tree, Span::new(1).with_name(String::from("outer"))));

    let current = resolve_current(&tree, Some(outer)).unwrap();
    let (inner, begin_inner) = enter_scope(&mut tree, current, 2);
    submit(begin_inner);
    let inner_scope = Scope::new(inner);
    submit(inner_scope.update(&mut tree, Span::new(2).with_name(String::from("inner"))));

    submit(exit_scope(&mut tree, inner));
    submit(exit_scope(&mut tree, outer));

    let order = Rc::new(RefCell::new(Vec::new()));
    let names = Rc::new(RefCell::new(Vec::new()));
    let mut engine: Engine<Recorder> = Engine::builder()
        .fps(1)
        .handler(Recorder { order: order.clone(), names: names.clone() })
        .build();
    match engine.step(&rx, 0, &tree) {
        StepOutcome::Progressed => {}
        _ => panic!("expected the queued events to be drained"),
    }

    let got = order.borrow().clone();
    assert_eq!(
        got,
        vec![
            format!("begin:{}", outer.0),
            format!("update:{}", outer.0),
            format!("begin:{}", inner.0),
            format!("update:{}", inner.0),
            format!("end:{}", inner.0),
            format!("end:{}", outer.0),
        ]
    );
    let named = names.borrow().clone();
    assert_eq!(named[0], (outer, String::from("outer")));
    assert_eq!(named[1], (inner, String::from("inner")));
}
