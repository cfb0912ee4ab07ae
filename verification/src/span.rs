//! Span values: the payload attached to each node of the span tree.
//!
//! A `Span` is a pure value: it is replaced wholesale on every update and
//! never mutated field by field, so a reader always observes a consistent
//! snapshot.

use vstd::prelude::*;
use crate::event::Event;
use crate::node::Id;
use crate::node::Tree;
use crate::node::attached;
use crate::node::spec_delete;
use crate::node::tree_wf;

verus! {

/// Progress metadata of a span: `progress` steps completed out of `total`.
#[derive(Debug, Copy, Clone, PartialEq, Eq, Structural)]
pub struct Progress {
    pub total: u64,
    pub progress: u64,
}

impl Progress {
    pub fn new(total: u64, progress: u64) -> (r: Self)
        ensures
            r.total == total,
            r.progress == progress,
    {
        Self { total, progress }
    }

    pub fn total(&self) -> (r: u64)
        ensures
            r == self.total,
    {
        self.total
    }

    pub fn progress(&self) -> (r: u64)
        ensures
            r == self.progress,
    {
        self.progress
    }
}

/// The payload of one span tree node: creation time (milliseconds since the
/// epoch), a display label, and optional progress metadata.
#[derive(Debug, Clone)]
pub struct Span {
    pub timestamp: u64,
    pub name: String,
    pub progress: Option<Progress>,
}

impl Span {
    /// A fresh span stamped with the given creation time, with an empty
    /// name and no progress.
    pub fn new(timestamp: u64) -> (r: Self)
        ensures
            r.timestamp == timestamp,
            r.name@ == Seq::<char>::empty(),
            r.progress is None,
    {
        Self { timestamp, name: String::new(), progress: None }
    }

    /// A copy of this span with the name replaced.
    pub fn with_name(&self, name: String) -> (r: Self)
        ensures
            r.timestamp == self.timestamp,
            r.name == name,
            r.progress == self.progress,
    {
        Self { timestamp: self.timestamp, name, progress: self.progress }
    }

    /// A copy of this span with the progress replaced.
    pub fn with_progress(&self, progress: Progress) -> (r: Self)
        ensures
            r.timestamp == self.timestamp,
            r.name@ == self.name@,
            r.progress == Some(progress),
    {
        Self { timestamp: self.timestamp, name: self.name.clone(), progress: Some(progress) }
    }

    pub fn timestamp(&self) -> (r: u64)
        ensures
            r == self.timestamp,
    {
        self.timestamp
    }

    pub fn name(&self) -> (r: &str)
        ensures
            r@ == self.name@,
    {
        self.name.as_str()
    }

    pub fn progress(&self) -> (r: Option<Progress>)
        ensures
            r == self.progress,
    {
        self.progress
    }
}

impl Span {
    /// An exact copy; a span is a pure value, so the copy equals the
    /// original in every field.
    pub fn duplicate(&self) -> (r: Span)
        ensures
            r == *self,
    {
        Span { timestamp: self.timestamp, name: self.name.clone(), progress: self.progress }
    }
}

impl Default for Span {
    /// The default span: timestamp zero, empty name, no progress. Callers
    /// that want a creation time stamp it with `Span::new`.
    fn default() -> (r: Self)
        ensures
            r.timestamp == 0,
            r.name@ == Seq::<char>::empty(),
            r.progress is None,
    {
        Self { timestamp: 0, name: String::new(), progress: None }
    }
}

/// Using a scope handle after its scope has been torn down is a
/// programming-contract violation; it is reported loudly, never silently
/// mapped to a wrong span.
#[derive(Debug, Copy, Clone, PartialEq, Eq, Structural)]
pub struct StaleContext;

impl StaleContext {
    /// A human-readable account of the violation.
    pub fn message(&self) -> (r: &'static str)
        ensures
            r@ == "current span context expired"@,
    {
        "current span context expired"
    }
}

/// The span identity the calling task is logically inside. A task with no
/// context (it never entered a scope) gets the root, `Id(0)`; a caller is
/// never handed a dangling identity. A context whose span is no longer
/// attached is stale — a scope handle used outside its body — and is
/// reported as an error.
pub fn resolve_current(tree: &Tree<Span>, context: Option<Id>) -> (r: Result<Id, StaleContext>)
    requires
        tree_wf(tree@),
    ensures
        context is None ==> r == Ok::<Id, StaleContext>(Id(0usize)),
        context is Some ==> {
            let c = context->0;
            if (c.0 as int) < tree@.len() && attached(tree@, c.0 as int) {
                r == Ok::<Id, StaleContext>(c)
            } else {
                r == Err::<Id, StaleContext>(StaleContext)
            }
        },
        r is Ok ==> (r->Ok_0.0 as int) < tree@.len() && attached(tree@, r->Ok_0.0 as int),
{
    match context {
        None => Ok(Id(0)),
        Some(c) => {
            if c.0 < tree.len() && tree.is_attached(c) {
                Ok(c)
            } else {
                Err(StaleContext)
            }
        },
    }
}

/// Enters a scope: creates a fresh child span under `parent` (the caller's
/// current span), stamped with `now_ms`, and returns the new node's id with
/// the `SpanBegin` event to submit. The caller installs the id as current
/// for the body and pairs this with `exit_scope` when the body has returned
/// or been torn down.
pub fn enter_scope(tree: &mut Tree<Span>, parent: Id, now_ms: u64) -> (r: (Id, Event))
    requires
        tree_wf(old(tree)@),
        (parent.0 as int) < old(tree)@.len(),
    ensures
        tree_wf(final(tree)@),
        final(tree)@.len() == old(tree)@.len() + 1,
        (r.0.0 as int) == old(tree)@.len(),
        final(tree)@[r.0.0 as int].parent == Some(parent.0 as int),
        final(tree)@[r.0.0 as int].depth == old(tree)@[parent.0 as int].depth + 1,
        attached(final(tree)@, r.0.0 as int),
        final(tree)@[r.0.0 as int].value.timestamp == now_ms,
        final(tree)@[r.0.0 as int].value.name@ == Seq::<char>::empty(),
        final(tree)@[r.0.0 as int].value.progress is None,
        r.1 == Event::SpanBegin(r.0),
        forall|i: int|
            0 <= i < old(tree)@.len() && i != parent.0 as int ==> final(tree)@[i] == old(tree)@[i],
        final(tree)@[parent.0 as int].children == old(tree)@[parent.0 as int].children.push(
            r.0.0 as int,
        ),
        final(tree)@[parent.0 as int].value == old(tree)@[parent.0 as int].value,
        final(tree)@[parent.0 as int].depth == old(tree)@[parent.0 as int].depth,
        final(tree)@[parent.0 as int].parent == old(tree)@[parent.0 as int].parent,
{
    let id = tree.add(parent, Span::new(now_ms));
    (id, Event::span_begin(id))
}

/// Leaves a scope: detaches the scope's node (a no-op if it is already
/// detached) and returns the `SpanEnd` event, submitted only after the
/// body has fully returned or been torn down.
pub fn exit_scope(tree: &mut Tree<Span>, id: Id) -> (r: Event)
    requires
        tree_wf(old(tree)@),
        (id.0 as int) < old(tree)@.len(),
    ensures
        tree_wf(final(tree)@),
        final(tree)@ == spec_delete(old(tree)@, id.0 as int),
        final(tree)@.len() == old(tree)@.len(),
        id.0 != 0 ==> !attached(final(tree)@, id.0 as int),
        r == Event::SpanEnd(id),
{
    tree.delete(id);
    Event::span_end(id)
}

/// The handle a scope's body receives. It exposes exactly one operation,
/// `update`, and must not be retained or used after the body returns.
pub struct Scope {
    pub node: Id,
}

impl Scope {
    /// A handle for the given scope node.
    pub fn new(node: Id) -> (r: Self)
        ensures
            r.node == node,
    {
        Self { node }
    }

    /// Replaces the span's payload wholesale — a reader never sees a
    /// partially written value — and returns the `SpanUpdate` event to
    /// submit.
    pub fn update(&self, tree: &mut Tree<Span>, data: Span) -> (r: Event)
        requires
            tree_wf(old(tree)@),
            (self.node.0 as int) < old(tree)@.len(),
        ensures
            tree_wf(final(tree)@),
            final(tree)@.len() == old(tree)@.len(),
            final(tree)@[self.node.0 as int].value == data,
            final(tree)@[self.node.0 as int].depth == old(tree)@[self.node.0 as int].depth,
            final(tree)@[self.node.0 as int].parent == old(tree)@[self.node.0 as int].parent,
            final(tree)@[self.node.0 as int].children == old(tree)@[self.node.0 as int].children,
            forall|i: int|
                0 <= i < old(tree)@.len() && i != self.node.0 as int ==> final(tree)@[i] == old(
                    tree,
                )@[i],
            r == Event::SpanUpdate(self.node, data),
    {
        let copy = data.duplicate();
        tree.update(self.node, copy);
        Event::span_update(self.node, data)
    }
}

} // verus!
