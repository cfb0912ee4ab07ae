//! In-process observability runtime: a span tree with concurrent-caller
//! semantics modelled as an id-keyed registry, an event model, a bounded
//! event channel with retry-on-full delivery, and a dispatch engine that
//! drains events into consumers and tick-drives them at a bounded rate
//! with per-consumer fault isolation.

pub mod channel;
pub mod handler;
pub mod event;
pub mod format;
pub mod node;
pub mod span;

pub use channel::Polled;
pub use channel::SubmitOutcome;
pub use event::Event;
pub use event::Level;
pub use event::Log;
pub use format::DefaultFormatter;
pub use handler::AggregatedError;
pub use handler::Engine;
pub use handler::GlobalHandlerBuilder;
pub use handler::Handler;
pub use handler::StepOutcome;
pub use node::Id;
pub use node::Node;
pub use node::Tree;
pub use span::Progress;
pub use span::Scope;
pub use span::StaleContext;
pub use span::Span;
