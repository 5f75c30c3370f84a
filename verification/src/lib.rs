//! A fine-grained reactive dependency-tracking and memoization engine.
//!
//! The engine maintains a graph of computed values ("reactive nodes").
//! Each node caches its last output, remembers which nodes it read while
//! producing that output (its sources), and which nodes read it (its
//! subscribers). A node recomputes only when a value it transitively
//! depends on has actually changed — not merely re-executed — and a change
//! propagates no further than nodes whose own output changes as a result:
//! marking dirty is push-based and travels one edge hop per real change,
//! recomputation is pull-based and happens only when a node is read, and a
//! recomputation whose output equals the previous one (the node's equality
//! comparator) notifies nobody.
//!
//! Nodes live in an arena behind `(slot index, generation)` handles, so a
//! node can be disposed while other code still holds handles to it: those
//! handles degrade to "absent" rather than dangling, and a vacated slot is
//! reused only under a bumped generation.
//!
//! Three representation choices shape the interface:
//!
//! - A node's recomputation function is not an opaque closure but a closed
//!   expression language, [`node::Expr`]. Dependencies are still discovered
//!   automatically — evaluating the expression reads other nodes, and
//!   exactly the nodes read become the sources — and a `Select` expression
//!   reads only the branch it takes, so a node's subscriptions genuinely
//!   change from one recomputation to the next. Values are `i64` and the
//!   equality comparator is integer equality.
//! - The dependency tracking context ("the node currently recomputing") is
//!   not ambient state; it is an explicit observer argument threaded
//!   through evaluation, which keeps the one-recomputation-at-a-time
//!   discipline visible in every signature.
//! - Every mutating operation takes the graph by exclusive reference, so
//!   recomputation is serialized by Rust's borrow rules: two readers of the
//!   same dirty node cannot race, a read observes a single, fully committed
//!   recomputation, and the scoped read guard of a lock-based variant
//!   degenerates to the copied value a read returns.

pub mod graph;
pub mod memo;
pub mod node;

pub use graph::Graph;
pub use memo::{Memo, Readable, Reactive, Signal, Track};
pub use node::{Expr, GraphError, NodeKind, NodeRef, NodeState, SourceEntry};
