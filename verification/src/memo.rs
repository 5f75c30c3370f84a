//! The public facade: copyable wrappers over arena handles, and the
//! capability traits any reactive value type offers. Every wrapper method
//! restates the full contract of the graph operation it delegates to, so a
//! caller who only ever sees `Memo` and `Signal` loses nothing.

use vstd::prelude::*;

use crate::graph::{node_unchanged, only_state_dirtied, pinned_ready, preserved_by_recompute,
    same_shape, sources_live_signals, sources_match, spec_eval, expr_tracks, Graph};
use crate::node::{contains_node, Expr, GraphError, NodeKind, NodeRef, NodeState, SourceEntry};

verus! {

/// Anything that stands for one reactive node.
pub trait Reactive {
    /// The arena handle this value stands for.
    spec fn node_ref(&self) -> NodeRef;

    /// The arena handle this value stands for.
    fn handle(&self) -> (h: NodeRef)
        ensures
            h == self.node_ref(),
    ;
}

/// The capability to bring a node up to date for dependency purposes,
/// without materializing its value.
pub trait Track: Reactive {
    /// Ensure the node is `Clean`, as `Graph::track` does: a handle that no
    /// longer resolves is a normal no-op that touches nothing, failure
    /// leaves the cached value intact and the node `Dirty`, no write ever
    /// happens to a signal, and a live signal or a memo over live signals
    /// is owed success.
    fn track(&self, g: &mut Graph) -> (r: Result<(), GraphError>)
        requires
            old(g).wf(),
        ensures
            final(g).wf(),
            preserved_by_recompute(old(g), final(g)),
            !old(g).live(self.node_ref()) ==> r is Ok && *final(g) == *old(g),
            old(g).live(self.node_ref()) && old(g).recomputing_of(self.node_ref()) ==> r == Err::<
                (),
                GraphError,
            >(GraphError::CyclicDependency),
            r is Ok && old(g).live(self.node_ref()) ==> final(g).state_of(self.node_ref())
                == NodeState::Clean && final(g).value_of(self.node_ref()) is Some,
            r is Err && !old(g).recomputing_of(self.node_ref()) ==> old(g).live(self.node_ref())
                && final(g).state_of(self.node_ref()) == NodeState::Dirty && final(g).value_of(
                self.node_ref(),
            ) == old(g).value_of(self.node_ref()),
            old(g).live(self.node_ref()) ==> final(g).count_of(self.node_ref()) <= old(g).count_of(
                self.node_ref(),
            ) + 1,
            old(g).live(self.node_ref()) && old(g).is_signal(self.node_ref()) && !old(
                g,
            ).recomputing_of(self.node_ref()) ==> r is Ok && *final(g) == *old(g),
            old(g).kind_of(self.node_ref()) matches NodeKind::Computed(Expr::Read(s)) ==> (old(
                g,
            ).live(self.node_ref()) && !old(g).recomputing_of(self.node_ref()) && old(g).value_of(
                self.node_ref(),
            ) is None && old(g).sources_of(self.node_ref()).len() == 0 ==> (s == self.node_ref()
                ==> r == Err::<(), GraphError>(GraphError::CyclicDependency)) && (!old(g).live(s)
                ==> r == Err::<(), GraphError>(GraphError::AbsentDependency))),
            old(g).kind_of(self.node_ref()) matches NodeKind::Computed(e) ==> {
                &&& (pinned_ready(old(g), self.node_ref(), e) ==> r is Ok)
                &&& (pinned_ready(old(g), self.node_ref(), e) && old(g).value_of(
                    self.node_ref(),
                ) is None ==> final(g).value_of(self.node_ref()) == Some(
                    spec_eval(old(g), e, None),
                ) && (forall|x: NodeRef|
                    contains_node(final(g).sources_of(self.node_ref()), x) <==> expr_tracks(
                        old(g),
                        e,
                        None,
                        x,
                    )) && (forall|x: NodeRef|
                    old(g).live(x) && expr_tracks(old(g), e, None, x) ==> final(g).subs_of(
                        x,
                    ).contains(self.node_ref())) && final(g).subs_of(self.node_ref()) == old(
                    g,
                ).subs_of(self.node_ref()) && sources_match(
                    final(g),
                    final(g).sources_of(self.node_ref()),
                ) && final(g).count_of(self.node_ref()) == (if old(g).count_of(self.node_ref())
                    < u64::MAX {
                    old(g).count_of(self.node_ref()) + 1
                } else {
                    u64::MAX as int
                }))
                &&& (old(g).live(self.node_ref()) && !old(g).recomputing_of(self.node_ref())
                    && old(g).value_of(self.node_ref()) is Some && sources_live_signals(
                    old(g),
                    old(g).sources_of(self.node_ref()),
                ) && sources_match(old(g), old(g).sources_of(self.node_ref())) ==> r is Ok
                    && final(g).value_of(self.node_ref()) == old(g).value_of(self.node_ref())
                    && final(g).count_of(self.node_ref()) == old(g).count_of(self.node_ref())
                    && (forall|k: NodeRef|
                    old(g).live(k) && k != self.node_ref() ==> node_unchanged(old(g), final(g), k)))
            },
    ;
}

/// The capability to read a node's value, recomputing first if needed.
pub trait Readable: Reactive {
    /// Read the cached value, as `Graph::try_read` does: `Ok(None)` exactly
    /// when the handle no longer resolves; `Ok(Some(v))` leaves the node
    /// `Clean` caching `v`; failure keeps the previous cached value and
    /// leaves the node `Dirty` for retry; reading a live signal always
    /// succeeds with its value; one read evaluates the node at most once;
    /// and a memo over live signals is owed success, with its value and its
    /// recorded edges pinned on every path.
    fn try_read(&self, g: &mut Graph) -> (r: Result<Option<i64>, GraphError>)
        requires
            old(g).wf(),
        ensures
            final(g).wf(),
            preserved_by_recompute(old(g), final(g)),
            (r matches Ok(v) && v is None) <==> !old(g).live(self.node_ref()),
            r matches Ok(Some(v)) ==> final(g).value_of(self.node_ref()) == Some(v)
                && final(g).state_of(self.node_ref()) == NodeState::Clean,
            old(g).live(self.node_ref()) && old(g).recomputing_of(self.node_ref()) ==> r == Err::<
                Option<i64>,
                GraphError,
            >(GraphError::CyclicDependency),
            r is Err && !old(g).recomputing_of(self.node_ref()) ==> old(g).live(self.node_ref())
                && final(g).state_of(self.node_ref()) == NodeState::Dirty && final(g).value_of(
                self.node_ref(),
            ) == old(g).value_of(self.node_ref()),
            old(g).live(self.node_ref()) && old(g).is_signal(self.node_ref()) && !old(
                g,
            ).recomputing_of(self.node_ref()) ==> r == Ok::<Option<i64>, GraphError>(
                old(g).value_of(self.node_ref()),
            ) && *final(g) == *old(g),
            old(g).live(self.node_ref()) ==> final(g).count_of(self.node_ref()) <= old(g).count_of(
                self.node_ref(),
            ) + 1,
            old(g).kind_of(self.node_ref()) matches NodeKind::Computed(e) ==> {
                &&& (pinned_ready(old(g), self.node_ref(), e) ==> r is Ok)
                &&& (pinned_ready(old(g), self.node_ref(), e) && old(g).value_of(
                    self.node_ref(),
                ) is None ==> r == Ok::<Option<i64>, GraphError>(
                    Some(spec_eval(old(g), e, None)),
                ) && (forall|x: NodeRef|
                    contains_node(final(g).sources_of(self.node_ref()), x) <==> expr_tracks(
                        old(g),
                        e,
                        None,
                        x,
                    )) && (forall|x: NodeRef|
                    old(g).live(x) && expr_tracks(old(g), e, None, x) ==> final(g).subs_of(
                        x,
                    ).contains(self.node_ref())) && (forall|x: NodeRef|
                    old(g).live(x) && contains_node(old(g).sources_of(self.node_ref()), x)
                        && !expr_tracks(old(g), e, None, x) ==> !final(g).subs_of(x).contains(
                        self.node_ref(),
                    )) && final(g).subs_of(self.node_ref()) == old(g).subs_of(self.node_ref())
                    && sources_live_signals(final(g), final(g).sources_of(self.node_ref()))
                    && sources_match(final(g), final(g).sources_of(self.node_ref())) && final(g).count_of(self.node_ref()) == (if old(g).count_of(self.node_ref()) < u64::MAX {
                    old(g).count_of(self.node_ref()) + 1
                } else {
                    u64::MAX as int
                }) && (forall|k: NodeRef|
                    old(g).live(k) && k != self.node_ref() && !old(g).subs_of(
                        self.node_ref(),
                    ).contains(k) ==> final(g).state_of(k) == old(g).state_of(k)) && (forall|
                    x: NodeRef,
                    y: NodeRef,
                |
                    old(g).live(x) && y != self.node_ref() ==> (final(g).subs_of(x).contains(y)
                        <==> old(g).subs_of(x).contains(y))))
                &&& (pinned_ready(old(g), self.node_ref(), e) && old(g).value_of(
                    self.node_ref(),
                ) is Some && !sources_match(old(g), old(g).sources_of(self.node_ref()))
                    ==> r == Ok::<Option<i64>, GraphError>(
                        Some(spec_eval(old(g), e, old(g).value_of(self.node_ref()))),
                    ) && (forall|x: NodeRef|
                    contains_node(final(g).sources_of(self.node_ref()), x) <==> expr_tracks(
                        old(g),
                        e,
                        old(g).value_of(self.node_ref()),
                        x,
                    )) && (forall|x: NodeRef|
                    old(g).live(x) && expr_tracks(old(g), e, old(g).value_of(self.node_ref()), x)
                        ==> final(g).subs_of(x).contains(self.node_ref())) && (forall|x: NodeRef|
                    old(g).live(x) && contains_node(old(g).sources_of(self.node_ref()), x)
                        && !expr_tracks(old(g), e, old(g).value_of(self.node_ref()), x) ==> !final(g).subs_of(x).contains(self.node_ref())) && final(g).subs_of(self.node_ref())
                    == old(g).subs_of(self.node_ref()) && sources_live_signals(
                    final(g),
                    final(g).sources_of(self.node_ref()),
                ) && sources_match(final(g), final(g).sources_of(self.node_ref())) && final(g).count_of(self.node_ref()) == (if old(g).count_of(self.node_ref()) < u64::MAX {
                    old(g).count_of(self.node_ref()) + 1
                } else {
                    u64::MAX as int
                }) && (forall|k: NodeRef|
                    old(g).live(k) && k != self.node_ref() && !old(g).subs_of(
                        self.node_ref(),
                    ).contains(k) ==> final(g).state_of(k) == old(g).state_of(k)) && (forall|
                    x: NodeRef,
                    y: NodeRef,
                |
                    old(g).live(x) && y != self.node_ref() ==> (final(g).subs_of(x).contains(y)
                        <==> old(g).subs_of(x).contains(y))) && (spec_eval(old(g), e, old(g).value_of(self.node_ref())) == old(g).value_of(
                    self.node_ref(),
                )->Some_0 ==> (forall|k: NodeRef|
                    old(g).live(k) && k != self.node_ref() ==> final(g).state_of(k) == old(
                        g,
                    ).state_of(k))))
                &&& (old(g).live(self.node_ref()) && !old(g).recomputing_of(self.node_ref())
                    && old(g).value_of(self.node_ref()) is Some && sources_live_signals(
                    old(g),
                    old(g).sources_of(self.node_ref()),
                ) && sources_match(old(g), old(g).sources_of(self.node_ref()))
                    ==> r == Ok::<Option<i64>, GraphError>(old(g).value_of(self.node_ref()))
                        && final(g).count_of(self.node_ref()) == old(g).count_of(self.node_ref())
                        && (forall|k: NodeRef|
                        old(g).live(k) && k != self.node_ref() ==> node_unchanged(
                            old(g),
                            final(g),
                            k,
                        )))
            },
            // the two failures are distinguishable at the simplest shapes
            old(g).kind_of(self.node_ref()) matches NodeKind::Computed(Expr::Read(s)) ==> (old(
                g,
            ).live(self.node_ref()) && !old(g).recomputing_of(self.node_ref()) && old(g).value_of(
                self.node_ref(),
            ) is None && old(g).sources_of(self.node_ref()).len() == 0 ==> (s == self.node_ref()
                ==> r == Err::<Option<i64>, GraphError>(GraphError::CyclicDependency)) && (!old(
                g,
            ).live(s) ==> r == Err::<Option<i64>, GraphError>(GraphError::AbsentDependency))),
    ;
}

/// A memoized computation: a copyable handle to a node that recomputes an
/// expression on demand and caches the result. Carries no state of its
/// own; everything delegates to the node, if it is still present.
#[derive(Clone, Copy, PartialEq, Eq, Structural, Debug)]
pub struct Memo {
    pub node: NodeRef,
}

impl Memo {
    /// Allocate a node that recomputes `expr` on demand, `Dirty` until
    /// first read, with no edges, and wrap its handle. No existing node is
    /// touched, no slot generation moves, and no dead handle is revived.
    pub fn new(g: &mut Graph, expr: Expr) -> (m: Memo)
        requires
            old(g).wf(),
        ensures
            final(g).wf(),
            final(g).live(m.node),
            !old(g).live(m.node),
            !final(g).is_signal(m.node),
            final(g).kind_of(m.node) == NodeKind::Computed(expr),
            final(g).value_of(m.node) is None,
            final(g).state_of(m.node) == NodeState::Dirty,
            final(g).sources_of(m.node).len() == 0,
            final(g).subs_of(m.node).len() == 0,
            final(g).count_of(m.node) == 0,
            !final(g).recomputing_of(m.node),
            old(g).n_slots() <= final(g).n_slots() <= old(g).n_slots() + 1,
            m.node.index < final(g).n_slots(),
            forall|i: int| 0 <= i < old(g).n_slots() ==> final(g).gen_at(i) == old(g).gen_at(i),
            m.node.index < old(g).n_slots() ==> m.node.generation == old(g).gen_at(
                m.node.index as int,
            ),
            forall|k: NodeRef|
                old(g).live(k) ==> #[trigger] final(g).live(k) && node_unchanged(
                    old(g),
                    final(g),
                    k,
                ),
            forall|k: NodeRef| !old(g).live(k) && k != m.node ==> !final(g).live(k),
    {
        Memo { node: g.create_memo(expr) }
    }

    /// Remove the node from the graph, exactly as `Graph::dispose`: the
    /// node is detached from every other node's edge lists before its slot
    /// is vacated and its generation bumped, every copy of this handle then
    /// resolves to nothing, and every other node keeps its value, state,
    /// kind and count.
    #[verifier::rlimit(50)]
    pub fn dispose(&self, g: &mut Graph) -> (r: bool)
        requires
            old(g).wf(),
        ensures
            final(g).wf(),
            r == old(g).live(self.node),
            !final(g).live(self.node),
            final(g).n_slots() == old(g).n_slots(),
            !r ==> *final(g) == *old(g),
            !r ==> forall|k: NodeRef|
                old(g).live(k) ==> #[trigger] final(g).live(k) && node_unchanged(
                    old(g),
                    final(g),
                    k,
                ),
            forall|k: NodeRef| !old(g).live(k) ==> !final(g).live(k),
            r ==> final(g).gen_at(self.node.index as int) == (
            if self.node.generation < u64::MAX {
                self.node.generation + 1
            } else {
                self.node.generation as int
            }),
            r ==> forall|k: NodeRef|
                #[trigger] old(g).live(k) && k != self.node ==> final(g).live(k)
                    && final(g).value_of(k) == old(g).value_of(k) && final(g).state_of(k)
                    == old(g).state_of(k) && final(g).kind_of(k) == old(g).kind_of(k)
                    && final(g).count_of(k) == old(g).count_of(k) && final(g).recomputing_of(k)
                    == old(g).recomputing_of(k),
            r ==> forall|k: NodeRef, x: NodeRef|
                old(g).live(k) && k != self.node ==> (#[trigger] final(g).subs_of(k).contains(x)
                    <==> (old(g).subs_of(k).contains(x) && x != self.node)),
            r ==> forall|k: NodeRef, x: SourceEntry|
                old(g).live(k) && k != self.node ==> (#[trigger] final(g).sources_of(k).contains(x)
                    <==> (old(g).sources_of(k).contains(x) && x.node != self.node)),
    {
        let r = g.dispose(self.node);
        proof {
            if r {
                assert forall|k: NodeRef|
                    #[trigger] old(g).live(k) && k != self.node implies g.live(k) && g.value_of(k)
                    == old(g).value_of(k) && g.state_of(k) == old(g).state_of(k) && g.kind_of(k)
                    == old(g).kind_of(k) && g.count_of(k) == old(g).count_of(k)
                    && g.recomputing_of(k) == old(g).recomputing_of(k) by {
                    assert(g.live(k));
                }
                assert forall|k: NodeRef, x: NodeRef|
                    old(g).live(k) && k != self.node implies (#[trigger] g.subs_of(k).contains(x)
                    <==> (old(g).subs_of(k).contains(x) && x != self.node)) by {
                    assert(g.live(k));
                }
                assert forall|k: NodeRef, x: SourceEntry|
                    old(g).live(k) && k != self.node implies (#[trigger] g.sources_of(
                    k,
                ).contains(x) <==> (old(g).sources_of(k).contains(x) && x.node != self.node)) by {
                    assert(g.live(k));
                }
            }
        }
        r
    }
}

impl Reactive for Memo {
    open spec fn node_ref(&self) -> NodeRef {
        self.node
    }

    fn handle(&self) -> (h: NodeRef) {
        self.node
    }
}

impl Track for Memo {
    fn track(&self, g: &mut Graph) -> (r: Result<(), GraphError>) {
        g.track(self.node)
    }
}

impl Readable for Memo {
    fn try_read(&self, g: &mut Graph) -> (r: Result<Option<i64>, GraphError>) {
        g.try_read(self.node)
    }
}

/// An externally written value: a copyable handle to a node whose value is
/// set from outside and never recomputed.
#[derive(Clone, Copy, PartialEq, Eq, Structural, Debug)]
pub struct Signal {
    pub node: NodeRef,
}

impl Signal {
    /// Allocate a node holding `initial` and wrap its handle. The node is
    /// `Clean`, has no edges and a zero count; no existing node is touched,
    /// no slot generation moves, and no dead handle is revived.
    pub fn new(g: &mut Graph, initial: i64) -> (s: Signal)
        requires
            old(g).wf(),
        ensures
            final(g).wf(),
            final(g).live(s.node),
            !old(g).live(s.node),
            final(g).is_signal(s.node),
            final(g).value_of(s.node) == Some(initial),
            final(g).state_of(s.node) == NodeState::Clean,
            final(g).sources_of(s.node).len() == 0,
            final(g).subs_of(s.node).len() == 0,
            final(g).count_of(s.node) == 0,
            !final(g).recomputing_of(s.node),
            old(g).n_slots() <= final(g).n_slots() <= old(g).n_slots() + 1,
            s.node.index < final(g).n_slots(),
            forall|i: int| 0 <= i < old(g).n_slots() ==> final(g).gen_at(i) == old(g).gen_at(i),
            s.node.index < old(g).n_slots() ==> s.node.generation == old(g).gen_at(
                s.node.index as int,
            ),
            forall|k: NodeRef|
                old(g).live(k) ==> #[trigger] final(g).live(k) && node_unchanged(
                    old(g),
                    final(g),
                    k,
                ),
            forall|k: NodeRef| !old(g).live(k) && k != s.node ==> !final(g).live(k),
    {
        Signal { node: g.create_signal(initial) }
    }

    /// Write `v`, exactly as `Graph::set`: equality-gated, marking exactly
    /// the live subscribers `Dirty` — one edge hop — and never evaluating
    /// any node's expression.
    pub fn set(&self, g: &mut Graph, v: i64) -> (changed: bool)
        requires
            old(g).wf(),
        ensures
            final(g).wf(),
            same_shape(old(g), final(g)),
            forall|k: NodeRef| old(g).live(k) ==> final(g).count_of(k) == old(g).count_of(k),
            changed == (old(g).live(self.node) && old(g).is_signal(self.node) && old(g).value_of(
                self.node,
            ) != Some(v)),
            !changed ==> forall|k: NodeRef|
                old(g).live(k) ==> node_unchanged(old(g), final(g), k),
            changed ==> {
                &&& final(g).value_of(self.node) == Some(v)
                &&& final(g).state_of(self.node) == old(g).state_of(self.node)
                &&& final(g).kind_of(self.node) == old(g).kind_of(self.node)
                &&& final(g).sources_of(self.node) == old(g).sources_of(self.node)
                &&& final(g).subs_of(self.node) == old(g).subs_of(self.node)
                &&& final(g).count_of(self.node) == old(g).count_of(self.node)
                &&& forall|k: NodeRef|
                    old(g).live(k) && k != self.node && old(g).subs_of(self.node).contains(k)
                        && !old(g).is_signal(k) ==> only_state_dirtied(old(g), final(g), k)
                &&& forall|k: NodeRef|
                    old(g).live(k) && k != self.node && !(old(g).subs_of(self.node).contains(k)
                        && !old(g).is_signal(k)) ==> node_unchanged(old(g), final(g), k)
            },
    {
        g.set(self.node, v)
    }

    /// Remove the node from the graph, exactly as `Graph::dispose` (see
    /// `Memo::dispose`).
    #[verifier::rlimit(50)]
    pub fn dispose(&self, g: &mut Graph) -> (r: bool)
        requires
            old(g).wf(),
        ensures
            final(g).wf(),
            r == old(g).live(self.node),
            !final(g).live(self.node),
            final(g).n_slots() == old(g).n_slots(),
            !r ==> *final(g) == *old(g),
            !r ==> forall|k: NodeRef|
                old(g).live(k) ==> #[trigger] final(g).live(k) && node_unchanged(
                    old(g),
                    final(g),
                    k,
                ),
            forall|k: NodeRef| !old(g).live(k) ==> !final(g).live(k),
            r ==> final(g).gen_at(self.node.index as int) == (
            if self.node.generation < u64::MAX {
                self.node.generation + 1
            } else {
                self.node.generation as int
            }),
            r ==> forall|k: NodeRef|
                #[trigger] old(g).live(k) && k != self.node ==> final(g).live(k)
                    && final(g).value_of(k) == old(g).value_of(k) && final(g).state_of(k)
                    == old(g).state_of(k) && final(g).kind_of(k) == old(g).kind_of(k)
                    && final(g).count_of(k) == old(g).count_of(k) && final(g).recomputing_of(k)
                    == old(g).recomputing_of(k),
            r ==> forall|k: NodeRef, x: NodeRef|
                old(g).live(k) && k != self.node ==> (#[trigger] final(g).subs_of(k).contains(x)
                    <==> (old(g).subs_of(k).contains(x) && x != self.node)),
            r ==> forall|k: NodeRef, x: SourceEntry|
                old(g).live(k) && k != self.node ==> (#[trigger] final(g).sources_of(k).contains(x)
                    <==> (old(g).sources_of(k).contains(x) && x.node != self.node)),
    {
        let r = g.dispose(self.node);
        proof {
            if r {
                assert forall|k: NodeRef|
                    #[trigger] old(g).live(k) && k != self.node implies g.live(k) && g.value_of(k)
                    == old(g).value_of(k) && g.state_of(k) == old(g).state_of(k) && g.kind_of(k)
                    == old(g).kind_of(k) && g.count_of(k) == old(g).count_of(k)
                    && g.recomputing_of(k) == old(g).recomputing_of(k) by {
                    assert(g.live(k));
                }
                assert forall|k: NodeRef, x: NodeRef|
                    old(g).live(k) && k != self.node implies (#[trigger] g.subs_of(k).contains(x)
                    <==> (old(g).subs_of(k).contains(x) && x != self.node)) by {
                    assert(g.live(k));
                }
                assert forall|k: NodeRef, x: SourceEntry|
                    old(g).live(k) && k != self.node implies (#[trigger] g.sources_of(
                    k,
                ).contains(x) <==> (old(g).sources_of(k).contains(x) && x.node != self.node)) by {
                    assert(g.live(k));
                }
            }
        }
        r
    }
}

impl Reactive for Signal {
    open spec fn node_ref(&self) -> NodeRef {
        self.node
    }

    fn handle(&self) -> (h: NodeRef) {
        self.node
    }
}

impl Track for Signal {
    fn track(&self, g: &mut Graph) -> (r: Result<(), GraphError>) {
        g.track(self.node)
    }
}

impl Readable for Signal {
    fn try_read(&self, g: &mut Graph) -> (r: Result<Option<i64>, GraphError>) {
        g.try_read(self.node)
    }
}

} // verus!
