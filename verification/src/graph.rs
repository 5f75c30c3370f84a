//! The arena store and the recomputation protocol.
//!
//! A `Graph` owns every node. Handles (`NodeRef`) are validated against the
//! slot's generation on each access, so a disposed node is observed as
//! absent, never as a torn or reused value. Dirty propagation is push-based
//! and travels one edge hop per actual change; recomputation is pull-based
//! and happens only when a node is read.

use vstd::prelude::*;

use crate::node::{Expr, GraphError, Node, NodeKind, NodeRef, NodeState, Slot, SourceEntry};
use crate::node::{clone_expr, contains_node, copy_entries, distinct_nodes, entries_contain,
    expr_height, filter_entries, filter_refs, refs_contain, sat_add, sat_i64, sat_mul};

verus! {

/// The arena store: every reactive node, behind stable copyable handles,
/// plus a free list of vacated slots for reuse.
pub struct Graph {
    slots: Vec<Slot>,
    free: Vec<usize>,
}

impl Graph {
    /// Number of arena slots ever allocated (occupied or vacated).
    pub closed spec fn n_slots(&self) -> nat {
        self.slots@.len()
    }

    /// The current generation of slot `i`.
    pub closed spec fn gen_at(&self, i: int) -> u64 {
        self.slots@[i].generation
    }

    /// Whether `h` currently resolves to a node: its slot exists, is
    /// occupied, and the generations match.
    pub closed spec fn live(&self, h: NodeRef) -> bool {
        &&& h.index < self.slots@.len()
        &&& self.slots@[h.index as int].generation == h.generation
        &&& self.slots@[h.index as int].node is Some
    }

    spec fn node_at(&self, h: NodeRef) -> Node {
        self.slots@[h.index as int].node->Some_0
    }

    /// The cached output of the node `h` resolves to.
    pub closed spec fn value_of(&self, h: NodeRef) -> Option<i64> {
        self.node_at(h).value
    }

    /// The dirty/clean state of the node `h` resolves to.
    pub closed spec fn state_of(&self, h: NodeRef) -> NodeState {
        self.node_at(h).state
    }

    /// Whether the node `h` resolves to holds an externally written value
    /// rather than a recomputed one.
    pub open spec fn is_signal(&self, h: NodeRef) -> bool {
        self.kind_of(h) is Signal
    }

    /// The kind (signal, or memo with its expression) of the node `h`
    /// resolves to.
    pub closed spec fn kind_of(&self, h: NodeRef) -> NodeKind {
        self.node_at(h).kind
    }

    /// The dependency edges recorded at the node's last recomputation.
    pub closed spec fn sources_of(&self, h: NodeRef) -> Seq<SourceEntry> {
        self.node_at(h).sources@
    }

    /// The nodes that read `h` during their own last recomputation.
    pub closed spec fn subs_of(&self, h: NodeRef) -> Seq<NodeRef> {
        self.node_at(h).subscribers@
    }

    /// How many times the node's expression has been evaluated.
    pub closed spec fn count_of(&self, h: NodeRef) -> u64 {
        self.node_at(h).compute_count
    }

    /// Whether the node is currently mid-recomputation.
    pub closed spec fn recomputing_of(&self, h: NodeRef) -> bool {
        self.node_at(h).recomputing
    }

    /// Structural validity: every free-list entry names an existing,
    /// vacated slot, and every live signal holds a value, is `Clean`, and
    /// is never mid-recompute (only memos evaluate or go dirty).
    pub closed spec fn wf(&self) -> bool {
        &&& forall|j: int|
            0 <= j < self.free@.len() ==> (#[trigger] self.free@[j]) < self.slots@.len()
                && self.slots@[self.free@[j] as int].node is None
        &&& forall|i: int, j: int|
            0 <= i < j < self.free@.len() ==> self.free@[i] != self.free@[j]
        &&& forall|h: NodeRef|
            #[trigger] self.live(h) && self.is_signal(h) ==> self.value_of(h) is Some
                && !self.recomputing_of(h) && self.state_of(h) == NodeState::Clean
    }

    /// An empty graph.
    pub fn new() -> (g: Graph)
        ensures
            g.wf(),
            g.n_slots() == 0,
            forall|h: NodeRef| !g.live(h),
    {
        Graph { slots: Vec::new(), free: Vec::new() }
    }

    /// Whether `h` currently resolves to a node.
    pub fn is_live(&self, h: NodeRef) -> (r: bool)
        ensures
            r == self.live(h),
    {
        h.index < self.slots.len() && self.slots[h.index].generation == h.generation
            && self.slots[h.index].node.is_some()
    }

    /// Place `node` in a vacated slot if one exists, else in a new slot,
    /// and return the handle to it.
    fn insert_node(&mut self, node: Node) -> (h: NodeRef)
        requires
            old(self).wf(),
            node.kind is Signal ==> node.value is Some && !node.recomputing && node.state
                == NodeState::Clean,
        ensures
            final(self).wf(),
            final(self).live(h),
            !old(self).live(h),
            final(self).node_at(h) == node,
            old(self).n_slots() <= final(self).n_slots() <= old(self).n_slots() + 1,
            h.index < final(self).n_slots(),
            forall|i: int| 0 <= i < old(self).n_slots() ==> final(self).gen_at(i) == old(self).gen_at(i),
            h.index < old(self).n_slots() ==> h.generation == old(self).gen_at(h.index as int),
            forall|k: NodeRef|
                old(self).live(k) ==> #[trigger] final(self).live(k) && final(self).node_at(k)
                    == old(self).node_at(k),
            forall|k: NodeRef| !old(self).live(k) && k != h ==> !final(self).live(k),
    {
        if let Some(i) = self.free.pop() {
            let generation = self.slots[i].generation;
            self.slots[i] = Slot { generation, node: Some(node) };
            proof {
                assert forall|h: NodeRef|
                    self.live(h) && self.is_signal(h) implies self.value_of(h) is Some
                    && !self.recomputing_of(h) && self.state_of(h) == NodeState::Clean by {
                    if h.index != i {
                        assert(old(self).live(h));
                    }
                }
            }
            NodeRef { index: i, generation }
        } else {
            let index = self.slots.len();
            self.slots.push(Slot { generation: 0, node: Some(node) });
            proof {
                assert forall|h: NodeRef|
                    self.live(h) && self.is_signal(h) implies self.value_of(h) is Some
                    && !self.recomputing_of(h) && self.state_of(h) == NodeState::Clean by {
                    if h.index != index {
                        assert(old(self).live(h));
                    }
                }
            }
            NodeRef { index, generation: 0 }
        }
    }

    /// Allocate a node holding an externally written value.
    ///
    /// The new node is live, `Clean`, holds `Some(initial)`, has no edges,
    /// and no other node is affected. The returned handle did not resolve
    /// before the call.
    pub fn create_signal(&mut self, initial: i64) -> (h: NodeRef)
        requires
            old(self).wf(),
        ensures
            final(self).wf(),
            final(self).live(h),
            !old(self).live(h),
            final(self).is_signal(h),
            final(self).value_of(h) == Some(initial),
            final(self).state_of(h) == NodeState::Clean,
            final(self).sources_of(h).len() == 0,
            final(self).subs_of(h).len() == 0,
            final(self).count_of(h) == 0,
            !final(self).recomputing_of(h),
            old(self).n_slots() <= final(self).n_slots() <= old(self).n_slots() + 1,
            h.index < final(self).n_slots(),
            // slot generations never move on allocation: a handle that was
            // dead before (a disposed one included) cannot be re-issued
            forall|i: int|
                0 <= i < old(self).n_slots() ==> final(self).gen_at(i) == old(self).gen_at(i),
            h.index < old(self).n_slots() ==> h.generation == old(self).gen_at(h.index as int),
            forall|k: NodeRef|
                old(self).live(k) ==> #[trigger] final(self).live(k) && node_unchanged(
                    old(self),
                    final(self),
                    k,
                ),
            forall|k: NodeRef| !old(self).live(k) && k != h ==> !final(self).live(k),
    {
        let h = self.insert_node(
            Node {
                kind: NodeKind::Signal,
                value: Some(initial),
                state: NodeState::Clean,
                recomputing: false,
                sources: Vec::new(),
                subscribers: Vec::new(),
                compute_count: 0,
            },
        );
        proof {
            assert forall|k: NodeRef|
                old(self).live(k) implies #[trigger] self.live(k) && node_unchanged(
                old(self),
                self,
                k,
            ) by {
                assert(old(self).live(k));
                assert(self.live(k));
                assert(self.node_at(k) == old(self).node_at(k));
            }
        }
        h
    }

    /// Allocate a node that recomputes `expr` on demand.
    ///
    /// The new node is live, `Dirty` (it has never computed), holds no
    /// value, has no edges, and no other node is affected. The returned
    /// handle did not resolve before the call.
    pub fn create_memo(&mut self, expr: Expr) -> (h: NodeRef)
        requires
            old(self).wf(),
        ensures
            final(self).wf(),
            final(self).live(h),
            !old(self).live(h),
            !final(self).is_signal(h),
            final(self).kind_of(h) == NodeKind::Computed(expr),
            final(self).value_of(h) is None,
            final(self).state_of(h) == NodeState::Dirty,
            final(self).sources_of(h).len() == 0,
            final(self).subs_of(h).len() == 0,
            final(self).count_of(h) == 0,
            !final(self).recomputing_of(h),
            old(self).n_slots() <= final(self).n_slots() <= old(self).n_slots() + 1,
            h.index < final(self).n_slots(),
            // slot generations never move on allocation: a handle that was
            // dead before (a disposed one included) cannot be re-issued
            forall|i: int|
                0 <= i < old(self).n_slots() ==> final(self).gen_at(i) == old(self).gen_at(i),
            h.index < old(self).n_slots() ==> h.generation == old(self).gen_at(h.index as int),
            forall|k: NodeRef|
                old(self).live(k) ==> #[trigger] final(self).live(k) && node_unchanged(
                    old(self),
                    final(self),
                    k,
                ),
            forall|k: NodeRef| !old(self).live(k) && k != h ==> !final(self).live(k),
    {
        let h = self.insert_node(
            Node {
                kind: NodeKind::Computed(expr),
                value: None,
                state: NodeState::Dirty,
                recomputing: false,
                sources: Vec::new(),
                subscribers: Vec::new(),
                compute_count: 0,
            },
        );
        proof {
            assert forall|k: NodeRef|
                old(self).live(k) implies #[trigger] self.live(k) && node_unchanged(
                old(self),
                self,
                k,
            ) by {
                assert(old(self).live(k));
                assert(self.live(k));
                assert(self.node_at(k) == old(self).node_at(k));
            }
        }
        h
    }
}

impl Graph {
    /// Overwrite the dirty/clean state of the memo `h` resolves to.
    fn set_state(&mut self, h: NodeRef, s: NodeState)
        requires
            old(self).wf(),
            old(self).live(h),
            !old(self).is_signal(h),
        ensures
            final(self).wf(),
            same_shape(old(self), final(self)),
            final(self).state_of(h) == s,
            final(self).value_of(h) == old(self).value_of(h),
            final(self).kind_of(h) == old(self).kind_of(h),
            final(self).sources_of(h) == old(self).sources_of(h),
            final(self).subs_of(h) == old(self).subs_of(h),
            final(self).count_of(h) == old(self).count_of(h),
            final(self).recomputing_of(h) == old(self).recomputing_of(h),
            forall|k: NodeRef|
                old(self).live(k) && k != h ==> node_unchanged(old(self), final(self), k),
    {
        let slot = &mut self.slots[h.index];
        match &mut slot.node {
            Some(n) => {
                n.state = s;
            },
            None => {},
        }
        proof {
            self.lemma_local_update(old(self), h);
        }
    }

    /// Overwrite the cached value of the node `h` resolves to.
    fn set_value_some(&mut self, h: NodeRef, v: i64)
        requires
            old(self).wf(),
            old(self).live(h),
        ensures
            final(self).wf(),
            same_shape(old(self), final(self)),
            final(self).value_of(h) == Some(v),
            final(self).state_of(h) == old(self).state_of(h),
            final(self).kind_of(h) == old(self).kind_of(h),
            final(self).sources_of(h) == old(self).sources_of(h),
            final(self).subs_of(h) == old(self).subs_of(h),
            final(self).count_of(h) == old(self).count_of(h),
            final(self).recomputing_of(h) == old(self).recomputing_of(h),
            forall|k: NodeRef|
                old(self).live(k) && k != h ==> node_unchanged(old(self), final(self), k),
    {
        let slot = &mut self.slots[h.index];
        match &mut slot.node {
            Some(n) => {
                n.value = Some(v);
            },
            None => {},
        }
        proof {
            self.lemma_local_update(old(self), h);
        }
    }

    /// Raise or clear the mid-recomputation flag of the node `h` resolves to.
    fn set_recomputing(&mut self, h: NodeRef, b: bool)
        requires
            old(self).wf(),
            old(self).live(h),
            !old(self).is_signal(h),
        ensures
            final(self).wf(),
            same_shape(old(self), final(self)),
            final(self).recomputing_of(h) == b,
            final(self).value_of(h) == old(self).value_of(h),
            final(self).state_of(h) == old(self).state_of(h),
            final(self).kind_of(h) == old(self).kind_of(h),
            final(self).sources_of(h) == old(self).sources_of(h),
            final(self).subs_of(h) == old(self).subs_of(h),
            final(self).count_of(h) == old(self).count_of(h),
            forall|k: NodeRef|
                old(self).live(k) && k != h ==> node_unchanged(old(self), final(self), k),
    {
        let slot = &mut self.slots[h.index];
        match &mut slot.node {
            Some(n) => {
                n.recomputing = b;
            },
            None => {},
        }
        proof {
            self.lemma_local_update(old(self), h);
        }
    }

    /// After a mutation that touched only the payload of `h`'s slot and
    /// kept the node's kind and value-presence, well-formedness and the
    /// shape of the arena carry over from `pre`.
    proof fn lemma_local_update(&self, pre: &Graph, h: NodeRef)
        requires
            pre.wf(),
            pre.live(h),
            self.slots@.len() == pre.slots@.len(),
            self.free@ == pre.free@,
            forall|i: int|
                0 <= i < pre.slots@.len() && i != h.index ==> self.slots@[i] == pre.slots@[i],
            self.slots@[h.index as int].generation == pre.slots@[h.index as int].generation,
            self.slots@[h.index as int].node is Some,
            self.node_at(h).kind == pre.node_at(h).kind,
            pre.node_at(h).value is Some ==> self.node_at(h).value is Some,
            pre.node_at(h).kind is Signal ==> self.node_at(h).recomputing == pre.node_at(
                h,
            ).recomputing && self.node_at(h).state == pre.node_at(h).state,
        ensures
            self.wf(),
            same_shape(pre, self),
            forall|k: NodeRef| pre.live(k) && k != h ==> node_unchanged(pre, self, k),
    {
        assert forall|k: NodeRef| pre.live(k) implies self.live(k) by {}
        assert forall|k: NodeRef| self.live(k) implies pre.live(k) by {}
        assert forall|k: NodeRef|
            self.live(k) && self.is_signal(k) implies self.value_of(k) is Some
            && !self.recomputing_of(k) && self.state_of(k) == NodeState::Clean by {
            assert(pre.live(k));
            if k.index != h.index {
                assert(self.node_at(k) == pre.node_at(k));
            }
        }
    }

    /// Mark every live memo subscribed to `h` (other than `h` itself)
    /// `Dirty`, and change nothing else. This is the push half of
    /// propagation: the flag travels exactly one edge hop, no recomputation
    /// runs, and signals — which have nothing to recompute — are never
    /// marked.
    fn mark_subscribers_dirty(&mut self, h: NodeRef)
        requires
            old(self).wf(),
            old(self).live(h),
        ensures
            final(self).wf(),
            same_shape(old(self), final(self)),
            forall|k: NodeRef|
                old(self).live(k) && k != h && old(self).subs_of(h).contains(k) && !old(
                    self,
                ).is_signal(k) ==> #[trigger] only_state_dirtied(old(self), final(self), k),
            forall|k: NodeRef|
                old(self).live(k) && !(k != h && old(self).subs_of(h).contains(k) && !old(
                    self,
                ).is_signal(k)) ==> #[trigger] node_unchanged(old(self), final(self), k),
    {
        let subs = self.copy_subscribers(h);
        let ghost pre = *self;
        let mut i: usize = 0;
        while i < subs.len()
            invariant
                subs@ == pre.subs_of(h),
                pre.wf(),
                pre.live(h),
                self.wf(),
                same_shape(&pre, self),
                0 <= i <= subs@.len(),
                forall|k: NodeRef|
                    pre.live(k) && k != h && !pre.is_signal(k) && (exists|j: int|
                        0 <= j < i && subs@[j] == k) ==> only_state_dirtied(&pre, self, k),
                forall|k: NodeRef|
                    pre.live(k) && !(k != h && !pre.is_signal(k) && (exists|j: int|
                        0 <= j < i && subs@[j] == k)) ==> node_unchanged(&pre, self, k),
            decreases subs@.len() - i,
        {
            let s = subs[i];
            let ghost mid = *self;
            if !(s.index == h.index && s.generation == h.generation) && self.is_live(s)
                && !self.is_signal_node(s) {
                self.set_state(s, NodeState::Dirty);
                proof {
                    assert(node_unchanged(&pre, &mid, h));
                    assert(forall|k: NodeRef|
                        pre.live(k) && k != s && node_unchanged(&pre, &mid, k)
                            ==> node_unchanged(&pre, self, k));
                    assert(forall|k: NodeRef|
                        pre.live(k) && k != s && only_state_dirtied(&pre, &mid, k)
                            ==> only_state_dirtied(&pre, self, k));
                }
            }
            i += 1;
        }
        proof {
            assert forall|k: NodeRef|
                old(self).live(k) && k != h && old(self).subs_of(h).contains(k) && !old(
                    self,
                ).is_signal(k) implies only_state_dirtied(old(self), self, k) by {
                let j = choose|j: int| 0 <= j < subs@.len() && subs@[j] == k;
                assert(0 <= j < subs@.len() && subs@[j] == k);
            }
        }
    }

    /// The subscriber list of `h`, as a fresh vector.
    fn copy_subscribers(&self, h: NodeRef) -> (r: Vec<NodeRef>)
        requires
            self.live(h),
        ensures
            r@ == self.subs_of(h),
    {
        let slot = &self.slots[h.index];
        match &slot.node {
            Some(n) => {
                let mut r: Vec<NodeRef> = Vec::new();
                let mut i: usize = 0;
                while i < n.subscribers.len()
                    invariant
                        0 <= i <= n.subscribers@.len(),
                        r@.len() == i,
                        forall|j: int| 0 <= j < i ==> r@[j] == n.subscribers@[j],
                    decreases n.subscribers@.len() - i,
                {
                    r.push(n.subscribers[i]);
                    i += 1;
                }
                proof {
                    assert(r@ =~= n.subscribers@);
                }
                r
            },
            None => Vec::new(),
        }
    }

    /// Write `v` into the signal `h`.
    ///
    /// Nothing happens unless `h` resolves to a signal. Writing the value
    /// the signal already holds changes nothing at all (equality gating at
    /// the source). Writing a different value stores it and marks exactly
    /// the signal's live subscribers `Dirty` — one edge hop, no further —
    /// and never evaluates any node's expression: every node's compute
    /// count is exactly what it was, however many times `set` is called.
    pub fn set(&mut self, h: NodeRef, v: i64) -> (changed: bool)
        requires
            old(self).wf(),
        ensures
            final(self).wf(),
            same_shape(old(self), final(self)),
            // a write never evaluates anything (lazy minimality)
            forall|k: NodeRef|
                old(self).live(k) ==> final(self).count_of(k) == old(self).count_of(k),
            changed == (old(self).live(h) && old(self).is_signal(h) && old(self).value_of(h)
                != Some(v)),
            !changed ==> forall|k: NodeRef|
                old(self).live(k) ==> node_unchanged(old(self), final(self), k),
            changed ==> {
                &&& final(self).value_of(h) == Some(v)
                &&& final(self).state_of(h) == old(self).state_of(h)
                &&& final(self).kind_of(h) == old(self).kind_of(h)
                &&& final(self).sources_of(h) == old(self).sources_of(h)
                &&& final(self).subs_of(h) == old(self).subs_of(h)
                &&& final(self).count_of(h) == old(self).count_of(h)
                // exactly the live memo subscribers are marked, nothing
                // else moves (a signal has nothing to recompute, so it is
                // never marked)
                &&& forall|k: NodeRef|
                    old(self).live(k) && k != h && old(self).subs_of(h).contains(k) && !old(
                        self,
                    ).is_signal(k) ==> only_state_dirtied(old(self), final(self), k)
                &&& forall|k: NodeRef|
                    old(self).live(k) && k != h && !(old(self).subs_of(h).contains(k) && !old(
                        self,
                    ).is_signal(k)) ==> node_unchanged(old(self), final(self), k)
            },
    {
        if !self.is_live(h) {
            return false;
        }
        let is_sig = match &self.slots[h.index].node {
            Some(n) => matches!(&n.kind, NodeKind::Signal),
            None => false,
        };
        if !is_sig {
            return false;
        }
        let cur = match &self.slots[h.index].node {
            Some(n) => n.value,
            None => None,
        };
        if cur == Some(v) {
            return false;
        }
        self.set_value_some(h, v);
        let ghost mid = *self;
        self.mark_subscribers_dirty(h);
        proof {
            assert(node_unchanged(&mid, self, h));
            assert forall|k: NodeRef|
                old(self).live(k) && k != h && old(self).subs_of(h).contains(k) && !old(
                    self,
                ).is_signal(k) implies only_state_dirtied(old(self), self, k) by {
                assert(mid.live(k));
                assert(mid.subs_of(h).contains(k));
                assert(node_unchanged(old(self), &mid, k));
                assert(!mid.is_signal(k));
                assert(only_state_dirtied(&mid, self, k));
            }
            assert forall|k: NodeRef|
                old(self).live(k) && k != h && !(old(self).subs_of(h).contains(k) && !old(
                    self,
                ).is_signal(k)) implies node_unchanged(old(self), self, k) by {
                assert(mid.live(k));
                assert(node_unchanged(old(self), &mid, k));
                assert(node_unchanged(&mid, self, k));
            }
        }
        true
    }

    /// Remove the node `h` resolves to from the graph.
    ///
    /// Returns whether anything was disposed. The slot is vacated and its
    /// generation bumped, so `h` — and every copy of it — no longer
    /// resolves, and no later allocation revives it. Before the slot is
    /// vacated the node is detached from the whole graph: `h` disappears
    /// from every other node's subscriber and source lists, so a later
    /// change to a former dependency cannot redeliver a notification to the
    /// disposed node. Every other node keeps its value, state, kind, and
    /// compute count; no expression is evaluated.
    pub fn dispose(&mut self, h: NodeRef) -> (r: bool)
        requires
            old(self).wf(),
        ensures
            final(self).wf(),
            r == old(self).live(h),
            final(self).n_slots() == old(self).n_slots(),
            !r ==> *final(self) == *old(self),
            !r ==> forall|k: NodeRef|
                old(self).live(k) ==> #[trigger] final(self).live(k) && node_unchanged(
                    old(self),
                    final(self),
                    k,
                ),
            !r ==> forall|k: NodeRef| !old(self).live(k) ==> !final(self).live(k),
            r ==> !final(self).live(h),
            // the vacated slot's generation is bumped, so the handle can
            // never match it again (a slot whose generation is exhausted is
            // retired instead: vacated and never returned to the free list)
            r ==> final(self).gen_at(h.index as int) == (if h.generation < u64::MAX {
                h.generation + 1
            } else {
                h.generation as int
            }),
            r ==> forall|k: NodeRef| !old(self).live(k) ==> !final(self).live(k),
            r ==> forall|k: NodeRef|
                old(self).live(k) && k != h ==> {
                    &&& #[trigger] final(self).live(k)
                    &&& final(self).value_of(k) == old(self).value_of(k)
                    &&& final(self).state_of(k) == old(self).state_of(k)
                    &&& final(self).kind_of(k) == old(self).kind_of(k)
                    &&& final(self).count_of(k) == old(self).count_of(k)
                    &&& final(self).recomputing_of(k) == old(self).recomputing_of(k)
                    &&& forall|x: NodeRef|
                        final(self).subs_of(k).contains(x) <==> (old(self).subs_of(k).contains(x)
                            && x != h)
                    &&& forall|e: SourceEntry|
                        final(self).sources_of(k).contains(e) <==> (old(self).sources_of(
                            k,
                        ).contains(e) && e.node != h)
                },
    {
        if !self.is_live(h) {
            return false;
        }
        let ghost pre = *self;
        // Detach: strip h from every other node's edge lists.
        let n_slots = self.slots.len();
        let mut j: usize = 0;
        while j < n_slots
            invariant
                pre.wf(),
                pre.live(h),
                n_slots == pre.slots@.len(),
                self.slots@.len() == pre.slots@.len(),
                self.free@ == pre.free@,
                0 <= j <= n_slots,
                forall|m: int| j <= m < n_slots ==> self.slots@[m] == pre.slots@[m],
                forall|m: int|
                    0 <= m < n_slots ==> (#[trigger] self.slots@[m]).generation
                        == pre.slots@[m].generation && (self.slots@[m].node is Some
                        <==> pre.slots@[m].node is Some),
                self.slots@[h.index as int] == pre.slots@[h.index as int],
                forall|m: int|
                    0 <= m < j && m != h.index && self.slots@[m].node is Some ==> {
                        let n = (#[trigger] self.slots@[m]).node->Some_0;
                        let p = pre.slots@[m].node->Some_0;
                        &&& n.value == p.value
                        &&& n.state == p.state
                        &&& n.kind == p.kind
                        &&& n.compute_count == p.compute_count
                        &&& n.recomputing == p.recomputing
                        &&& forall|x: NodeRef|
                            n.subscribers@.contains(x) <==> (p.subscribers@.contains(x) && x != h)
                        &&& forall|e: SourceEntry|
                            n.sources@.contains(e) <==> (p.sources@.contains(e) && e.node != h)
                    },
            decreases n_slots - j,
        {
            if j != h.index {
                let slot = &mut self.slots[j];
                match &mut slot.node {
                    Some(n) => {
                        let newsubs = filter_refs(&n.subscribers, h);
                        n.subscribers = newsubs;
                        let newsrcs = filter_entries(&n.sources, h);
                        n.sources = newsrcs;
                    },
                    None => {},
                }
            }
            j += 1;
        }
        // Vacate the slot and bump its generation.
        let generation = self.slots[h.index].generation;
        let bumped = if generation < u64::MAX {
            generation + 1
        } else {
            generation
        };
        self.slots[h.index] = Slot { generation: bumped, node: None };
        if generation < u64::MAX {
            self.free.push(h.index);
        }
        proof {
            assert forall|m: int|
                0 <= m < self.free@.len() implies (#[trigger] self.free@[m]) < self.slots@.len()
                && self.slots@[self.free@[m] as int].node is None by {
                if m < pre.free@.len() {
                    assert(pre.free@[m] < pre.slots@.len());
                    assert(pre.slots@[pre.free@[m] as int].node is None);
                    assert(pre.free@[m] != h.index);
                }
            }
            assert forall|i: int, m: int|
                0 <= i < m < self.free@.len() implies self.free@[i] != self.free@[m] by {
                if m < pre.free@.len() {
                } else {
                    if i < pre.free@.len() {
                        assert(pre.slots@[pre.free@[i] as int].node is None);
                    }
                }
            }
            assert forall|k: NodeRef|
                self.live(k) && self.is_signal(k) implies self.value_of(k) is Some
                && !self.recomputing_of(k) && self.state_of(k) == NodeState::Clean by {
                assert(pre.live(k));
                assert(self.node_at(k).value == pre.node_at(k).value);
                assert(self.node_at(k).kind == pre.node_at(k).kind);
                assert(self.node_at(k).recomputing == pre.node_at(k).recomputing);
                assert(self.node_at(k).state == pre.node_at(k).state);
            }
            assert forall|k: NodeRef| !pre.live(k) implies !self.live(k) by {}
        }
        true
    }

    /// The cached value of the node `h` resolves to.
    fn read_value(&self, h: NodeRef) -> (r: Option<i64>)
        requires
            self.live(h),
        ensures
            r == self.value_of(h),
    {
        match &self.slots[h.index].node {
            Some(n) => n.value,
            None => None,
        }
    }

    /// Whether the node `h` resolves to is a signal.
    fn is_signal_node(&self, h: NodeRef) -> (r: bool)
        requires
            self.live(h),
        ensures
            r == self.is_signal(h),
    {
        match &self.slots[h.index].node {
            Some(n) => matches!(&n.kind, NodeKind::Signal),
            None => false,
        }
    }

    /// The recorded source list of `h`, as a fresh vector.
    fn copy_sources(&self, h: NodeRef) -> (r: Vec<SourceEntry>)
        requires
            self.live(h),
        ensures
            r@ == self.sources_of(h),
    {
        match &self.slots[h.index].node {
            Some(n) => copy_entries(&n.sources),
            None => Vec::new(),
        }
    }

    /// A copy of the expression of the memo `h` resolves to.
    fn copy_expr_of(&self, h: NodeRef) -> (r: Expr)
        requires
            self.live(h),
            !self.is_signal(h),
        ensures
            self.kind_of(h) == NodeKind::Computed(r),
    {
        match &self.slots[h.index].node {
            Some(n) => match &n.kind {
                NodeKind::Computed(e) => clone_expr(e),
                NodeKind::Signal => Expr::Const(0),
            },
            None => Expr::Const(0),
        }
    }

    /// Count one more evaluation of `h`'s expression.
    fn bump_count(&mut self, h: NodeRef)
        requires
            old(self).wf(),
            old(self).live(h),
        ensures
            final(self).wf(),
            same_shape(old(self), final(self)),
            final(self).count_of(h) == (if old(self).count_of(h) < u64::MAX {
                old(self).count_of(h) + 1
            } else {
                u64::MAX as int
            }),
            final(self).value_of(h) == old(self).value_of(h),
            final(self).state_of(h) == old(self).state_of(h),
            final(self).kind_of(h) == old(self).kind_of(h),
            final(self).sources_of(h) == old(self).sources_of(h),
            final(self).subs_of(h) == old(self).subs_of(h),
            final(self).recomputing_of(h) == old(self).recomputing_of(h),
            forall|k: NodeRef|
                old(self).live(k) && k != h ==> node_unchanged(old(self), final(self), k),
    {
        let slot = &mut self.slots[h.index];
        match &mut slot.node {
            Some(n) => {
                if n.compute_count < u64::MAX {
                    n.compute_count = n.compute_count + 1;
                }
            },
            None => {},
        }
        proof {
            self.lemma_local_update(old(self), h);
        }
    }

    /// Replace the recorded source list of `h`.
    fn set_sources(&mut self, h: NodeRef, s: Vec<SourceEntry>)
        requires
            old(self).wf(),
            old(self).live(h),
        ensures
            final(self).wf(),
            same_shape(old(self), final(self)),
            final(self).sources_of(h) == s@,
            final(self).value_of(h) == old(self).value_of(h),
            final(self).state_of(h) == old(self).state_of(h),
            final(self).kind_of(h) == old(self).kind_of(h),
            final(self).subs_of(h) == old(self).subs_of(h),
            final(self).count_of(h) == old(self).count_of(h),
            final(self).recomputing_of(h) == old(self).recomputing_of(h),
            forall|k: NodeRef|
                old(self).live(k) && k != h ==> node_unchanged(old(self), final(self), k),
    {
        let slot = &mut self.slots[h.index];
        match &mut slot.node {
            Some(n) => {
                n.sources = s;
            },
            None => {},
        }
        proof {
            self.lemma_local_update(old(self), h);
        }
    }

    /// Drop every occurrence of `x` from the subscriber list of `k`.
    fn remove_sub(&mut self, k: NodeRef, x: NodeRef)
        requires
            old(self).wf(),
            old(self).live(k),
        ensures
            final(self).wf(),
            same_shape(old(self), final(self)),
            forall|y: NodeRef|
                final(self).subs_of(k).contains(y) <==> (old(self).subs_of(k).contains(y) && y
                    != x),
            final(self).value_of(k) == old(self).value_of(k),
            final(self).state_of(k) == old(self).state_of(k),
            final(self).kind_of(k) == old(self).kind_of(k),
            final(self).sources_of(k) == old(self).sources_of(k),
            final(self).count_of(k) == old(self).count_of(k),
            final(self).recomputing_of(k) == old(self).recomputing_of(k),
            forall|m: NodeRef|
                old(self).live(m) && m != k ==> node_unchanged(old(self), final(self), m),
    {
        let slot = &mut self.slots[k.index];
        match &mut slot.node {
            Some(n) => {
                let filtered = filter_refs(&n.subscribers, x);
                n.subscribers = filtered;
            },
            None => {},
        }
        proof {
            self.lemma_local_update(old(self), k);
        }
    }

    /// Record `x` as a subscriber of `k` if it is not one already.
    fn add_sub(&mut self, k: NodeRef, x: NodeRef)
        requires
            old(self).wf(),
            old(self).live(k),
        ensures
            final(self).wf(),
            same_shape(old(self), final(self)),
            final(self).subs_of(k).contains(x),
            forall|y: NodeRef|
                y != x ==> (final(self).subs_of(k).contains(y) <==> old(self).subs_of(k).contains(
                    y,
                )),
            old(self).subs_of(k).contains(x) ==> final(self).subs_of(k) == old(self).subs_of(k),
            final(self).value_of(k) == old(self).value_of(k),
            final(self).state_of(k) == old(self).state_of(k),
            final(self).kind_of(k) == old(self).kind_of(k),
            final(self).sources_of(k) == old(self).sources_of(k),
            final(self).count_of(k) == old(self).count_of(k),
            final(self).recomputing_of(k) == old(self).recomputing_of(k),
            forall|m: NodeRef|
                old(self).live(m) && m != k ==> node_unchanged(old(self), final(self), m),
    {
        let slot = &mut self.slots[k.index];
        match &mut slot.node {
            Some(n) => {
                if !refs_contain(&n.subscribers, x) {
                    let ghost s0 = n.subscribers@;
                    n.subscribers.push(x);
                    proof {
                        assert(n.subscribers@ == s0.push(x));
                        assert(n.subscribers@[s0.len() as int] == x);
                        assert forall|y: NodeRef|
                            y != x implies (n.subscribers@.contains(y) <==> s0.contains(y)) by {
                            if n.subscribers@.contains(y) {
                                let m = choose|m: int|
                                    0 <= m < n.subscribers@.len() && n.subscribers@[m] == y;
                                assert(m < s0.len() && s0[m] == y);
                            }
                            if s0.contains(y) {
                                let m = choose|m: int| 0 <= m < s0.len() && s0[m] == y;
                                assert(n.subscribers@[m] == y);
                            }
                        }
                    }
                }
            },
            None => {},
        }
        proof {
            self.lemma_local_update(old(self), k);
        }
    }

    /// Install the dependency edges discovered by a recomputation of `h`.
    ///
    /// `new_sources` — the nodes actually read this round, each with the
    /// value observed — replaces the recorded source list wholesale, so a
    /// source not re-read this round is dropped. Edges stay mutual: `h` is
    /// removed from the subscriber list of every dropped source and added
    /// to that of every newly read one, so a node whose recomputation
    /// stopped reading a branch no longer receives notifications from it.
    pub(crate) fn update_sources(&mut self, h: NodeRef, new_sources: Vec<SourceEntry>)
        requires
            old(self).wf(),
            old(self).live(h),
            distinct_nodes(new_sources@),
            !contains_node(new_sources@, h),
        ensures
            final(self).wf(),
            same_shape(old(self), final(self)),
            final(self).sources_of(h) == new_sources@,
            final(self).value_of(h) == old(self).value_of(h),
            final(self).state_of(h) == old(self).state_of(h),
            final(self).kind_of(h) == old(self).kind_of(h),
            final(self).subs_of(h) == old(self).subs_of(h),
            final(self).count_of(h) == old(self).count_of(h),
            final(self).recomputing_of(h) == old(self).recomputing_of(h),
            forall|k: NodeRef|
                old(self).live(k) && k != h ==> {
                    &&& final(self).value_of(k) == old(self).value_of(k)
                    &&& final(self).state_of(k) == old(self).state_of(k)
                    &&& final(self).kind_of(k) == old(self).kind_of(k)
                    &&& final(self).sources_of(k) == old(self).sources_of(k)
                    &&& final(self).count_of(k) == old(self).count_of(k)
                    &&& final(self).recomputing_of(k) == old(self).recomputing_of(k)
                },
            // a newly read source now notifies h
            forall|k: NodeRef|
                old(self).live(k) && k != h && contains_node(new_sources@, k)
                    ==> final(self).subs_of(k).contains(h),
            // a dropped source no longer notifies h
            forall|k: NodeRef|
                old(self).live(k) && k != h && !contains_node(new_sources@, k) && contains_node(
                    old(self).sources_of(h),
                    k,
                ) ==> !final(self).subs_of(k).contains(h),
            // subscriptions of bystanders are untouched
            forall|k: NodeRef|
                old(self).live(k) && k != h && !contains_node(new_sources@, k) && !contains_node(
                    old(self).sources_of(h),
                    k,
                ) ==> final(self).subs_of(k) == old(self).subs_of(k),
            // no list loses or gains any subscriber other than h
            forall|k: NodeRef, y: NodeRef|
                old(self).live(k) && k != h && y != h ==> (final(self).subs_of(k).contains(y)
                    <==> old(self).subs_of(k).contains(y)),
    {
        let ghost pre = *self;
        let old_sources = self.copy_sources(h);
        let installed = copy_entries(&new_sources);
        self.set_sources(h, installed);
        // Remove h from the subscriber lists of dropped sources.
        let mut i: usize = 0;
        while i < old_sources.len()
            invariant
                pre.wf(),
                pre.live(h),
                old_sources@ == pre.sources_of(h),
                distinct_nodes(new_sources@),
                !contains_node(new_sources@, h),
                self.wf(),
                same_shape(&pre, self),
                0 <= i <= old_sources@.len(),
                self.live(h),
                self.sources_of(h) == new_sources@,
                self.value_of(h) == pre.value_of(h),
                self.state_of(h) == pre.state_of(h),
                self.kind_of(h) == pre.kind_of(h),
                self.subs_of(h) == pre.subs_of(h),
                self.count_of(h) == pre.count_of(h),
                self.recomputing_of(h) == pre.recomputing_of(h),
                forall|k: NodeRef|
                    pre.live(k) && k != h ==> {
                        &&& self.value_of(k) == pre.value_of(k)
                        &&& self.state_of(k) == pre.state_of(k)
                        &&& self.kind_of(k) == pre.kind_of(k)
                        &&& self.sources_of(k) == pre.sources_of(k)
                        &&& self.count_of(k) == pre.count_of(k)
                        &&& self.recomputing_of(k) == pre.recomputing_of(k)
                    },
                forall|k: NodeRef, y: NodeRef|
                    pre.live(k) && k != h && y != h ==> (self.subs_of(k).contains(y)
                        <==> pre.subs_of(k).contains(y)),
                forall|k: NodeRef|
                    pre.live(k) && k != h && !contains_node(new_sources@, k) && (exists|j: int|
                        0 <= j < i && old_sources@[j].node == k) ==> !self.subs_of(k).contains(h),
                forall|k: NodeRef|
                    pre.live(k) && k != h && !(!contains_node(new_sources@, k) && (exists|j: int|
                        0 <= j < i && old_sources@[j].node == k)) ==> self.subs_of(k)
                        == pre.subs_of(k),
            decreases old_sources@.len() - i,
        {
            let e = old_sources[i];
            if !(e.node == h) && !entries_contain(&new_sources, e.node) && self.is_live(e.node) {
                let ghost mid = *self;
                self.remove_sub(e.node, h);
                proof {
                    assert forall|k: NodeRef| pre.live(k) implies mid.live(k) && self.live(k) by {}
                    assert forall|k: NodeRef|
                        pre.live(k) && k != e.node implies node_unchanged(&mid, self, k) by {
                        assert(mid.live(k));
                    }
                    assert(node_unchanged(&mid, self, h));
                }
            }
            i += 1;
        }
        let ghost after_remove = *self;
        // Add h to the subscriber lists of newly read sources.
        let mut i2: usize = 0;
        while i2 < new_sources.len()
            invariant
                pre.wf(),
                pre.live(h),
                distinct_nodes(new_sources@),
                !contains_node(new_sources@, h),
                self.wf(),
                same_shape(&pre, self),
                0 <= i2 <= new_sources@.len(),
                self.live(h),
                self.sources_of(h) == new_sources@,
                self.value_of(h) == pre.value_of(h),
                self.state_of(h) == pre.state_of(h),
                self.kind_of(h) == pre.kind_of(h),
                self.subs_of(h) == pre.subs_of(h),
                self.count_of(h) == pre.count_of(h),
                self.recomputing_of(h) == pre.recomputing_of(h),
                forall|k: NodeRef|
                    pre.live(k) && k != h ==> {
                        &&& self.value_of(k) == pre.value_of(k)
                        &&& self.state_of(k) == pre.state_of(k)
                        &&& self.kind_of(k) == pre.kind_of(k)
                        &&& self.sources_of(k) == pre.sources_of(k)
                        &&& self.count_of(k) == pre.count_of(k)
                        &&& self.recomputing_of(k) == pre.recomputing_of(k)
                    },
                forall|k: NodeRef, y: NodeRef|
                    pre.live(k) && k != h && y != h ==> (self.subs_of(k).contains(y)
                        <==> pre.subs_of(k).contains(y)),
                forall|k: NodeRef|
                    pre.live(k) && k != h && contains_node(new_sources@, k) && (exists|j: int|
                        0 <= j < i2 && new_sources@[j].node == k) ==> self.subs_of(k).contains(h),
                forall|k: NodeRef|
                    pre.live(k) && k != h && !(exists|j: int|
                        0 <= j < i2 && new_sources@[j].node == k) ==> self.subs_of(k) == after_remove.subs_of(
                        k,
                    ),
                forall|k: NodeRef|
                    pre.live(k) && k != h && !contains_node(new_sources@, k) && contains_node(
                        pre.sources_of(h),
                        k,
                    ) ==> !after_remove.subs_of(k).contains(h),
                forall|k: NodeRef|
                    pre.live(k) && k != h && !contains_node(new_sources@, k) && !contains_node(
                        pre.sources_of(h),
                        k,
                    ) ==> after_remove.subs_of(k) == pre.subs_of(k),
            decreases new_sources@.len() - i2,
        {
            let e = new_sources[i2];
            proof {
                assert(e.node != h);
            }
            if self.is_live(e.node) {
                let ghost mid = *self;
                self.add_sub(e.node, h);
                proof {
                    assert forall|k: NodeRef| pre.live(k) implies mid.live(k) && self.live(k) by {}
                    assert forall|k: NodeRef|
                        pre.live(k) && k != e.node implies node_unchanged(&mid, self, k) by {
                        assert(mid.live(k));
                    }
                    assert(node_unchanged(&mid, self, h));
                    assert forall|j: int|
                        0 <= j < i2 && pre.live(new_sources@[j].node) implies self.subs_of(
                        new_sources@[j].node,
                    ).contains(h) by {
                        assert(new_sources@[j].node != e.node);
                        assert(node_unchanged(&mid, self, new_sources@[j].node));
                    }
                }
            }
            i2 += 1;
        }
        proof {
            assert forall|k: NodeRef|
                pre.live(k) && k != h && contains_node(new_sources@, k) implies self.subs_of(
                k,
            ).contains(h) by {
                let j = choose|j: int| 0 <= j < new_sources@.len() && new_sources@[j].node == k;
                assert(0 <= j < new_sources@.len() && new_sources@[j].node == k);
            }
            assert forall|k: NodeRef|
                pre.live(k) && k != h && !contains_node(new_sources@, k) && contains_node(
                pre.sources_of(h),
                k,
            ) implies !self.subs_of(k).contains(h) by {
                assert(self.subs_of(k) == after_remove.subs_of(k));
            }
        }
    }

    /// Commit the freshly computed output `v` of `h`, gated by equality.
    ///
    /// The evaluation is counted and `h` becomes `Clean`. If `v` equals the
    /// cached value, the cached value is kept and **no** subscriber is
    /// marked: a recomputation that does not change the output propagates
    /// nothing, and every other node is left exactly as it was. Only when
    /// the output differs is it stored, and then exactly the live
    /// subscribers of `h` are marked `Dirty` — one edge hop.
    pub(crate) fn commit_value(&mut self, h: NodeRef, v: i64)
        requires
            old(self).wf(),
            old(self).live(h),
            !old(self).is_signal(h),
        ensures
            final(self).wf(),
            same_shape(old(self), final(self)),
            final(self).value_of(h) == Some(v),
            final(self).state_of(h) == NodeState::Clean,
            final(self).kind_of(h) == old(self).kind_of(h),
            final(self).sources_of(h) == old(self).sources_of(h),
            final(self).subs_of(h) == old(self).subs_of(h),
            final(self).recomputing_of(h) == old(self).recomputing_of(h),
            final(self).count_of(h) == (if old(self).count_of(h) < u64::MAX {
                old(self).count_of(h) + 1
            } else {
                u64::MAX as int
            }),
            // equality gating: an unchanged output touches no other node
            old(self).value_of(h) == Some(v) ==> forall|k: NodeRef|
                old(self).live(k) && k != h ==> node_unchanged(old(self), final(self), k),
            // a changed output marks exactly the live memo subscribers,
            // one hop; signals are never marked
            old(self).value_of(h) != Some(v) ==> forall|k: NodeRef|
                old(self).live(k) && k != h && old(self).subs_of(h).contains(k) && !old(
                    self,
                ).is_signal(k) ==> only_state_dirtied(old(self), final(self), k),
            old(self).value_of(h) != Some(v) ==> forall|k: NodeRef|
                old(self).live(k) && k != h && !(old(self).subs_of(h).contains(k) && !old(
                    self,
                ).is_signal(k)) ==> node_unchanged(old(self), final(self), k),
    {
        let ghost pre = *self;
        self.bump_count(h);
        let unchanged = match self.read_value(h) {
            Some(x) => x == v,
            None => false,
        };
        if unchanged {
            self.set_state(h, NodeState::Clean);
        } else {
            self.set_value_some(h, v);
            self.set_state(h, NodeState::Clean);
            let ghost mid = *self;
            self.mark_subscribers_dirty(h);
            proof {
                assert(mid.subs_of(h) == pre.subs_of(h));
                assert(node_unchanged(&mid, self, h));
                assert forall|k: NodeRef|
                    pre.live(k) && k != h && pre.subs_of(h).contains(k) && !pre.is_signal(k)
                        implies only_state_dirtied(&pre, self, k) by {
                    assert(mid.live(k));
                    assert(mid.subs_of(h).contains(k));
                    assert(node_unchanged(&pre, &mid, k));
                    assert(!mid.is_signal(k));
                    assert(only_state_dirtied(&mid, self, k));
                }
                assert forall|k: NodeRef|
                    pre.live(k) && k != h && !(pre.subs_of(h).contains(k) && !pre.is_signal(k))
                        implies node_unchanged(&pre, self, k) by {
                    assert(mid.live(k));
                    assert(node_unchanged(&pre, &mid, k));
                    assert(node_unchanged(&mid, self, k));
                }
            }
        }
    }
}

impl Graph {
    /// Bring the node `h` resolves to up to date, pulling through its
    /// recorded sources first.
    ///
    /// A node recomputes only if it has never computed, or some recorded
    /// source now holds a value different from the one captured when the
    /// node last computed; merely having been marked `Dirty` is not enough
    /// (the check short-circuit), so a dependency that recomputed to an
    /// equal value costs nothing downstream. The node is flagged for the
    /// whole ensure, so reaching it again from below — a cyclic dependency —
    /// fails that inner read instead of recursing forever; `fuel` bounds the
    /// recursion depth as a second line of defence. Failure leaves the
    /// node's cached value as it was and the node `Dirty`, ready for a
    /// later, non-cyclic retry.
    #[verifier::rlimit(50)]
    fn ensure_fresh(&mut self, h: NodeRef, fuel: u64) -> (r: Result<(), GraphError>)
        requires
            old(self).wf(),
        ensures
            final(self).wf(),
            preserved_by_recompute(old(self), final(self)),
            !old(self).live(h) ==> r is Ok && *final(self) == *old(self),
            old(self).live(h) && old(self).recomputing_of(h) ==> r == Err::<(), GraphError>(
                GraphError::CyclicDependency,
            ),
            r is Ok && old(self).live(h) ==> final(self).state_of(h) == NodeState::Clean
                && final(self).value_of(h) is Some,
            r is Err && old(self).live(h) && !old(self).recomputing_of(h)
                ==> final(self).state_of(h) == NodeState::Dirty && final(self).value_of(h)
                == old(self).value_of(h),
            old(self).live(h) && old(self).is_signal(h) && !old(self).recomputing_of(h)
                ==> r is Ok && *final(self) == *old(self),
            // the two failures are distinguishable at the simplest shapes: a
            // memo whose expression reads itself fails as cyclic, one whose
            // expression reads a disposed node fails as absent
            old(self).kind_of(h) matches NodeKind::Computed(Expr::Read(s)) ==> (fuel >= 1 && old(
                self,
            ).live(h) && !old(self).recomputing_of(h) && old(self).value_of(h) is None && old(
                self,
            ).sources_of(h).len() == 0 ==> (s == h ==> r == Err::<(), GraphError>(
                GraphError::CyclicDependency,
            )) && (!old(self).live(s) ==> r == Err::<(), GraphError>(
                GraphError::AbsentDependency,
            ))),
            // a node that has computed and recorded no sources never
            // recomputes again
            r is Ok && old(self).live(h) && !old(self).is_signal(h) && old(self).value_of(
                h,
            ) is Some && old(self).sources_of(h).len() == 0 ==> final(self).count_of(h) == old(
                self,
            ).count_of(h) && final(self).value_of(h) == old(self).value_of(h),
            // first evaluations of the simplest expressions are pinned down
            old(self).kind_of(h) matches NodeKind::Computed(Expr::Const(c)) ==> (r is Ok && old(
                self,
            ).live(h) && old(self).value_of(h) is None ==> final(self).value_of(h) == Some(c)),
            old(self).kind_of(h) matches NodeKind::Computed(Expr::Read(s)) ==> (r is Ok && old(
                self,
            ).live(h) && old(self).value_of(h) is None && old(self).live(s) && old(self).is_signal(
                s,
            ) ==> final(self).value_of(h) == old(self).value_of(s)),
            // one ensure invokes the node's own compute at most once
            old(self).live(h) ==> final(self).count_of(h) <= old(self).count_of(h) + 1,
            // a memo over live signals is owed success, and each of its
            // three paths is pinned: a first evaluation computes the
            // expression's value and installs exactly its tracked reads as
            // mutual edges; unchanged sources return the cache untouched;
            // a changed source recomputes to the expression's value
            old(self).kind_of(h) matches NodeKind::Computed(e) ==> {
                &&& (fuel >= 2 && pinned_ready(old(self), h, e) ==> r is Ok)
                &&& (fuel >= 2 && pinned_ready(old(self), h, e) && old(self).value_of(h) is None
                    ==> final(self).value_of(h) == Some(spec_eval(old(self), e, None))
                        && (forall|x: NodeRef|
                        contains_node(final(self).sources_of(h), x)
                            <==> expr_tracks(old(self), e, None, x))
                        && (forall|x: NodeRef|
                        old(self).live(x) && expr_tracks(old(self), e, None, x)
                            ==> final(self).subs_of(x).contains(h))
                        && (forall|x: NodeRef|
                        old(self).live(x) && contains_node(old(self).sources_of(h), x)
                            && !expr_tracks(old(self), e, None, x)
                            ==> !final(self).subs_of(x).contains(h))
                        && final(self).subs_of(h) == old(self).subs_of(h)
                        && sources_live_signals(final(self), final(self).sources_of(h))
                        && sources_match(final(self), final(self).sources_of(h))
                        && final(self).count_of(h) == (if old(self).count_of(h) < u64::MAX {
                        old(self).count_of(h) + 1
                    } else {
                        u64::MAX as int
                    })
                        && (forall|k: NodeRef|
                        old(self).live(k) && k != h && !old(self).subs_of(h).contains(k)
                            ==> final(self).state_of(k) == old(self).state_of(k))
                        && (forall|x: NodeRef, y: NodeRef|
                        old(self).live(x) && y != h ==> (final(self).subs_of(x).contains(y)
                            <==> old(self).subs_of(x).contains(y))))
                &&& (fuel >= 2 && pinned_ready(old(self), h, e) && old(self).value_of(h) is Some
                    && !sources_match(old(self), old(self).sources_of(h))
                    ==> final(self).value_of(h)
                        == Some(spec_eval(old(self), e, old(self).value_of(h)))
                        && (forall|x: NodeRef|
                        contains_node(final(self).sources_of(h), x)
                            <==> expr_tracks(old(self), e, old(self).value_of(h), x))
                        && (forall|x: NodeRef|
                        old(self).live(x) && expr_tracks(old(self), e, old(self).value_of(h), x)
                            ==> final(self).subs_of(x).contains(h))
                        && (forall|x: NodeRef|
                        old(self).live(x) && contains_node(old(self).sources_of(h), x)
                            && !expr_tracks(old(self), e, old(self).value_of(h), x)
                            ==> !final(self).subs_of(x).contains(h))
                        && final(self).subs_of(h) == old(self).subs_of(h)
                        && sources_live_signals(final(self), final(self).sources_of(h))
                        && sources_match(final(self), final(self).sources_of(h))
                        && final(self).count_of(h) == (if old(self).count_of(h) < u64::MAX {
                        old(self).count_of(h) + 1
                    } else {
                        u64::MAX as int
                    })
                        && (forall|k: NodeRef|
                        old(self).live(k) && k != h && !old(self).subs_of(h).contains(k)
                            ==> final(self).state_of(k) == old(self).state_of(k))
                        && (forall|x: NodeRef, y: NodeRef|
                        old(self).live(x) && y != h ==> (final(self).subs_of(x).contains(y)
                            <==> old(self).subs_of(x).contains(y)))
                        && (spec_eval(old(self), e, old(self).value_of(h)) == old(self).value_of(
                        h,
                    )->Some_0 ==> (forall|k: NodeRef|
                        old(self).live(k) && k != h ==> final(self).state_of(k) == old(
                            self,
                        ).state_of(k))))
                &&& (fuel >= 2 && old(self).live(h) && !old(self).recomputing_of(h)
                    && old(self).value_of(h) is Some
                    && sources_live_signals(old(self), old(self).sources_of(h))
                    && sources_match(old(self), old(self).sources_of(h))
                    ==> r is Ok && final(self).value_of(h) == old(self).value_of(h)
                        && final(self).count_of(h) == old(self).count_of(h)
                        && final(self).sources_of(h) == old(self).sources_of(h)
                        && final(self).subs_of(h) == old(self).subs_of(h)
                        && (forall|k: NodeRef|
                        old(self).live(k) && k != h ==> node_unchanged(old(self), final(self), k)))
            },
        decreases fuel, 0int,
    {
        if !self.is_live(h) {
            return Ok(());
        }
        let flagged = match &self.slots[h.index].node {
            Some(n) => n.recomputing,
            None => false,
        };
        if flagged {
            return Err(GraphError::CyclicDependency);
        }
        let is_sig = self.is_signal_node(h);
        if is_sig {
            // A signal is always fresh; nothing to pull, nothing to touch.
            return Ok(());
        }
        if fuel == 0 {
            proof {
                assert(preserved_by_recompute(old(self), old(self)));
            }
            self.set_state(h, NodeState::Dirty);
            proof {
                lemma_preserved_step(old(self), old(self), self, h);
            }
            return Err(GraphError::CyclicDependency);
        }
        let ghost pre = *self;
        let prev = self.read_value(h);
        let srcs = self.copy_sources(h);
        let ghost m0 = *self;
        self.set_recomputing(h, true);
        proof {
            assert(preserved_except_flag(&pre, &m0, h));
            lemma_setter_step(&pre, &m0, self, h);
        }
        // Pull: refresh every recorded source, then see whether any of them
        // now differs from the value captured at the last recomputation.
        let mut changed = false;
        let mut i: usize = 0;
        while i < srcs.len()
            invariant
                pre == *old(self),
                pre.wf(),
                pre.live(h),
                srcs@ == pre.sources_of(h),
                !pre.recomputing_of(h),
                !pre.is_signal(h),
                self.wf(),
                preserved_except_flag(&pre, self, h),
                self.live(h),
                self.recomputing_of(h),
                self.kind_of(h) == pre.kind_of(h),
                self.value_of(h) == pre.value_of(h),
                self.sources_of(h) == pre.sources_of(h),
                self.count_of(h) == pre.count_of(h),
                0 <= i <= srcs@.len(),
                fuel >= 1,
                srcs@.len() == 0 ==> !changed,
                sources_live_signals(&pre, srcs@) ==> (forall|k: NodeRef|
                    pre.live(k) && k != h ==> node_unchanged(&pre, self, k)),
                sources_live_signals(&pre, srcs@) ==> self.subs_of(h) == pre.subs_of(h),
                sources_live_signals(&pre, srcs@) ==> ((exists|j: int|
                    0 <= j < i && pre.value_of(srcs@[j].node) != Some(srcs@[j].seen))
                    <==> changed),
            decreases srcs@.len() - i,
        {
            let e = srcs[i];
            let ghost mid = *self;
            match self.ensure_fresh(e.node, fuel - 1) {
                Err(er) => {
                    proof {
                        lemma_nested_step(&pre, &mid, self, h);
                        if fuel >= 2 && sources_live_signals(&pre, srcs@) {
                            assert(pre.live(srcs@[i as int].node) && pre.is_signal(
                                srcs@[i as int].node,
                            ));
                            assert(mid.live(e.node));
                            assert(mid.kind_of(e.node) == pre.kind_of(e.node));
                            assert(!mid.recomputing_of(e.node));
                            assert(false);
                        }
                    }
                    let ghost m1 = *self;
                    self.set_recomputing(h, false);
                    proof {
                        lemma_setter_step(&pre, &m1, self, h);
                        lemma_except_close(&pre, self, h);
                    }
                    let ghost m2 = *self;
                    self.set_state(h, NodeState::Dirty);
                    proof {
                        assert forall|k: NodeRef|
                            m2.live(k) && k != h implies frame_fields(&m2, self, k) by {
                            assert(node_unchanged(&m2, self, k));
                        }
                        lemma_preserved_step(&pre, &m2, self, h);
                    }
                    return Err(er);
                },
                Ok(()) => {},
            }
            proof {
                lemma_nested_step(&pre, &mid, self, h);
                if sources_live_signals(&pre, srcs@) {
                    assert(pre.live(srcs@[i as int].node) && pre.is_signal(srcs@[i as int].node));
                    assert(mid.live(e.node));
                    assert(mid.kind_of(e.node) == pre.kind_of(e.node));
                    assert(!mid.recomputing_of(e.node));
                    assert(*self == mid);
                    assert(self.live(e.node));
                    assert(self.kind_of(e.node) == pre.kind_of(e.node));
                    assert(self.value_of(e.node) == pre.value_of(e.node));
                    assert(pre.value_of(e.node) is Some);
                }
            }
            if self.is_live(e.node) {
                match self.read_value(e.node) {
                    Some(x) => if x != e.seen {
                        changed = true;
                    },
                    None => {},
                }
            }
            i += 1;
        }
        let has_value = match &self.slots[h.index].node {
            Some(n) => n.value.is_some(),
            None => false,
        };
        if has_value && !changed {
            // Check short-circuit: every source still shows the captured
            // value, so the cached output is already consistent.
            let ghost m1 = *self;
            self.set_recomputing(h, false);
            proof {
                lemma_setter_step(&pre, &m1, self, h);
                lemma_except_close(&pre, self, h);
            }
            let ghost m2 = *self;
            self.set_state(h, NodeState::Clean);
            proof {
                assert forall|k: NodeRef| m2.live(k) && k != h implies frame_fields(&m2, self, k) by {
                    assert(node_unchanged(&m2, self, k));
                }
                lemma_preserved_step(&pre, &m2, self, h);
                if sources_live_signals(&pre, srcs@) && !sources_match(&pre, srcs@) {
                    assert(exists|j: int|
                        0 <= j < srcs@.len() && pre.value_of(srcs@[j].node) != Some(
                            srcs@[j].seen,
                        ));
                    assert(false);
                }
                if sources_live_signals(&pre, srcs@) {
                    assert forall|k: NodeRef|
                        pre.live(k) && k != h implies node_unchanged(&pre, self, k) by {
                        assert(node_unchanged(&pre, &m1, k));
                        assert(m1.live(k));
                        assert(node_unchanged(&m1, &m2, k));
                        assert(m2.live(k));
                        assert(node_unchanged(&m2, self, k));
                    }
                    assert(self.subs_of(h) == pre.subs_of(h));
                }
            }
            return Ok(());
        }
        // Recompute: evaluate the expression with this node as observer.
        let expr = self.copy_expr_of(h);
        let ghost mf = *self;
        proof {
            assert(pre.kind_of(h) == NodeKind::Computed(expr));
            if reads_live_signals(&pre, expr) {
                lemma_eval_transfer(&pre, &mf, expr, prev);
            }
        }
        let mut acc: Vec<SourceEntry> = Vec::new();
        let r = self.eval(&expr, h, prev, &mut acc, fuel - 1);
        let ghost acc_s = acc@;
        proof {
            lemma_nested_step(&pre, &mf, self, h);
        }
        match r {
            Err(er) => {
                proof {
                    if fuel >= 2 && reads_live_signals(&pre, expr) {
                        assert(false);
                    }
                }
                let ghost m1 = *self;
                self.set_recomputing(h, false);
                proof {
                    lemma_setter_step(&pre, &m1, self, h);
                    lemma_except_close(&pre, self, h);
                }
                let ghost m2 = *self;
                self.set_state(h, NodeState::Dirty);
                proof {
                    assert forall|k: NodeRef| m2.live(k) && k != h implies frame_fields(&m2, self, k) by {
                        assert(node_unchanged(&m2, self, k));
                    }
                    lemma_preserved_step(&pre, &m2, self, h);
                }
                Err(er)
            },
            Ok(v) => {
                let ghost m1 = *self;
                self.set_recomputing(h, false);
                proof {
                    lemma_setter_step(&pre, &m1, self, h);
                    lemma_except_close(&pre, self, h);
                }
                let ghost m2 = *self;
                self.update_sources(h, acc);
                proof {
                    assert forall|k: NodeRef| m2.live(k) && k != h implies frame_fields(&m2, self, k) by {}
                    lemma_preserved_step(&pre, &m2, self, h);
                }
                let ghost m3 = *self;
                self.commit_value(h, v);
                proof {
                    assert forall|k: NodeRef| m3.live(k) && k != h implies frame_fields(&m3, self, k) by {
                        if m3.value_of(h) == Some(v) {
                            assert(node_unchanged(&m3, self, k));
                        } else if m3.subs_of(h).contains(k) && !m3.is_signal(k) {
                            assert(only_state_dirtied(&m3, self, k));
                        } else {
                            assert(node_unchanged(&m3, self, k));
                        }
                    }
                    lemma_preserved_step(&pre, &m3, self, h);
                    if fuel >= 2 && reads_live_signals(&pre, expr) {
                        assert(v == spec_eval(&pre, expr, prev));
                        assert(self.value_of(h) == Some(v));
                        assert(self.sources_of(h) == acc_s);
                        assert(sources_live_signals(&m1, acc_s) && sources_match(&m1, acc_s));
                        assert forall|j: int|
                            0 <= j < acc_s.len() implies self.live(
                            (#[trigger] acc_s[j]).node,
                        ) && self.is_signal(acc_s[j].node) && self.value_of(acc_s[j].node) == Some(
                            acc_s[j].seen,
                        ) by {
                            assert(m1.live(acc_s[j].node) && m1.is_signal(acc_s[j].node));
                            assert(m1.value_of(acc_s[j].node) == Some(acc_s[j].seen));
                            assert(pre.live(acc_s[j].node));
                            assert(m1.kind_of(acc_s[j].node) == pre.kind_of(acc_s[j].node));
                            assert(m1.value_of(acc_s[j].node) == pre.value_of(acc_s[j].node));
                            assert(self.kind_of(acc_s[j].node) == pre.kind_of(acc_s[j].node));
                            assert(self.value_of(acc_s[j].node) == pre.value_of(acc_s[j].node));
                        }
                        assert(sources_live_signals(self, self.sources_of(h)));
                        assert(sources_match(self, self.sources_of(h)));
                        if sources_live_signals(&pre, srcs@) {
                            assert(m1 == mf);
                            assert(mf.subs_of(h) == pre.subs_of(h));
                            assert(self.subs_of(h) == pre.subs_of(h));
                            assert forall|x: NodeRef|
                                pre.live(x) && contains_node(pre.sources_of(h), x) && !expr_tracks(
                                &pre,
                                expr,
                                prev,
                                x,
                            ) implies !self.subs_of(x).contains(h) by {
                                lemma_tracks_transfer(&pre, &mf, expr, prev, x);
                                let j = choose|j: int|
                                    0 <= j < pre.sources_of(h).len() && pre.sources_of(h)[j].node
                                        == x;
                                assert(pre.live(srcs@[j].node) && pre.is_signal(srcs@[j].node));
                                assert(pre.is_signal(x));
                                assert(x != h);
                                assert(m2.live(x));
                                assert(contains_node(m2.sources_of(h), x));
                                assert(!contains_node(acc_s, x));
                                assert(m3.live(x));
                                assert(!m3.subs_of(x).contains(h));
                                if m3.value_of(h) == Some(v) {
                                    assert(node_unchanged(&m3, self, x));
                                } else if m3.subs_of(h).contains(x) && !m3.is_signal(x) {
                                    assert(only_state_dirtied(&m3, self, x));
                                } else {
                                    assert(node_unchanged(&m3, self, x));
                                }
                            }
                            assert forall|k: NodeRef|
                                pre.live(k) && k != h && !pre.subs_of(h).contains(k)
                                    implies self.state_of(k) == pre.state_of(k) by {
                                assert(node_unchanged(&pre, &mf, k));
                                assert(mf.live(k));
                                assert(node_unchanged(&m1, &m2, k));
                                assert(m2.live(k));
                                assert(m2.state_of(k) == m3.state_of(k));
                                assert(m3.live(k));
                                assert(m3.subs_of(h) == pre.subs_of(h));
                                if m3.value_of(h) == Some(v) {
                                    assert(node_unchanged(&m3, self, k));
                                } else {
                                    assert(node_unchanged(&m3, self, k));
                                }
                            }
                            assert forall|x: NodeRef, y: NodeRef|
                                pre.live(x) && x != h && y != h implies (self.subs_of(x).contains(
                                y,
                            ) <==> pre.subs_of(x).contains(y)) by {
                                assert(node_unchanged(&pre, &mf, x));
                                assert(mf.live(x));
                                assert(node_unchanged(&m1, &m2, x));
                                assert(m2.live(x));
                                assert(m3.subs_of(x).contains(y) <==> m2.subs_of(x).contains(y));
                                assert(m3.live(x));
                                if m3.value_of(h) == Some(v) {
                                    assert(node_unchanged(&m3, self, x));
                                } else if m3.subs_of(h).contains(x) && !m3.is_signal(x) {
                                    assert(only_state_dirtied(&m3, self, x));
                                } else {
                                    assert(node_unchanged(&m3, self, x));
                                }
                            }
                            assert forall|x: NodeRef, y: NodeRef|
                                pre.live(x) && y != h implies (self.subs_of(x).contains(y)
                                    <==> pre.subs_of(x).contains(y)) by {
                                if x == h {
                                    assert(self.subs_of(h) == pre.subs_of(h));
                                }
                            }
                            if prev matches Some(pv) && v == pv {
                                assert forall|k: NodeRef|
                                    pre.live(k) && k != h implies self.state_of(k) == pre.state_of(
                                    k,
                                ) by {
                                    assert(node_unchanged(&pre, &mf, k));
                                    assert(mf.live(k));
                                    assert(node_unchanged(&m1, &m2, k));
                                    assert(m2.live(k));
                                    assert(m2.state_of(k) == m3.state_of(k));
                                    assert(m3.live(k));
                                    assert(m3.value_of(h) == Some(v));
                                    assert(node_unchanged(&m3, self, k));
                                }
                            }
                        }
                        assert forall|x: NodeRef|
                            contains_node(self.sources_of(h), x) <==> expr_tracks(
                            &pre,
                            expr,
                            prev,
                            x,
                        ) by {
                            lemma_tracks_transfer(&pre, &mf, expr, prev, x);
                        }
                        assert forall|x: NodeRef|
                            pre.live(x) && expr_tracks(&pre, expr, prev, x) implies self.subs_of(
                            x,
                        ).contains(h) by {
                            lemma_tracks_signal(&pre, expr, prev, x);
                            lemma_tracks_transfer(&pre, &mf, expr, prev, x);
                            assert(contains_node(acc_s, x));
                            assert(m2.live(x));
                            assert(m3.live(x));
                            assert(pre.kind_of(x) is Signal);
                            assert(x != h);
                            assert(m3.subs_of(x).contains(h));
                            if m3.value_of(h) == Some(v) {
                                assert(node_unchanged(&m3, self, x));
                            } else if m3.subs_of(h).contains(x) && !m3.is_signal(x) {
                                assert(only_state_dirtied(&m3, self, x));
                            } else {
                                assert(node_unchanged(&m3, self, x));
                            }
                        }
                    }
                }
                Ok(())
            },
        }
    }

    /// Evaluate `e` on behalf of `observer`, which must be mid-recompute.
    ///
    /// Every tracked read appends the node read and the value observed to
    /// `acc`, once per node; untracked reads do not. Reads pull the node
    /// read up to date first, so the value captured is never stale, and a
    /// read that reaches a node already recomputing — `observer` included —
    /// fails with `CyclicDependency`.
    fn eval(
        &mut self,
        e: &Expr,
        observer: NodeRef,
        prev: Option<i64>,
        acc: &mut Vec<SourceEntry>,
        fuel: u64,
    ) -> (r: Result<i64, GraphError>)
        requires
            old(self).wf(),
            old(self).live(observer),
            old(self).recomputing_of(observer),
            distinct_nodes(old(acc)@),
            !contains_node(old(acc)@, observer),
        ensures
            final(self).wf(),
            preserved_by_recompute(old(self), final(self)),
            final(self).live(observer),
            final(self).recomputing_of(observer),
            distinct_nodes(final(acc)@),
            !contains_node(final(acc)@, observer),
            (*e) matches Expr::Const(c) ==> r == Ok::<i64, GraphError>(c),
            (*e) matches Expr::Prev(d) ==> r == Ok::<i64, GraphError>(
                match prev {
                    Some(p) => p,
                    None => d,
                },
            ),
            // a tracked read hands back the read node's fresh cached value
            // and records exactly the node read
            (*e) matches Expr::Read(nr) ==> (r matches Ok(v) ==> final(self).live(nr)
                && final(self).value_of(nr) == Some(v) && final(self).state_of(nr)
                == NodeState::Clean && contains_node(final(acc)@, nr)),
            // reading a node already recomputing is cyclic; reading a
            // disposed node is absent
            (*e) matches Expr::Read(nr) ==> (old(self).live(nr) && old(self).recomputing_of(nr)
                ==> r == Err::<i64, GraphError>(GraphError::CyclicDependency)),
            (*e) matches Expr::Read(nr) ==> (!old(self).live(nr) ==> r == Err::<i64, GraphError>(
                GraphError::AbsentDependency,
            )),
            (*e) matches Expr::ReadUntracked(nr) ==> (old(self).live(nr) && old(
                self,
            ).recomputing_of(nr) ==> r == Err::<i64, GraphError>(GraphError::CyclicDependency)),
            (*e) matches Expr::ReadUntracked(nr) ==> (!old(self).live(nr) ==> r == Err::<
                i64,
                GraphError,
            >(GraphError::AbsentDependency)),
            // an expression over live signals evaluates: to exactly its
            // spec-level value, appending exactly its tracked reads
            fuel >= 1 && reads_live_signals(old(self), *e) ==> r == Ok::<i64, GraphError>(
                spec_eval(old(self), *e, prev),
            ) && (forall|x: NodeRef|
                contains_node(final(acc)@, x) <==> (contains_node(old(acc)@, x) || expr_tracks(
                    old(self),
                    *e,
                    prev,
                    x,
                ))),
            // what a read captures is the value the source holds afterwards
            fuel >= 1 && reads_live_signals(old(self), *e) && sources_live_signals(
                old(self),
                old(acc)@,
            ) && sources_match(old(self), old(acc)@) ==> sources_live_signals(
                final(self),
                final(acc)@,
            ) && sources_match(final(self), final(acc)@),
            // evaluating over live signals touches no node whatsoever
            fuel >= 1 && reads_live_signals(old(self), *e) ==> *final(self) == *old(self),
        decreases fuel, expr_height(*e),
    {
        match e {
            Expr::Const(c) => Ok(*c),
            Expr::Prev(d) => Ok(
                match prev {
                    Some(p) => p,
                    None => *d,
                },
            ),
            Expr::Read(nr) => {
                let nr = *nr;
                match self.ensure_fresh(nr, fuel) {
                    Err(er) => {
                        proof {
                            lemma_preserved_node(old(self), self, observer);
                            if fuel >= 1 && reads_live_signals(old(self), *e) {
                                assert(old(self).live(nr) && old(self).is_signal(nr));
                                assert(!old(self).recomputing_of(nr));
                                assert(false);
                            }
                        }
                        return Err(er);
                    },
                    Ok(()) => {},
                }
                proof {
                    lemma_preserved_node(old(self), self, observer);
                }
                if !self.is_live(nr) {
                    proof {
                        if fuel >= 1 && reads_live_signals(old(self), *e) {
                            assert(old(self).live(nr));
                            assert(false);
                        }
                    }
                    return Err(GraphError::AbsentDependency);
                }
                let v = match self.read_value(nr) {
                    Some(v) => v,
                    None => {
                        proof {
                            if fuel >= 1 && reads_live_signals(old(self), *e) {
                                assert(old(self).live(nr) && old(self).is_signal(nr));
                                assert(self.kind_of(nr) == old(self).kind_of(nr));
                                assert(self.value_of(nr) == old(self).value_of(nr));
                                assert(false);
                            }
                        }
                        return Err(GraphError::AbsentDependency);
                    },
                };
                proof {
                    assert(nr != observer);
                    if fuel >= 1 && reads_live_signals(old(self), *e) {
                        assert(old(self).live(nr) && old(self).is_signal(nr));
                        assert(!old(self).recomputing_of(nr));
                        assert(*self == *old(self));
                        assert(v == spec_eval(old(self), *e, prev));
                    }
                }
                if !entries_contain(acc, nr) {
                    let ghost a0 = acc@;
                    acc.push(SourceEntry { node: nr, seen: v });
                    proof {
                        assert(forall|m: int| 0 <= m < a0.len() ==> acc@[m] == a0[m]);
                        assert(acc@[a0.len() as int].node == nr);
                        assert forall|m: int, j: int|
                            0 <= m < j < acc@.len() implies acc@[m].node != acc@[j].node by {
                            if j == a0.len() {
                                assert(!contains_node(a0, nr));
                            }
                        }
                        assert(!contains_node(acc@, observer)) by {
                            if contains_node(acc@, observer) {
                                let m = choose|m: int|
                                    0 <= m < acc@.len() && acc@[m].node == observer;
                                assert(m < a0.len() ==> contains_node(a0, observer));
                            }
                        }
                        assert forall|x: NodeRef|
                            contains_node(acc@, x) implies (contains_node(a0, x) || x == nr) by {
                            let m = choose|m: int| 0 <= m < acc@.len() && acc@[m].node == x;
                            if m < a0.len() {
                                assert(a0[m].node == x);
                            }
                        }
                        assert forall|x: NodeRef|
                            contains_node(a0, x) || x == nr implies contains_node(acc@, x) by {
                            if contains_node(a0, x) {
                                let m = choose|m: int| 0 <= m < a0.len() && a0[m].node == x;
                                assert(acc@[m].node == x);
                            } else {
                                assert(acc@[a0.len() as int].node == x);
                            }
                        }
                    }
                } else {
                    proof {
                        assert forall|x: NodeRef|
                            contains_node(acc@, x) <==> (contains_node(old(acc)@, x) || x
                                == nr) by {
                        }
                    }
                }
                Ok(v)
            },
            Expr::ReadUntracked(nr) => {
                let nr = *nr;
                match self.ensure_fresh(nr, fuel) {
                    Err(er) => {
                        proof {
                            lemma_preserved_node(old(self), self, observer);
                            if fuel >= 1 && reads_live_signals(old(self), *e) {
                                assert(old(self).live(nr) && old(self).is_signal(nr));
                                assert(!old(self).recomputing_of(nr));
                                assert(false);
                            }
                        }
                        return Err(er);
                    },
                    Ok(()) => {},
                }
                proof {
                    lemma_preserved_node(old(self), self, observer);
                }
                if !self.is_live(nr) {
                    proof {
                        if fuel >= 1 && reads_live_signals(old(self), *e) {
                            assert(old(self).live(nr));
                            assert(false);
                        }
                    }
                    return Err(GraphError::AbsentDependency);
                }
                match self.read_value(nr) {
                    Some(v) => {
                        proof {
                            if fuel >= 1 && reads_live_signals(old(self), *e) {
                                assert(old(self).live(nr) && old(self).is_signal(nr));
                                assert(!old(self).recomputing_of(nr));
                                assert(*self == *old(self));
                            }
                        }
                        Ok(v)
                    },
                    None => {
                        proof {
                            if fuel >= 1 && reads_live_signals(old(self), *e) {
                                assert(old(self).live(nr) && old(self).is_signal(nr));
                                assert(self.kind_of(nr) == old(self).kind_of(nr));
                                assert(self.value_of(nr) == old(self).value_of(nr));
                                assert(false);
                            }
                        }
                        Err(GraphError::AbsentDependency)
                    },
                }
            },
            Expr::Add(a, b) => {
                let ghost pre = *self;
                let va = match self.eval(a, observer, prev, acc, fuel) {
                    Ok(v) => v,
                    Err(er) => {
                        proof {
                            if fuel >= 1 && reads_live_signals(old(self), *e) {
                                assert(false);
                            }
                        }
                        return Err(er);
                    },
                };
                let ghost mid = *self;
                let ghost acc1 = acc@;
                let vb = match self.eval(b, observer, prev, acc, fuel) {
                    Ok(v) => v,
                    Err(er) => {
                        proof {
                            lemma_preserved_trans(&pre, &mid, self);
                            if fuel >= 1 && reads_live_signals(old(self), *e) {
                                lemma_eval_transfer(&pre, &mid, **b, prev);
                                assert(false);
                            }
                        }
                        return Err(er);
                    },
                };
                proof {
                    lemma_preserved_trans(&pre, &mid, self);
                }
                let s = sat_add(va, vb);
                proof {
                    if fuel >= 1 && reads_live_signals(old(self), *e) {
                        lemma_eval_transfer(&pre, &mid, **b, prev);
                        assert(mid == pre);
                        assert(*self == *old(self));
                        assert(va == spec_eval(&pre, **a, prev));
                        assert(vb == spec_eval(&pre, **b, prev));
                        assert(s == spec_eval(&pre, *e, prev));
                        assert forall|x: NodeRef|
                            contains_node(acc@, x) <==> (contains_node(old(acc)@, x)
                                || expr_tracks(&pre, *e, prev, x)) by {
                            lemma_tracks_transfer(&pre, &mid, **b, prev, x);
                        }
                    }
                }
                Ok(s)
            },
            Expr::Mul(a, b) => {
                let ghost pre = *self;
                let va = match self.eval(a, observer, prev, acc, fuel) {
                    Ok(v) => v,
                    Err(er) => {
                        proof {
                            if fuel >= 1 && reads_live_signals(old(self), *e) {
                                assert(false);
                            }
                        }
                        return Err(er);
                    },
                };
                let ghost mid = *self;
                let vb = match self.eval(b, observer, prev, acc, fuel) {
                    Ok(v) => v,
                    Err(er) => {
                        proof {
                            lemma_preserved_trans(&pre, &mid, self);
                            if fuel >= 1 && reads_live_signals(old(self), *e) {
                                lemma_eval_transfer(&pre, &mid, **b, prev);
                                assert(false);
                            }
                        }
                        return Err(er);
                    },
                };
                proof {
                    lemma_preserved_trans(&pre, &mid, self);
                }
                let s = sat_mul(va, vb);
                proof {
                    if fuel >= 1 && reads_live_signals(old(self), *e) {
                        lemma_eval_transfer(&pre, &mid, **b, prev);
                        assert(mid == pre);
                        assert(*self == *old(self));
                        assert(va == spec_eval(&pre, **a, prev));
                        assert(vb == spec_eval(&pre, **b, prev));
                        assert(s == spec_eval(&pre, *e, prev));
                        assert forall|x: NodeRef|
                            contains_node(acc@, x) <==> (contains_node(old(acc)@, x)
                                || expr_tracks(&pre, *e, prev, x)) by {
                            lemma_tracks_transfer(&pre, &mid, **b, prev, x);
                        }
                    }
                }
                Ok(s)
            },
            Expr::Select(c, a, b) => {
                let ghost pre = *self;
                let vc = match self.eval(c, observer, prev, acc, fuel) {
                    Ok(v) => v,
                    Err(er) => {
                        proof {
                            if fuel >= 1 && reads_live_signals(old(self), *e) {
                                assert(false);
                            }
                        }
                        return Err(er);
                    },
                };
                let ghost mid = *self;
                let r = if vc != 0 {
                    self.eval(a, observer, prev, acc, fuel)
                } else {
                    self.eval(b, observer, prev, acc, fuel)
                };
                proof {
                    lemma_preserved_trans(&pre, &mid, self);
                    if fuel >= 1 && reads_live_signals(old(self), *e) {
                        lemma_eval_transfer(&pre, &mid, **a, prev);
                        lemma_eval_transfer(&pre, &mid, **b, prev);
                        assert(mid == pre);
                        assert(*self == *old(self));
                        assert(vc == spec_eval(&pre, **c, prev));
                        assert(r == Ok::<i64, GraphError>(spec_eval(&pre, *e, prev)));
                        assert forall|x: NodeRef|
                            contains_node(acc@, x) <==> (contains_node(old(acc)@, x)
                                || expr_tracks(&pre, *e, prev, x)) by {
                            lemma_tracks_transfer(&pre, &mid, **a, prev, x);
                            lemma_tracks_transfer(&pre, &mid, **b, prev, x);
                        }
                    }
                }
                r
            },
        }
    }

    /// Read the node `h` resolves to, recomputing first if needed.
    ///
    /// `Ok(None)` exactly when `h` no longer (or never) resolves: a read
    /// through a handle to a disposed node is a normal "gone" result, not a
    /// failure. On `Ok(Some(v))` the node is `Clean` and caches `v`; the
    /// value returned is never stale and never read off a `Dirty` node. On
    /// `Err` — a cyclic dependency, or a dependency disposed out from under
    /// the node — the node keeps its previous cached value and is left
    /// `Dirty` for a later retry. Signals are never written by a read, and
    /// a node already mid-recompute cannot be read again.
    pub fn try_read(&mut self, h: NodeRef) -> (r: Result<Option<i64>, GraphError>)
        requires
            old(self).wf(),
        ensures
            final(self).wf(),
            preserved_by_recompute(old(self), final(self)),
            (r matches Ok(v) && v is None) <==> !old(self).live(h),
            r matches Ok(Some(v)) ==> final(self).value_of(h) == Some(v) && final(self).state_of(
                h,
            ) == NodeState::Clean,
            old(self).live(h) && old(self).recomputing_of(h) ==> r == Err::<
                Option<i64>,
                GraphError,
            >(GraphError::CyclicDependency),
            r is Err && !old(self).recomputing_of(h) ==> old(self).live(h) && final(self).state_of(
                h,
            ) == NodeState::Dirty && final(self).value_of(h) == old(self).value_of(h),
            // the two failures are distinguishable at the simplest shapes
            old(self).kind_of(h) matches NodeKind::Computed(Expr::Read(s)) ==> (old(self).live(h)
                && !old(self).recomputing_of(h) && old(self).value_of(h) is None && old(
                self,
            ).sources_of(h).len() == 0 ==> (s == h ==> r == Err::<Option<i64>, GraphError>(
                GraphError::CyclicDependency,
            )) && (!old(self).live(s) ==> r == Err::<Option<i64>, GraphError>(
                GraphError::AbsentDependency,
            ))),
            // reading a live signal that is not mid-recompute always succeeds
            // with its value and leaves the whole graph untouched
            old(self).live(h) && old(self).is_signal(h) && !old(self).recomputing_of(h)
                ==> r == Ok::<Option<i64>, GraphError>(old(self).value_of(h)) && *final(self)
                == *old(self),
            // a node that has computed and recorded no sources never
            // recomputes again
            r is Ok && old(self).live(h) && !old(self).is_signal(h) && old(self).value_of(
                h,
            ) is Some && old(self).sources_of(h).len() == 0 ==> final(self).count_of(h) == old(
                self,
            ).count_of(h) && final(self).value_of(h) == old(self).value_of(h),
            // first reads of the simplest memos are pinned down
            old(self).kind_of(h) matches NodeKind::Computed(Expr::Const(c)) ==> (r is Ok && old(
                self,
            ).live(h) && old(self).value_of(h) is None ==> r == Ok::<Option<i64>, GraphError>(
                Some(c),
            )),
            old(self).kind_of(h) matches NodeKind::Computed(Expr::Read(s)) ==> (r is Ok && old(
                self,
            ).live(h) && old(self).value_of(h) is None && old(self).live(s) && old(self).is_signal(
                s,
            ) ==> r == Ok::<Option<i64>, GraphError>(old(self).value_of(s))),
            // one read invokes the node's own compute at most once
            old(self).live(h) ==> final(self).count_of(h) <= old(self).count_of(h) + 1,
            // a memo over live signals is owed success, and each of its
            // three paths is pinned down (first read; nothing changed;
            // something changed), with the edges its evaluation tracked
            old(self).kind_of(h) matches NodeKind::Computed(e) ==> {
                &&& (pinned_ready(old(self), h, e) ==> r is Ok)
                &&& (pinned_ready(old(self), h, e) && old(self).value_of(h) is None
                    ==> r == Ok::<Option<i64>, GraphError>(Some(spec_eval(old(self), e, None)))
                        && (forall|x: NodeRef|
                        contains_node(final(self).sources_of(h), x)
                            <==> expr_tracks(old(self), e, None, x))
                        && (forall|x: NodeRef|
                        old(self).live(x) && expr_tracks(old(self), e, None, x)
                            ==> final(self).subs_of(x).contains(h))
                        && (forall|x: NodeRef|
                        old(self).live(x) && contains_node(old(self).sources_of(h), x)
                            && !expr_tracks(old(self), e, None, x)
                            ==> !final(self).subs_of(x).contains(h))
                        && final(self).subs_of(h) == old(self).subs_of(h)
                        && sources_live_signals(final(self), final(self).sources_of(h))
                        && sources_match(final(self), final(self).sources_of(h))
                        && final(self).count_of(h) == (if old(self).count_of(h) < u64::MAX {
                        old(self).count_of(h) + 1
                    } else {
                        u64::MAX as int
                    })
                        && (forall|k: NodeRef|
                        old(self).live(k) && k != h && !old(self).subs_of(h).contains(k)
                            ==> final(self).state_of(k) == old(self).state_of(k))
                        && (forall|x: NodeRef, y: NodeRef|
                        old(self).live(x) && y != h ==> (final(self).subs_of(x).contains(y)
                            <==> old(self).subs_of(x).contains(y))))
                &&& (pinned_ready(old(self), h, e) && old(self).value_of(h) is Some
                    && !sources_match(old(self), old(self).sources_of(h))
                    ==> r == Ok::<Option<i64>, GraphError>(
                        Some(spec_eval(old(self), e, old(self).value_of(h))),
                    ) && (forall|x: NodeRef|
                        contains_node(final(self).sources_of(h), x)
                            <==> expr_tracks(old(self), e, old(self).value_of(h), x))
                        && (forall|x: NodeRef|
                        old(self).live(x) && expr_tracks(old(self), e, old(self).value_of(h), x)
                            ==> final(self).subs_of(x).contains(h))
                        && (forall|x: NodeRef|
                        old(self).live(x) && contains_node(old(self).sources_of(h), x)
                            && !expr_tracks(old(self), e, old(self).value_of(h), x)
                            ==> !final(self).subs_of(x).contains(h))
                        && final(self).subs_of(h) == old(self).subs_of(h)
                        && sources_live_signals(final(self), final(self).sources_of(h))
                        && sources_match(final(self), final(self).sources_of(h))
                        && final(self).count_of(h) == (if old(self).count_of(h) < u64::MAX {
                        old(self).count_of(h) + 1
                    } else {
                        u64::MAX as int
                    })

                        && (forall|k: NodeRef|
                        old(self).live(k) && k != h && !old(self).subs_of(h).contains(k)
                            ==> final(self).state_of(k) == old(self).state_of(k))
                        && (forall|x: NodeRef, y: NodeRef|
                        old(self).live(x) && y != h ==> (final(self).subs_of(x).contains(y)
                            <==> old(self).subs_of(x).contains(y)))
                        && (spec_eval(old(self), e, old(self).value_of(h)) == old(self).value_of(
                        h,
                    )->Some_0 ==> (forall|k: NodeRef|
                        old(self).live(k) && k != h ==> final(self).state_of(k) == old(
                            self,
                        ).state_of(k))))
                &&& (old(self).live(h) && !old(self).recomputing_of(h)
                    && old(self).value_of(h) is Some
                    && sources_live_signals(old(self), old(self).sources_of(h))
                    && sources_match(old(self), old(self).sources_of(h))
                    ==> r == Ok::<Option<i64>, GraphError>(old(self).value_of(h))
                        && final(self).count_of(h) == old(self).count_of(h)
                        && final(self).sources_of(h) == old(self).sources_of(h)
                        && final(self).subs_of(h) == old(self).subs_of(h)
                        && (forall|k: NodeRef|
                        old(self).live(k) && k != h ==> node_unchanged(old(self), final(self), k)))
            },
    {
        if !self.is_live(h) {
            return Ok(None);
        }
        let fuel = self.fuel_budget();
        match self.ensure_fresh(h, fuel) {
            Err(e) => Err(e),
            Ok(()) => {
                proof {
                    assert(self.live(h));
                }
                match self.read_value(h) {
                    Some(v) => Ok(Some(v)),
                    None => Ok(None),
                }
            },
        }
    }

    /// Ensure the node `h` resolves to is up to date, without materializing
    /// its value: only the dependency work is wanted. Reading nothing of a
    /// handle that no longer resolves is a normal no-op.
    pub fn track(&mut self, h: NodeRef) -> (r: Result<(), GraphError>)
        requires
            old(self).wf(),
        ensures
            final(self).wf(),
            preserved_by_recompute(old(self), final(self)),
            !old(self).live(h) ==> r is Ok && *final(self) == *old(self),
            r is Ok && old(self).live(h) ==> final(self).state_of(h) == NodeState::Clean
                && final(self).value_of(h) is Some,
            old(self).live(h) && old(self).recomputing_of(h) ==> r == Err::<(), GraphError>(
                GraphError::CyclicDependency,
            ),
            r is Err && !old(self).recomputing_of(h) ==> old(self).live(h) && final(self).state_of(
                h,
            ) == NodeState::Dirty && final(self).value_of(h) == old(self).value_of(h),
            // one ensure invokes the node's own compute at most once
            old(self).live(h) ==> final(self).count_of(h) <= old(self).count_of(h) + 1,
            // the two failures are distinguishable at the simplest shapes
            old(self).kind_of(h) matches NodeKind::Computed(Expr::Read(s)) ==> (old(self).live(h)
                && !old(self).recomputing_of(h) && old(self).value_of(h) is None && old(
                self,
            ).sources_of(h).len() == 0 ==> (s == h ==> r == Err::<(), GraphError>(
                GraphError::CyclicDependency,
            )) && (!old(self).live(s) ==> r == Err::<(), GraphError>(
                GraphError::AbsentDependency,
            ))),
            // live signals and memos over live signals are owed success;
            // tracking a signal leaves the whole graph untouched
            old(self).live(h) && old(self).is_signal(h) && !old(self).recomputing_of(h)
                ==> r is Ok && *final(self) == *old(self),
            // a memo over live signals is pinned exactly as under try_read:
            // a first ensure computes the expression's value and installs
            // exactly its tracked reads as mutual edges, counting one
            // evaluation; unchanged sources leave the cache and count alone
            old(self).kind_of(h) matches NodeKind::Computed(e) ==> {
                &&& (pinned_ready(old(self), h, e) ==> r is Ok)
                &&& (pinned_ready(old(self), h, e) && old(self).value_of(h) is None
                    ==> final(self).value_of(h) == Some(spec_eval(old(self), e, None))
                        && (forall|x: NodeRef|
                        contains_node(final(self).sources_of(h), x)
                            <==> expr_tracks(old(self), e, None, x))
                        && (forall|x: NodeRef|
                        old(self).live(x) && expr_tracks(old(self), e, None, x)
                            ==> final(self).subs_of(x).contains(h))
                        && (forall|x: NodeRef|
                        old(self).live(x) && contains_node(old(self).sources_of(h), x)
                            && !expr_tracks(old(self), e, None, x)
                            ==> !final(self).subs_of(x).contains(h))
                        && final(self).subs_of(h) == old(self).subs_of(h)
                        && sources_live_signals(final(self), final(self).sources_of(h))
                        && sources_match(final(self), final(self).sources_of(h))
                        && final(self).count_of(h) == (if old(self).count_of(h) < u64::MAX {
                        old(self).count_of(h) + 1
                    } else {
                        u64::MAX as int
                    })
                        && (forall|k: NodeRef|
                        old(self).live(k) && k != h && !old(self).subs_of(h).contains(k)
                            ==> final(self).state_of(k) == old(self).state_of(k))
                        && (forall|x: NodeRef, y: NodeRef|
                        old(self).live(x) && y != h ==> (final(self).subs_of(x).contains(y)
                            <==> old(self).subs_of(x).contains(y))))
                &&& (pinned_ready(old(self), h, e) && old(self).value_of(h) is Some
                    && !sources_match(old(self), old(self).sources_of(h))
                    ==> final(self).value_of(h)
                        == Some(spec_eval(old(self), e, old(self).value_of(h)))
                        && final(self).subs_of(h) == old(self).subs_of(h)
                        && (forall|k: NodeRef|
                        old(self).live(k) && k != h && !old(self).subs_of(h).contains(k)
                            ==> final(self).state_of(k) == old(self).state_of(k))
                        && (forall|x: NodeRef, y: NodeRef|
                        old(self).live(x) && y != h ==> (final(self).subs_of(x).contains(y)
                            <==> old(self).subs_of(x).contains(y)))
                        && sources_live_signals(final(self), final(self).sources_of(h))
                        && sources_match(final(self), final(self).sources_of(h))
                        && final(self).count_of(h) == (if old(self).count_of(h) < u64::MAX {
                        old(self).count_of(h) + 1
                    } else {
                        u64::MAX as int
                    })
                        && (spec_eval(old(self), e, old(self).value_of(h)) == old(self).value_of(
                        h,
                    )->Some_0 ==> (forall|k: NodeRef|
                        old(self).live(k) && k != h ==> final(self).state_of(k) == old(
                            self,
                        ).state_of(k))))
                &&& (old(self).live(h) && !old(self).recomputing_of(h)
                    && old(self).value_of(h) is Some
                    && sources_live_signals(old(self), old(self).sources_of(h))
                    && sources_match(old(self), old(self).sources_of(h))
                    ==> r is Ok && final(self).value_of(h) == old(self).value_of(h)
                        && final(self).count_of(h) == old(self).count_of(h)
                        && final(self).sources_of(h) == old(self).sources_of(h)
                        && final(self).subs_of(h) == old(self).subs_of(h)
                        && (forall|k: NodeRef|
                        old(self).live(k) && k != h ==> node_unchanged(old(self), final(self), k)))
            },
    {
        if !self.is_live(h) {
            return Ok(());
        }
        let fuel = self.fuel_budget();
        self.ensure_fresh(h, fuel)
    }

    /// Enough fuel to pull through any acyclic dependency chain: one unit
    /// per node the graph has ever held, and one to spare.
    fn fuel_budget(&self) -> (r: u64)
        ensures
            r >= 1,
            self.n_slots() >= 1 ==> r >= 2,
    {
        let n = self.slots.len() as u64;
        if n < u64::MAX {
            n + 1
        } else {
            n
        }
    }

    /// The dirty/clean state of the node `h` resolves to, if it resolves.
    pub fn node_state(&self, h: NodeRef) -> (r: Option<NodeState>)
        ensures
            r == (if self.live(h) {
                Some(self.state_of(h))
            } else {
                None::<NodeState>
            }),
    {
        if !self.is_live(h) {
            return None;
        }
        match &self.slots[h.index].node {
            Some(n) => Some(n.state),
            None => None,
        }
    }

    /// How many times the expression of the node `h` resolves to has been
    /// evaluated, if it resolves.
    pub fn compute_count(&self, h: NodeRef) -> (r: Option<u64>)
        ensures
            r == (if self.live(h) {
                Some(self.count_of(h))
            } else {
                None::<u64>
            }),
    {
        if !self.is_live(h) {
            return None;
        }
        match &self.slots[h.index].node {
            Some(n) => Some(n.compute_count),
            None => None,
        }
    }

    /// The nodes recorded as sources at the last recomputation of the node
    /// `h` resolves to, if it resolves.
    pub fn source_nodes(&self, h: NodeRef) -> (r: Option<Vec<NodeRef>>)
        ensures
            r is Some <==> self.live(h),
            r matches Some(v) ==> v@.len() == self.sources_of(h).len() && forall|j: int|
                0 <= j < v@.len() ==> v@[j] == self.sources_of(h)[j].node,
    {
        if !self.is_live(h) {
            return None;
        }
        match &self.slots[h.index].node {
            Some(n) => {
                let mut v: Vec<NodeRef> = Vec::new();
                let mut i: usize = 0;
                while i < n.sources.len()
                    invariant
                        0 <= i <= n.sources@.len(),
                        v@.len() == i,
                        forall|j: int| 0 <= j < i ==> v@[j] == n.sources@[j].node,
                    decreases n.sources@.len() - i,
                {
                    v.push(n.sources[i].node);
                    i += 1;
                }
                Some(v)
            },
            None => None,
        }
    }

    /// The recorded subscribers of the node `h` resolves to, if it
    /// resolves.
    pub fn subscriber_nodes(&self, h: NodeRef) -> (r: Option<Vec<NodeRef>>)
        ensures
            r is Some <==> self.live(h),
            r matches Some(v) ==> v@ == self.subs_of(h),
    {
        if !self.is_live(h) {
            return None;
        }
        Some(self.copy_subscribers(h))
    }
}

/// The fields of `k` that any recomputation step must leave alone when the
/// step's own subject is some other node: its kind, flag, value, count and
/// source list (its dirty/clean state and its subscriber list may move).
pub open spec fn frame_fields(b: &Graph, c: &Graph, k: NodeRef) -> bool {
    &&& c.kind_of(k) == b.kind_of(k)
    &&& c.recomputing_of(k) == b.recomputing_of(k)
    &&& c.value_of(k) == b.value_of(k)
    &&& c.count_of(k) == b.count_of(k)
    &&& c.sources_of(k) == b.sources_of(k)
}

/// What any amount of pulling and recomputation leaves untouched: the
/// arena's shape, every node's kind and mid-recompute flag, the value and
/// evaluation count of every signal (a recomputation reads signals, never
/// writes them), and the value, sources and count of every node that was
/// already mid-recompute (nothing can commit into a flagged node).
pub open spec fn preserved_by_recompute(a: &Graph, b: &Graph) -> bool {
    &&& same_shape(a, b)
    &&& forall|k: NodeRef|
        a.live(k) ==> #[trigger] b.kind_of(k) == a.kind_of(k) && b.recomputing_of(k)
            == a.recomputing_of(k)
    &&& forall|k: NodeRef|
        a.live(k) && a.is_signal(k) ==> #[trigger] b.value_of(k) == a.value_of(k) && b.count_of(k)
            == a.count_of(k) && b.sources_of(k) == a.sources_of(k)
    &&& forall|k: NodeRef|
        a.live(k) && a.recomputing_of(k) ==> #[trigger] b.value_of(k) == a.value_of(k)
            && b.sources_of(k) == a.sources_of(k) && b.count_of(k) == a.count_of(k)
}

/// As `preserved_by_recompute`, except that the recomputing flag of the
/// one node `h` — the memo currently being ensured — is left open.
pub open spec fn preserved_except_flag(a: &Graph, b: &Graph, h: NodeRef) -> bool {
    &&& same_shape(a, b)
    &&& forall|k: NodeRef| a.live(k) ==> #[trigger] b.kind_of(k) == a.kind_of(k)
    &&& forall|k: NodeRef|
        a.live(k) && k != h ==> #[trigger] b.recomputing_of(k) == a.recomputing_of(k)
    &&& forall|k: NodeRef|
        a.live(k) && a.is_signal(k) ==> #[trigger] b.value_of(k) == a.value_of(k) && b.count_of(k)
            == a.count_of(k) && b.sources_of(k) == a.sources_of(k)
    &&& forall|k: NodeRef|
        a.live(k) && a.recomputing_of(k) && k != h ==> #[trigger] b.value_of(k) == a.value_of(k)
            && b.sources_of(k) == a.sources_of(k) && b.count_of(k) == a.count_of(k)
}

/// Every node the expression can read is a live signal: its evaluation
/// then depends on nothing but the current signal values and the previous
/// output, so it can be pinned down as a spec-level function.
pub open spec fn reads_live_signals(g: &Graph, e: Expr) -> bool
    decreases e,
{
    match e {
        Expr::Const(_) => true,
        Expr::Prev(_) => true,
        Expr::Read(s) => g.live(s) && g.is_signal(s),
        Expr::ReadUntracked(s) => g.live(s) && g.is_signal(s),
        Expr::Add(a, b) => reads_live_signals(g, *a) && reads_live_signals(g, *b),
        Expr::Mul(a, b) => reads_live_signals(g, *a) && reads_live_signals(g, *b),
        Expr::Select(c, a, b) => reads_live_signals(g, *c) && reads_live_signals(g, *a)
            && reads_live_signals(g, *b),
    }
}

/// What a signal-only expression evaluates to over the current signal
/// values, given the node's previous output.
pub open spec fn spec_eval(g: &Graph, e: Expr, prev: Option<i64>) -> i64
    decreases e,
{
    match e {
        Expr::Const(c) => c,
        Expr::Prev(d) => match prev {
            Some(p) => p,
            None => d,
        },
        Expr::Read(s) => g.value_of(s)->Some_0,
        Expr::ReadUntracked(s) => g.value_of(s)->Some_0,
        Expr::Add(a, b) => sat_i64(
            spec_eval(g, *a, prev) as int + spec_eval(g, *b, prev) as int,
        ) as i64,
        Expr::Mul(a, b) => sat_i64(
            spec_eval(g, *a, prev) as int * spec_eval(g, *b, prev) as int,
        ) as i64,
        Expr::Select(c, a, b) => if spec_eval(g, *c, prev) != 0 {
            spec_eval(g, *a, prev)
        } else {
            spec_eval(g, *b, prev)
        },
    }
}

/// Whether evaluating `e` performs a tracked read of `x`: exactly the nodes
/// this holds of become the evaluating node's sources.
pub open spec fn expr_tracks(g: &Graph, e: Expr, prev: Option<i64>, x: NodeRef) -> bool
    decreases e,
{
    match e {
        Expr::Const(_) => false,
        Expr::Prev(_) => false,
        Expr::Read(s) => s == x,
        Expr::ReadUntracked(_) => false,
        Expr::Add(a, b) => expr_tracks(g, *a, prev, x) || expr_tracks(g, *b, prev, x),
        Expr::Mul(a, b) => expr_tracks(g, *a, prev, x) || expr_tracks(g, *b, prev, x),
        Expr::Select(c, a, b) => expr_tracks(g, *c, prev, x) || (if spec_eval(g, *c, prev) != 0 {
            expr_tracks(g, *a, prev, x)
        } else {
            expr_tracks(g, *b, prev, x)
        }),
    }
}

/// Every recorded source is a live signal.
pub open spec fn sources_live_signals(g: &Graph, s: Seq<SourceEntry>) -> bool {
    forall|j: int|
        0 <= j < s.len() ==> g.live((#[trigger] s[j]).node) && g.is_signal(s[j].node)
}

/// Every recorded source still shows the value captured when the node last
/// recomputed: nothing the node depends on has changed.
pub open spec fn sources_match(g: &Graph, s: Seq<SourceEntry>) -> bool {
    forall|j: int| 0 <= j < s.len() ==> g.value_of((#[trigger] s[j]).node) == Some(s[j].seen)
}

/// A memo whose whole behaviour on the next ensure is pinned down: it is
/// live and idle, its expression reads only live signals, and every
/// recorded source is a live signal.
pub open spec fn pinned_ready(g: &Graph, h: NodeRef, e: Expr) -> bool {
    &&& g.live(h)
    &&& !g.recomputing_of(h)
    &&& g.kind_of(h) == NodeKind::Computed(e)
    &&& reads_live_signals(g, e)
    &&& sources_live_signals(g, g.sources_of(h))
}

/// A step that keeps the shape, every kind, and every signal's value keeps
/// a signal-only expression evaluable, its value, and its tracked reads.
proof fn lemma_eval_transfer(a: &Graph, b: &Graph, e: Expr, prev: Option<i64>)
    requires
        reads_live_signals(a, e),
        same_shape(a, b),
        forall|k: NodeRef| a.live(k) ==> #[trigger] b.kind_of(k) == a.kind_of(k),
        forall|k: NodeRef|
            a.live(k) && a.is_signal(k) ==> #[trigger] b.value_of(k) == a.value_of(k),
    ensures
        reads_live_signals(b, e),
        spec_eval(b, e, prev) == spec_eval(a, e, prev),
    decreases e,
{
    match e {
        Expr::Read(s) => {
            assert(b.live(s));
            assert(b.kind_of(s) == a.kind_of(s));
            assert(b.value_of(s) == a.value_of(s));
        },
        Expr::ReadUntracked(s) => {
            assert(b.live(s));
            assert(b.kind_of(s) == a.kind_of(s));
            assert(b.value_of(s) == a.value_of(s));
        },
        Expr::Add(x, y) => {
            lemma_eval_transfer(a, b, *x, prev);
            lemma_eval_transfer(a, b, *y, prev);
        },
        Expr::Mul(x, y) => {
            lemma_eval_transfer(a, b, *x, prev);
            lemma_eval_transfer(a, b, *y, prev);
        },
        Expr::Select(c, x, y) => {
            lemma_eval_transfer(a, b, *c, prev);
            lemma_eval_transfer(a, b, *x, prev);
            lemma_eval_transfer(a, b, *y, prev);
        },
        _ => {},
    }
}

/// As `lemma_eval_transfer`, for whether one node is read tracked.
proof fn lemma_tracks_transfer(a: &Graph, b: &Graph, e: Expr, prev: Option<i64>, x: NodeRef)
    requires
        reads_live_signals(a, e),
        same_shape(a, b),
        forall|k: NodeRef| a.live(k) ==> #[trigger] b.kind_of(k) == a.kind_of(k),
        forall|k: NodeRef|
            a.live(k) && a.is_signal(k) ==> #[trigger] b.value_of(k) == a.value_of(k),
    ensures
        expr_tracks(b, e, prev, x) == expr_tracks(a, e, prev, x),
    decreases e,
{
    match e {
        Expr::Add(p, q) => {
            lemma_tracks_transfer(a, b, *p, prev, x);
            lemma_tracks_transfer(a, b, *q, prev, x);
        },
        Expr::Mul(p, q) => {
            lemma_tracks_transfer(a, b, *p, prev, x);
            lemma_tracks_transfer(a, b, *q, prev, x);
        },
        Expr::Select(c, p, q) => {
            lemma_eval_transfer(a, b, *c, prev);
            lemma_tracks_transfer(a, b, *c, prev, x);
            lemma_tracks_transfer(a, b, *p, prev, x);
            lemma_tracks_transfer(a, b, *q, prev, x);
        },
        _ => {},
    }
}

/// A tracked read of a signal-only expression reads a live signal.
proof fn lemma_tracks_signal(g: &Graph, e: Expr, prev: Option<i64>, x: NodeRef)
    requires
        reads_live_signals(g, e),
        expr_tracks(g, e, prev, x),
    ensures
        g.live(x),
        g.is_signal(x),
    decreases e,
{
    match e {
        Expr::Add(a, b) => {
            if expr_tracks(g, *a, prev, x) {
                lemma_tracks_signal(g, *a, prev, x);
            } else {
                lemma_tracks_signal(g, *b, prev, x);
            }
        },
        Expr::Mul(a, b) => {
            if expr_tracks(g, *a, prev, x) {
                lemma_tracks_signal(g, *a, prev, x);
            } else {
                lemma_tracks_signal(g, *b, prev, x);
            }
        },
        Expr::Select(c, a, b) => {
            if expr_tracks(g, *c, prev, x) {
                lemma_tracks_signal(g, *c, prev, x);
            } else if spec_eval(g, *c, prev) != 0 {
                lemma_tracks_signal(g, *a, prev, x);
            } else {
                lemma_tracks_signal(g, *b, prev, x);
            }
        },
        _ => {},
    }
}

/// Chain two preservation facts.
proof fn lemma_preserved_trans(a: &Graph, b: &Graph, c: &Graph)
    requires
        preserved_by_recompute(a, b),
        preserved_by_recompute(b, c),
    ensures
        preserved_by_recompute(a, c),
{
    assert forall|k: NodeRef| a.live(k) implies #[trigger] c.live(k) by {
        assert(b.live(k));
    }
    assert forall|k: NodeRef| c.live(k) implies #[trigger] a.live(k) by {
        assert(b.live(k));
    }
    assert forall|k: NodeRef| a.live(k) implies #[trigger] c.kind_of(k) == a.kind_of(k)
        && c.recomputing_of(k) == a.recomputing_of(k) by {
        assert(b.live(k));
        assert(b.kind_of(k) == a.kind_of(k));
    }
    assert forall|k: NodeRef|
        a.live(k) && a.is_signal(k) implies #[trigger] c.value_of(k) == a.value_of(k)
        && c.count_of(k) == a.count_of(k) by {
        assert(b.live(k));
        assert(b.kind_of(k) == a.kind_of(k));
        assert(b.is_signal(k));
        assert(b.value_of(k) == a.value_of(k));
    }
    assert forall|k: NodeRef|
        a.live(k) && a.recomputing_of(k) implies #[trigger] c.value_of(k) == a.value_of(k)
        && c.sources_of(k) == a.sources_of(k) && c.count_of(k) == a.count_of(k) by {
        assert(b.live(k));
        assert(b.kind_of(k) == a.kind_of(k));
        assert(b.recomputing_of(k) == a.recomputing_of(k));
        assert(b.value_of(k) == a.value_of(k));
    }
}

/// A fact about one node carried across a preservation.
proof fn lemma_preserved_node(a: &Graph, b: &Graph, k: NodeRef)
    requires
        preserved_by_recompute(a, b),
        a.live(k),
    ensures
        b.live(k),
        b.kind_of(k) == a.kind_of(k),
        b.recomputing_of(k) == a.recomputing_of(k),
        a.recomputing_of(k) ==> b.value_of(k) == a.value_of(k) && b.sources_of(k) == a.sources_of(
            k,
        ) && b.count_of(k) == a.count_of(k),
{
    assert(b.live(k));
    assert(b.kind_of(k) == a.kind_of(k));
    if a.recomputing_of(k) {
        assert(b.value_of(k) == a.value_of(k));
    }
}

/// A local step on the node `h` — framed like a field setter — after a
/// whole preservation keeps the preservation, provided it leaves what the
/// bundle watches: `h`'s kind and flag always, and its value and count
/// where `h` is a signal.
proof fn lemma_preserved_step(a: &Graph, b: &Graph, c: &Graph, h: NodeRef)
    requires
        preserved_by_recompute(a, b),
        a.live(h) ==> !a.recomputing_of(h),
        b.live(h),
        same_shape(b, c),
        c.kind_of(h) == b.kind_of(h),
        c.recomputing_of(h) == b.recomputing_of(h),
        b.is_signal(h) ==> c.value_of(h) == b.value_of(h) && c.count_of(h) == b.count_of(h)
            && c.sources_of(h) == b.sources_of(h),
        forall|k: NodeRef| b.live(k) && k != h ==> #[trigger] frame_fields(b, c, k),
    ensures
        preserved_by_recompute(a, c),
{
    assert(preserved_by_recompute(b, c)) by {
        assert forall|k: NodeRef| b.live(k) implies #[trigger] c.kind_of(k) == b.kind_of(k)
            && c.recomputing_of(k) == b.recomputing_of(k) by {
            if k != h {
                assert(frame_fields(b, c, k));
            }
        }
        assert forall|k: NodeRef|
            b.live(k) && b.is_signal(k) implies #[trigger] c.value_of(k) == b.value_of(k)
            && c.count_of(k) == b.count_of(k) && c.sources_of(k) == b.sources_of(k) by {
            if k != h {
                assert(frame_fields(b, c, k));
            }
        }
        assert forall|k: NodeRef|
            b.live(k) && b.recomputing_of(k) implies #[trigger] c.value_of(k) == b.value_of(k)
            && c.sources_of(k) == b.sources_of(k) && c.count_of(k) == b.count_of(k) by {
            if a.live(h) {
                assert(a.live(k));
                if k == h {
                    assert(b.recomputing_of(h) == a.recomputing_of(h));
                    assert(false);
                } else {
                    assert(frame_fields(b, c, k));
                }
            } else {
                assert(k != h || !b.recomputing_of(k) || b.live(h));
                if k != h {
                    assert(frame_fields(b, c, k));
                } else {
                    assert(a.live(k));
                    assert(b.recomputing_of(h) == a.recomputing_of(h));
                    assert(false);
                }
            }
        }
    }
    lemma_preserved_trans(a, b, c);
}

/// A flag-open preservation followed by a setter-framed step on `h` that
/// keeps `h`'s kind, value, sources and count stays flag-open preserved.
proof fn lemma_setter_step(a: &Graph, b: &Graph, c: &Graph, h: NodeRef)
    requires
        preserved_except_flag(a, b, h),
        a.live(h) ==> !a.recomputing_of(h),
        b.live(h),
        same_shape(b, c),
        c.kind_of(h) == b.kind_of(h),
        c.value_of(h) == b.value_of(h),
        c.sources_of(h) == b.sources_of(h),
        c.count_of(h) == b.count_of(h),
        forall|k: NodeRef| b.live(k) && k != h ==> node_unchanged(b, c, k),
    ensures
        preserved_except_flag(a, c, h),
{
    assert forall|k: NodeRef| a.live(k) implies #[trigger] c.live(k) by {
        assert(b.live(k));
    }
    assert forall|k: NodeRef| c.live(k) implies #[trigger] a.live(k) by {
        assert(b.live(k));
    }
    assert forall|k: NodeRef| a.live(k) implies #[trigger] c.kind_of(k) == a.kind_of(k) by {
        assert(b.live(k));
        assert(b.kind_of(k) == a.kind_of(k));
        if k != h {
            assert(node_unchanged(b, c, k));
        }
    }
    assert forall|k: NodeRef|
        a.live(k) && k != h implies #[trigger] c.recomputing_of(k) == a.recomputing_of(k) by {
        assert(b.live(k));
        assert(node_unchanged(b, c, k));
    }
    assert forall|k: NodeRef|
        a.live(k) && a.is_signal(k) implies #[trigger] c.value_of(k) == a.value_of(k)
        && c.count_of(k) == a.count_of(k) && c.sources_of(k) == a.sources_of(k) by {
        assert(b.live(k));
        assert(b.kind_of(k) == a.kind_of(k));
        assert(b.value_of(k) == a.value_of(k));
        assert(b.sources_of(k) == a.sources_of(k));
        if k != h {
            assert(node_unchanged(b, c, k));
        }
    }
    assert forall|k: NodeRef|
        a.live(k) && a.recomputing_of(k) && k != h implies #[trigger] c.value_of(k) == a.value_of(
        k,
    ) && c.sources_of(k) == a.sources_of(k) && c.count_of(k) == a.count_of(k) by {
        assert(b.live(k));
        assert(b.value_of(k) == a.value_of(k));
        assert(node_unchanged(b, c, k));
    }
}

/// A flag-open preservation composed with a full preservation in which the
/// flagged node `h` stays flagged: the result is still flag-open, and the
/// flagged node's value, sources and count are carried through.
proof fn lemma_nested_step(a: &Graph, b: &Graph, c: &Graph, h: NodeRef)
    requires
        preserved_except_flag(a, b, h),
        a.live(h) ==> !a.recomputing_of(h),
        preserved_by_recompute(b, c),
        b.live(h),
        b.recomputing_of(h),
    ensures
        preserved_except_flag(a, c, h),
        c.live(h),
        c.recomputing_of(h),
        c.kind_of(h) == b.kind_of(h),
        c.value_of(h) == b.value_of(h),
        c.sources_of(h) == b.sources_of(h),
        c.count_of(h) == b.count_of(h),
{
    assert(c.kind_of(h) == b.kind_of(h));
    assert(c.value_of(h) == b.value_of(h));
    assert forall|k: NodeRef| a.live(k) implies #[trigger] c.live(k) by {
        assert(b.live(k));
    }
    assert forall|k: NodeRef| c.live(k) implies #[trigger] a.live(k) by {
        assert(b.live(k));
    }
    assert forall|k: NodeRef| a.live(k) implies #[trigger] c.kind_of(k) == a.kind_of(k) by {
        assert(b.live(k));
        assert(b.kind_of(k) == a.kind_of(k));
        assert(c.kind_of(k) == b.kind_of(k));
    }
    assert forall|k: NodeRef|
        a.live(k) && k != h implies #[trigger] c.recomputing_of(k) == a.recomputing_of(k) by {
        assert(b.live(k));
        assert(c.kind_of(k) == b.kind_of(k));
    }
    assert forall|k: NodeRef|
        a.live(k) && a.is_signal(k) implies #[trigger] c.value_of(k) == a.value_of(k)
        && c.count_of(k) == a.count_of(k) by {
        assert(b.live(k));
        assert(b.kind_of(k) == a.kind_of(k));
        assert(b.is_signal(k));
        assert(b.value_of(k) == a.value_of(k));
        assert(c.value_of(k) == b.value_of(k));
    }
    assert forall|k: NodeRef|
        a.live(k) && a.recomputing_of(k) && k != h implies #[trigger] c.value_of(k) == a.value_of(
        k,
    ) && c.sources_of(k) == a.sources_of(k) && c.count_of(k) == a.count_of(k) by {
        assert(b.live(k));
        assert(b.kind_of(k) == a.kind_of(k));
        assert(b.recomputing_of(k) == a.recomputing_of(k));
        assert(b.value_of(k) == a.value_of(k));
        assert(c.value_of(k) == b.value_of(k));
    }
}

/// Once the flag of `h` is back to what it was, the flag-open preservation
/// is a full one.
proof fn lemma_except_close(a: &Graph, b: &Graph, h: NodeRef)
    requires
        preserved_except_flag(a, b, h),
        a.live(h) ==> !a.recomputing_of(h),
        a.live(h) ==> b.recomputing_of(h) == a.recomputing_of(h),
    ensures
        preserved_by_recompute(a, b),
{
    assert forall|k: NodeRef| a.live(k) implies #[trigger] b.kind_of(k) == a.kind_of(k)
        && b.recomputing_of(k) == a.recomputing_of(k) by {
        if k != h {
            assert(b.recomputing_of(k) == a.recomputing_of(k));
        }
    }
    assert forall|k: NodeRef|
        a.live(k) && a.recomputing_of(k) implies #[trigger] b.value_of(k) == a.value_of(k)
        && b.sources_of(k) == a.sources_of(k) && b.count_of(k) == a.count_of(k) by {
        assert(k != h);
        assert(b.value_of(k) == a.value_of(k));
    }
}


/// The two graphs have the same slots, the same generations, and the same
/// handles resolve in both: nothing was allocated, disposed, or revived.
pub open spec fn same_shape(a: &Graph, b: &Graph) -> bool {
    &&& b.n_slots() == a.n_slots()
    &&& forall|i: int| 0 <= i < a.n_slots() ==> b.gen_at(i) == a.gen_at(i)
    &&& forall|k: NodeRef| a.live(k) <==> #[trigger] b.live(k)
}

/// The node `k` resolves to was marked `Dirty` and nothing else about it
/// changed.
pub open spec fn only_state_dirtied(a: &Graph, b: &Graph, k: NodeRef) -> bool {
    &&& b.live(k) == a.live(k)
    &&& b.state_of(k) == NodeState::Dirty
    &&& b.value_of(k) == a.value_of(k)
    &&& b.kind_of(k) == a.kind_of(k)
    &&& b.sources_of(k) == a.sources_of(k)
    &&& b.subs_of(k) == a.subs_of(k)
    &&& b.count_of(k) == a.count_of(k)
    &&& b.recomputing_of(k) == a.recomputing_of(k)
}

/// Every observable field of the node `h` resolves to is the same in `a`
/// and `b`, and `h` resolves in one exactly when it resolves in the other.
pub open spec fn node_unchanged(a: &Graph, b: &Graph, h: NodeRef) -> bool {
    &&& b.live(h) == a.live(h)
    &&& b.value_of(h) == a.value_of(h)
    &&& b.state_of(h) == a.state_of(h)
    &&& b.kind_of(h) == a.kind_of(h)
    &&& b.sources_of(h) == a.sources_of(h)
    &&& b.subs_of(h) == a.subs_of(h)
    &&& b.count_of(h) == a.count_of(h)
    &&& b.recomputing_of(h) == a.recomputing_of(h)
}

} // verus!
