//! The data carried by each reactive node: handles, node state, the
//! recomputation language, and the error taxonomy.

use vstd::prelude::*;

verus! {

/// A copyable reference to an arena slot: `(slot index, generation)`.
///
/// A handle resolves to a node only while the slot's current generation
/// matches; disposal bumps the generation, so stale handles never alias a
/// reused slot. Identity is slot + generation equality.
#[derive(Clone, Copy, PartialEq, Eq, Structural, Debug)]
pub struct NodeRef {
    pub index: usize,
    pub generation: u64,
}

/// Whether a node's cached value is known to be valid relative to its
/// dependencies (`Clean`) or a dependency has announced a change since the
/// node last recomputed (`Dirty`).
#[derive(Clone, Copy, PartialEq, Eq, Structural, Debug)]
pub enum NodeState {
    Clean,
    Dirty,
}

/// One dependency edge as recorded by the reading node: the node that was
/// read, and the value observed at that read. The captured value lets a
/// later read decide, after refreshing its sources, whether anything it
/// depends on actually changed.
#[derive(Clone, Copy, PartialEq, Eq, Structural, Debug)]
pub struct SourceEntry {
    pub node: NodeRef,
    pub seen: i64,
}

/// The recomputation function of a node, as a closed expression language.
///
/// Dependencies are not declared: evaluating the expression reads other
/// nodes, and exactly the nodes read this round become the node's sources.
/// `Select` evaluates only one branch, so a node's sources can change from
/// one recomputation to the next. Arithmetic saturates at the `i64` range.
pub enum Expr {
    /// A constant.
    Const(i64),
    /// Read another node, registering it as a source.
    Read(NodeRef),
    /// Read another node without registering a dependency on it.
    ReadUntracked(NodeRef),
    /// The node's own value from its previous recomputation, or the given
    /// default on the first one.
    Prev(i64),
    /// Saturating addition.
    Add(Box<Expr>, Box<Expr>),
    /// Saturating multiplication.
    Mul(Box<Expr>, Box<Expr>),
    /// Evaluate the first expression; if it is nonzero evaluate the second,
    /// otherwise the third. The branch not taken is not read at all.
    Select(Box<Expr>, Box<Expr>, Box<Expr>),
}

/// How a recomputation can fail. Failure aborts only the triggering read:
/// the node's previous cached value is kept and the node stays `Dirty`, so
/// a later, non-failing read can retry.
#[derive(Clone, Copy, PartialEq, Eq, Structural, Debug)]
pub enum GraphError {
    /// A node was re-entered while already recomputing: its expression
    /// reads the node itself, directly or transitively.
    CyclicDependency,
    /// A node's expression reads a node that has been disposed.
    AbsentDependency,
}

/// What a node computes: either it holds a value written from outside
/// (a signal), or it recomputes an expression (a memo).
pub enum NodeKind {
    Signal,
    Computed(Expr),
}

/// The mutable payload of one live arena slot.
pub(crate) struct Node {
    pub(crate) kind: NodeKind,
    /// Last computed output; `None` before the first recomputation.
    pub(crate) value: Option<i64>,
    pub(crate) state: NodeState,
    /// True only while this node's expression is being evaluated; a read
    /// that reaches the node again while it is set is a cyclic dependency.
    pub(crate) recomputing: bool,
    /// Nodes read during the last recomputation, with the values observed.
    pub(crate) sources: Vec<SourceEntry>,
    /// Nodes that read this node during their last recomputation.
    pub(crate) subscribers: Vec<NodeRef>,
    /// How many times the node's expression has been evaluated.
    pub(crate) compute_count: u64,
}

/// One arena slot: its current generation and, if occupied, its node.
pub(crate) struct Slot {
    pub(crate) generation: u64,
    pub(crate) node: Option<Node>,
}

/// Structural size of an expression; the termination measure for walking it.
pub(crate) open spec fn expr_height(e: Expr) -> nat
    decreases e,
{
    match e {
        Expr::Const(_) => 1,
        Expr::Read(_) => 1,
        Expr::ReadUntracked(_) => 1,
        Expr::Prev(_) => 1,
        Expr::Add(a, b) => 1 + expr_height(*a) + expr_height(*b),
        Expr::Mul(a, b) => 1 + expr_height(*a) + expr_height(*b),
        Expr::Select(c, a, b) => 1 + expr_height(*c) + expr_height(*a) + expr_height(*b),
    }
}

/// An exact copy of an expression tree.
pub(crate) fn clone_expr(e: &Expr) -> (r: Expr)
    ensures
        r == *e,
    decreases *e,
{
    match e {
        Expr::Const(c) => Expr::Const(*c),
        Expr::Read(h) => Expr::Read(*h),
        Expr::ReadUntracked(h) => Expr::ReadUntracked(*h),
        Expr::Prev(d) => Expr::Prev(*d),
        Expr::Add(a, b) => Expr::Add(Box::new(clone_expr(a)), Box::new(clone_expr(b))),
        Expr::Mul(a, b) => Expr::Mul(Box::new(clone_expr(a)), Box::new(clone_expr(b))),
        Expr::Select(c, a, b) => Expr::Select(
            Box::new(clone_expr(c)),
            Box::new(clone_expr(a)),
            Box::new(clone_expr(b)),
        ),
    }
}

/// Whether some entry of `s` records a read of node `n`.
pub open spec fn contains_node(s: Seq<SourceEntry>, n: NodeRef) -> bool {
    exists|i: int| 0 <= i < s.len() && s[i].node == n
}

/// Whether no node is recorded twice in `s`.
pub open spec fn distinct_nodes(s: Seq<SourceEntry>) -> bool {
    forall|i: int, j: int| 0 <= i < j < s.len() ==> s[i].node != s[j].node
}

/// Whether some entry of `s` records a read of node `n`.
pub(crate) fn entries_contain(s: &Vec<SourceEntry>, n: NodeRef) -> (r: bool)
    ensures
        r == contains_node(s@, n),
{
    let mut i: usize = 0;
    while i < s.len()
        invariant
            0 <= i <= s@.len(),
            forall|j: int| 0 <= j < i ==> s@[j].node != n,
        decreases s@.len() - i,
    {
        if s[i].node == n {
            return true;
        }
        i += 1;
    }
    false
}

/// Whether `s` contains the handle `n`.
pub(crate) fn refs_contain(s: &Vec<NodeRef>, n: NodeRef) -> (r: bool)
    ensures
        r == s@.contains(n),
{
    let mut i: usize = 0;
    while i < s.len()
        invariant
            0 <= i <= s@.len(),
            forall|j: int| 0 <= j < i ==> s@[j] != n,
        decreases s@.len() - i,
    {
        if s[i] == n {
            return true;
        }
        i += 1;
    }
    false
}

/// `x` clamped to the `i64` range.
pub open spec fn sat_i64(x: int) -> int {
    if x > i64::MAX as int {
        i64::MAX as int
    } else if x < i64::MIN as int {
        i64::MIN as int
    } else {
        x
    }
}

/// Saturating `i64` addition.
pub fn sat_add(a: i64, b: i64) -> (r: i64)
    ensures
        r as int == sat_i64(a as int + b as int),
{
    let s: i128 = a as i128 + b as i128;
    if s > i64::MAX as i128 {
        i64::MAX
    } else if s < i64::MIN as i128 {
        i64::MIN
    } else {
        s as i64
    }
}

/// Saturating `i64` multiplication.
pub fn sat_mul(a: i64, b: i64) -> (r: i64)
    ensures
        r as int == sat_i64(a as int * b as int),
{
    proof {
        assert((a as int) * (b as int) < i128::MAX as int && (a as int) * (b as int)
            > i128::MIN as int) by (nonlinear_arith)
            requires
                i64::MIN as int <= a as int <= i64::MAX as int,
                i64::MIN as int <= b as int <= i64::MAX as int,
        ;
    }
    let s: i128 = a as i128 * b as i128;
    if s > i64::MAX as i128 {
        i64::MAX
    } else if s < i64::MIN as i128 {
        i64::MIN
    } else {
        s as i64
    }
}

/// The handles of `v` with every occurrence of `h` dropped.
pub(crate) fn filter_refs(v: &Vec<NodeRef>, h: NodeRef) -> (r: Vec<NodeRef>)
    ensures
        forall|x: NodeRef| r@.contains(x) <==> (v@.contains(x) && x != h),
{
    let mut r: Vec<NodeRef> = Vec::new();
    let mut i: usize = 0;
    while i < v.len()
        invariant
            0 <= i <= v@.len(),
            forall|m: int| 0 <= m < r@.len() ==> r@[m] != h && v@.contains(r@[m]),
            forall|j: int| 0 <= j < i && v@[j] != h ==> r@.contains(v@[j]),
        decreases v@.len() - i,
    {
        if !(v[i] == h) {
            let ghost r0 = r@;
            r.push(v[i]);
            proof {
                assert(forall|m: int| 0 <= m < r0.len() ==> r@[m] == r0[m]);
                assert(forall|x: NodeRef| r0.contains(x) ==> r@.contains(x));
                assert(r@[r0.len() as int] == v@[i as int]);
            }
        }
        i += 1;
    }
    proof {
        assert forall|x: NodeRef| v@.contains(x) && x != h implies r@.contains(x) by {
            let j = choose|j: int| 0 <= j < v@.len() && v@[j] == x;
            assert(0 <= j < v@.len() && v@[j] == x);
        }
        assert forall|x: NodeRef| r@.contains(x) implies v@.contains(x) && x != h by {
            let m = choose|m: int| 0 <= m < r@.len() && r@[m] == x;
            assert(0 <= m < r@.len() && r@[m] == x);
        }
    }
    r
}

/// The entries of `v` whose node is not `h`.
pub(crate) fn filter_entries(v: &Vec<SourceEntry>, h: NodeRef) -> (r: Vec<SourceEntry>)
    ensures
        forall|e: SourceEntry| r@.contains(e) <==> (v@.contains(e) && e.node != h),
        forall|x: NodeRef| contains_node(r@, x) <==> (contains_node(v@, x) && x != h),
        distinct_nodes(v@) ==> distinct_nodes(r@),
{
    let mut r: Vec<SourceEntry> = Vec::new();
    let mut i: usize = 0;
    while i < v.len()
        invariant
            0 <= i <= v@.len(),
            forall|m: int|
                0 <= m < r@.len() ==> r@[m].node != h && v@.contains(r@[m]),
            forall|j: int| 0 <= j < i && v@[j].node != h ==> r@.contains(v@[j]),
            distinct_nodes(v@) ==> distinct_nodes(r@),
            distinct_nodes(v@) ==> forall|m: int, j: int|
                0 <= m < r@.len() && 0 <= j < v@.len() && i <= j ==> r@[m].node != v@[j].node,
        decreases v@.len() - i,
    {
        if !(v[i].node == h) {
            let ghost r0 = r@;
            r.push(v[i]);
            proof {
                assert(forall|m: int| 0 <= m < r0.len() ==> r@[m] == r0[m]);
                assert(forall|e: SourceEntry| r0.contains(e) ==> r@.contains(e));
                assert(r@[r0.len() as int] == v@[i as int]);
            }
        }
        i += 1;
    }
    proof {
        assert forall|e: SourceEntry| v@.contains(e) && e.node != h implies r@.contains(e) by {
            let j = choose|j: int| 0 <= j < v@.len() && v@[j] == e;
            assert(0 <= j < v@.len() && v@[j] == e);
        }
        assert forall|e: SourceEntry| r@.contains(e) implies v@.contains(e) && e.node != h by {
            let m = choose|m: int| 0 <= m < r@.len() && r@[m] == e;
            assert(0 <= m < r@.len() && r@[m] == e);
        }
        assert forall|x: NodeRef| contains_node(v@, x) && x != h implies contains_node(r@, x) by {
            let j = choose|j: int| 0 <= j < v@.len() && v@[j].node == x;
            assert(r@.contains(v@[j]));
            let m = choose|m: int| 0 <= m < r@.len() && r@[m] == v@[j];
            assert(r@[m].node == x);
        }
        assert forall|x: NodeRef| contains_node(r@, x) implies contains_node(v@, x) && x != h by {
            let m = choose|m: int| 0 <= m < r@.len() && r@[m].node == x;
            assert(v@.contains(r@[m]));
            let j = choose|j: int| 0 <= j < v@.len() && v@[j] == r@[m];
            assert(v@[j].node == x);
        }
    }
    r
}

/// An element-for-element copy of a recorded source list.
pub(crate) fn copy_entries(s: &Vec<SourceEntry>) -> (r: Vec<SourceEntry>)
    ensures
        r@ == s@,
{
    let mut r: Vec<SourceEntry> = Vec::new();
    let mut i: usize = 0;
    while i < s.len()
        invariant
            0 <= i <= s@.len(),
            r@.len() == i,
            forall|j: int| 0 <= j < i ==> r@[j] == s@[j],
        decreases s@.len() - i,
    {
        r.push(s[i]);
        i += 1;
    }
    proof {
        assert(r@ =~= s@);
    }
    r
}

} // verus!
