use reactive_graph::{Expr, Graph, GraphError, Memo, NodeRef, NodeState, Readable, Reactive, Signal, Track};

fn read_expr(h: NodeRef) -> Expr {
    Expr::Read(h)
}

#[test]
fn concrete_scenario_times_two() {
    let mut g = Graph::new();
    let x = g.create_signal(1);
    let y = g.create_memo(Expr::Mul(Box::new(Expr::Read(x)), Box::new(Expr::Const(2))));

    assert_eq!(g.try_read(y), Ok(Some(2)));
    assert_eq!(g.source_nodes(x), Some(vec![]));
    assert_eq!(g.source_nodes(y), Some(vec![x]));
    assert_eq!(g.compute_count(y), Some(1));

    // Writing the value the signal already holds changes nothing.
    assert!(!g.set(x, 1));
    assert_eq!(g.node_state(y), Some(NodeState::Clean));
    assert_eq!(g.compute_count(y), Some(1));

    // Writing a different value marks the subscriber and recomputes once.
    assert!(g.set(x, 2));
    assert_eq!(g.node_state(y), Some(NodeState::Dirty));
    assert_eq!(g.try_read(y), Ok(Some(4)));
    assert_eq!(g.compute_count(y), Some(2));
}

#[test]
fn glitch_freedom_diamond() {
    let mut g = Graph::new();
    let a = g.create_signal(0);
    // b and c read a but always output zero.
    let b = g.create_memo(Expr::Mul(Box::new(Expr::Read(a)), Box::new(Expr::Const(0))));
    let c = g.create_memo(Expr::Mul(Box::new(Expr::Read(a)), Box::new(Expr::Const(0))));
    let d = g.create_memo(Expr::Add(Box::new(Expr::Read(b)), Box::new(Expr::Read(c))));

    assert_eq!(g.try_read(d), Ok(Some(0)));
    assert_eq!(g.compute_count(d), Some(1));

    // A change to a leaves b and c's outputs unchanged: d is never marked
    // dirty and never re-invoked.
    assert!(g.set(a, 5));
    assert_eq!(g.node_state(d), Some(NodeState::Clean));
    assert_eq!(g.try_read(d), Ok(Some(0)));
    assert_eq!(g.compute_count(d), Some(1));
    // b and c did recompute (their input really changed).
    assert_eq!(g.compute_count(b), Some(2));
    assert_eq!(g.compute_count(c), Some(2));
}

#[test]
fn lazy_minimality_unread_node() {
    let mut g = Graph::new();
    let s = g.create_signal(1);
    let m = g.create_memo(read_expr(s));
    assert_eq!(g.try_read(m), Ok(Some(1)));
    assert_eq!(g.compute_count(m), Some(1));

    // However many times the dependency changes, an unread node records
    // Dirty and never computes.
    assert!(g.set(s, 2));
    assert!(g.set(s, 3));
    assert!(g.set(s, 4));
    assert_eq!(g.node_state(m), Some(NodeState::Dirty));
    assert_eq!(g.compute_count(m), Some(1));

    assert_eq!(g.try_read(m), Ok(Some(4)));
    assert_eq!(g.compute_count(m), Some(2));
}

#[test]
fn equality_gating_constant_output() {
    let mut g = Graph::new();
    let s = g.create_signal(1);
    // m reads s but every recomputation returns zero.
    let m = g.create_memo(Expr::Mul(Box::new(Expr::Read(s)), Box::new(Expr::Const(0))));
    let d = g.create_memo(read_expr(m));
    assert_eq!(g.try_read(d), Ok(Some(0)));
    assert_eq!(g.compute_count(d), Some(1));

    // m recomputes to an equal value: its subscriber is never marked.
    assert!(g.set(s, 2));
    assert_eq!(g.try_read(m), Ok(Some(0)));
    assert_eq!(g.node_state(d), Some(NodeState::Clean));
    assert!(g.set(s, 3));
    assert_eq!(g.try_read(m), Ok(Some(0)));
    assert_eq!(g.node_state(d), Some(NodeState::Clean));
    assert_eq!(g.compute_count(d), Some(1));
}

#[test]
fn dynamic_dependency_rebinding() {
    let mut g = Graph::new();
    let sw = g.create_signal(1);
    let x = g.create_signal(10);
    let y = g.create_signal(20);
    let m = g.create_memo(Expr::Select(
        Box::new(Expr::Read(sw)),
        Box::new(Expr::Read(x)),
        Box::new(Expr::Read(y)),
    ));

    assert_eq!(g.try_read(m), Ok(Some(10)));
    assert_eq!(g.source_nodes(m), Some(vec![sw, x]));
    assert_eq!(g.subscriber_nodes(x), Some(vec![m]));

    // Switch branches: m stops reading x and starts reading y.
    assert!(g.set(sw, 0));
    assert_eq!(g.try_read(m), Ok(Some(20)));
    assert_eq!(g.source_nodes(m), Some(vec![sw, y]));
    assert_eq!(g.subscriber_nodes(x), Some(vec![]));
    assert_eq!(g.subscriber_nodes(y), Some(vec![m]));
    let count = g.compute_count(m);

    // A change in the dropped branch no longer notifies m.
    assert!(g.set(x, 99));
    assert_eq!(g.node_state(m), Some(NodeState::Clean));
    assert_eq!(g.try_read(m), Ok(Some(20)));
    assert_eq!(g.compute_count(m), count);
}

#[test]
fn disposal_safety_mid_graph() {
    let mut g = Graph::new();
    let s = g.create_signal(1);
    let m = g.create_memo(read_expr(s));
    let d = g.create_memo(read_expr(m));
    assert_eq!(g.try_read(d), Ok(Some(1)));

    // Dispose the middle node.
    assert!(g.dispose(m));
    assert!(!g.is_live(m));
    assert_eq!(g.try_read(m), Ok(None));
    assert_eq!(g.node_state(m), None);

    // The disposed node is detached everywhere: no subscriber entry on its
    // former dependency, no source entry on its former reader.
    assert_eq!(g.subscriber_nodes(s), Some(vec![]));
    assert_eq!(g.source_nodes(d), Some(vec![]));

    // Updating the former dependency neither panics nor redelivers.
    assert!(g.set(s, 5));
    assert_eq!(g.try_read(m), Ok(None));
    assert_eq!(g.node_state(d), Some(NodeState::Clean));

    // Disposing again reports nothing to dispose.
    assert!(!g.dispose(m));
}

#[test]
fn stale_handle_never_aliases_reused_slot() {
    let mut g = Graph::new();
    let s1 = g.create_signal(1);
    assert!(g.dispose(s1));
    // The vacated slot is reused, but under a bumped generation.
    let s2 = g.create_signal(2);
    assert_eq!(s1.index, s2.index);
    assert_ne!(s1.generation, s2.generation);
    assert!(!g.is_live(s1));
    assert_eq!(g.try_read(s1), Ok(None));
    assert_eq!(g.try_read(s2), Ok(Some(2)));
}

#[test]
fn cyclic_dependency_detected() {
    let mut g = Graph::new();
    // The first node lands in slot 0 at generation 0; give it an
    // expression that reads its own handle.
    let own = NodeRef { index: 0, generation: 0 };
    let m = g.create_memo(Expr::Read(own));
    assert_eq!(m, own);
    assert_eq!(g.try_read(m), Err(GraphError::CyclicDependency));
    // The failure leaves the node Dirty for a later attempt.
    assert_eq!(g.node_state(m), Some(NodeState::Dirty));
    assert_eq!(g.try_read(m), Err(GraphError::CyclicDependency));
}

#[test]
fn mutual_cycle_detected() {
    let mut g = Graph::new();
    // Second node will land in slot 1 at generation 0.
    let second = NodeRef { index: 1, generation: 0 };
    let a = g.create_memo(Expr::Read(second));
    let b = g.create_memo(Expr::Read(a));
    assert_eq!(b, second);
    assert_eq!(g.try_read(a), Err(GraphError::CyclicDependency));
    assert_eq!(g.try_read(b), Err(GraphError::CyclicDependency));
}

#[test]
fn absent_dependency_is_an_error() {
    let mut g = Graph::new();
    let s = g.create_signal(1);
    let m = g.create_memo(read_expr(s));
    assert!(g.dispose(s));
    // m's expression still names the disposed node.
    assert_eq!(g.try_read(m), Err(GraphError::AbsentDependency));
    assert_eq!(g.node_state(m), Some(NodeState::Dirty));
}

#[test]
fn failed_recomputation_keeps_cached_value() {
    let mut g = Graph::new();
    let s = g.create_signal(7);
    let m = g.create_memo(read_expr(s));
    assert_eq!(g.try_read(m), Ok(Some(7)));
    // After the dependency goes away the recorded edge is detached, so the
    // cached value simply stays valid.
    assert!(g.dispose(s));
    assert_eq!(g.try_read(m), Ok(Some(7)));
}

#[test]
fn saturating_arithmetic() {
    let mut g = Graph::new();
    let top = g.create_memo(Expr::Add(Box::new(Expr::Const(i64::MAX)), Box::new(Expr::Const(1))));
    assert_eq!(g.try_read(top), Ok(Some(i64::MAX)));
    let bottom = g.create_memo(Expr::Add(
        Box::new(Expr::Const(i64::MIN)),
        Box::new(Expr::Const(-1)),
    ));
    assert_eq!(g.try_read(bottom), Ok(Some(i64::MIN)));
    let big = g.create_memo(Expr::Mul(Box::new(Expr::Const(i64::MIN)), Box::new(Expr::Const(-1))));
    assert_eq!(g.try_read(big), Ok(Some(i64::MAX)));
    let plain = g.create_memo(Expr::Mul(Box::new(Expr::Const(-3)), Box::new(Expr::Const(4))));
    assert_eq!(g.try_read(plain), Ok(Some(-12)));
}

#[test]
fn previous_value_feeds_recomputation() {
    let mut g = Graph::new();
    let s = g.create_signal(5);
    let m = g.create_memo(Expr::Add(Box::new(Expr::Prev(100)), Box::new(Expr::Read(s))));
    // First evaluation sees no previous value and uses the default.
    assert_eq!(g.try_read(m), Ok(Some(105)));
    assert!(g.set(s, 7));
    // The next evaluation receives the previous output.
    assert_eq!(g.try_read(m), Ok(Some(112)));
}

#[test]
fn untracked_read_registers_no_dependency() {
    let mut g = Graph::new();
    let s = g.create_signal(1);
    let u = g.create_signal(10);
    let m = g.create_memo(Expr::Add(
        Box::new(Expr::Read(s)),
        Box::new(Expr::ReadUntracked(u)),
    ));
    assert_eq!(g.try_read(m), Ok(Some(11)));
    assert_eq!(g.source_nodes(m), Some(vec![s]));
    assert_eq!(g.subscriber_nodes(u), Some(vec![]));

    // A change to the untracked node does not reach m.
    assert!(g.set(u, 20));
    assert_eq!(g.node_state(m), Some(NodeState::Clean));
    assert_eq!(g.try_read(m), Ok(Some(11)));
    assert_eq!(g.compute_count(m), Some(1));

    // Only a tracked change makes m recompute, and then it sees the new
    // untracked value too.
    assert!(g.set(s, 2));
    assert_eq!(g.try_read(m), Ok(Some(22)));
    assert_eq!(g.compute_count(m), Some(2));
}

#[test]
fn track_computes_without_reading() {
    let mut g = Graph::new();
    let s = g.create_signal(3);
    let m = g.create_memo(read_expr(s));
    assert_eq!(g.track(m), Ok(()));
    assert_eq!(g.node_state(m), Some(NodeState::Clean));
    assert_eq!(g.compute_count(m), Some(1));
    assert_eq!(g.try_read(m), Ok(Some(3)));
    assert_eq!(g.compute_count(m), Some(1));
    // Tracking a handle that resolves to nothing is a normal no-op.
    let gone = NodeRef { index: 400, generation: 0 };
    assert_eq!(g.track(gone), Ok(()));
}

#[test]
fn facade_wrappers_delegate() {
    let mut g = Graph::new();
    let s = Signal::new(&mut g, 1);
    let m = Memo::new(&mut g, Expr::Mul(Box::new(Expr::Read(s.node)), Box::new(Expr::Const(3))));

    // Handles are trivially copyable and compare by identity.
    let m2 = m;
    assert_eq!(m, m2);
    assert_eq!(m.handle(), m.node);

    assert_eq!(m.try_read(&mut g), Ok(Some(3)));
    assert_eq!(m2.try_read(&mut g), Ok(Some(3)));
    assert!(s.set(&mut g, 4));
    assert_eq!(s.try_read(&mut g), Ok(Some(4)));
    assert_eq!(m.track(&mut g), Ok(()));
    assert_eq!(g.node_state(m.node), Some(NodeState::Clean));
    assert_eq!(m.try_read(&mut g), Ok(Some(12)));

    assert!(m.dispose(&mut g));
    assert_eq!(m.try_read(&mut g), Ok(None));
    assert_eq!(m2.try_read(&mut g), Ok(None));
    assert!(s.dispose(&mut g));
    assert_eq!(s.try_read(&mut g), Ok(None));
}

#[test]
fn chain_propagates_only_real_changes() {
    let mut g = Graph::new();
    let s = g.create_signal(2);
    let a = g.create_memo(Expr::Add(Box::new(Expr::Read(s)), Box::new(Expr::Const(1))));
    let b = g.create_memo(Expr::Add(Box::new(Expr::Read(a)), Box::new(Expr::Const(1))));
    assert_eq!(g.try_read(b), Ok(Some(4)));

    assert!(g.set(s, 3));
    // Only the direct subscriber was marked; b learns lazily on read.
    assert_eq!(g.node_state(a), Some(NodeState::Dirty));
    assert_eq!(g.node_state(b), Some(NodeState::Clean));
    assert_eq!(g.try_read(b), Ok(Some(5)));
    assert_eq!(g.compute_count(a), Some(2));
    assert_eq!(g.compute_count(b), Some(2));
}
