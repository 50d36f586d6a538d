//! End-to-end scenarios for the reactive engine.

use natrix::expr::Expr;
use natrix::hook::Template;
use natrix::state::State;

fn text(e: Expr) -> Template {
    Template::Text(e)
}

fn read(i: usize) -> Expr {
    Expr::Read(i)
}

fn lit(v: u64) -> Expr {
    Expr::Lit(v)
}

fn gt(a: Expr, b: Expr) -> Expr {
    Expr::Gt(Box::new(a), Box::new(b))
}

fn ifnz(c: Expr, t: Expr, f: Expr) -> Expr {
    Expr::IfNz(Box::new(c), Box::new(t), Box::new(f))
}

fn artifact_string(s: &State, i: usize) -> String {
    s.artifact_text(i).expect("artifact missing").clone()
}

#[test]
fn mount_renders_initial_value() {
    let mut s = State::new(vec![5]);
    let root = s.mount(text(read(0))).expect("mount failed");
    let a = s.hook_artifact(root).expect("root artifact");
    assert_eq!(artifact_string(&s, a), "5");
}

#[test]
fn update_rerenders_on_write() {
    let mut s = State::new(vec![5]);
    let root = s.mount(text(read(0))).expect("mount failed");
    let a = s.hook_artifact(root).expect("root artifact");
    s.write_signal(0, 42);
    let o = s.update();
    assert!(o.completed);
    assert_eq!(o.executed, vec![root]);
    assert_eq!(artifact_string(&s, a), "42");
}

#[test]
fn no_spurious_updates() {
    // Mutating a signal no live computation read schedules zero work.
    let mut s = State::new(vec![5, 9]);
    let root = s.mount(text(read(0))).expect("mount failed");
    let a = s.hook_artifact(root).expect("root artifact");
    s.write_signal(1, 77);
    let o = s.update();
    assert!(o.completed);
    assert!(o.executed.is_empty());
    assert_eq!(artifact_string(&s, a), "5");
}

#[test]
fn dependency_freshness() {
    // The computation reads signal 1 only while signal 0 is non-zero.
    let mut s = State::new(vec![1, 10]);
    let t = Template::DynText(ifnz(read(0), read(1), lit(0)));
    let root = s.mount(t).expect("mount failed");
    let children = s.hook_children(root).expect("root children");
    assert_eq!(children.len(), 1);
    let attr = children[0];
    let a = s.hook_artifact(attr).expect("attr artifact");
    assert_eq!(artifact_string(&s, a), "10");

    // Run N+1: the condition flips, signal 1 is no longer read.
    s.write_signal(0, 0);
    let o = s.update();
    assert_eq!(o.executed, vec![attr]);
    assert_eq!(artifact_string(&s, a), "0");

    // Mutating signal 1 after N+1 must not re-run the computation.
    s.write_signal(1, 99);
    let o = s.update();
    assert!(o.executed.is_empty());
    assert_eq!(artifact_string(&s, a), "0");
}

#[test]
fn parent_before_child_teardown() {
    // While signal 0 > 2, the branch owns an inner node subscribed to
    // signal 1.
    let mut s = State::new(vec![5, 8]);
    let t = Template::Watch(
        gt(read(0), lit(2)),
        Box::new(Template::Dyn(Box::new(text(read(1))))),
        Box::new(text(lit(0))),
    );
    let root = s.mount(t).expect("mount failed");
    let children = s.hook_children(root).expect("root children");
    // One watch computation plus the inner node.
    assert_eq!(children.len(), 2);
    let inner = children[1];
    let inner_artifact = s.hook_artifact(inner).expect("inner artifact");
    assert_eq!(artifact_string(&s, inner_artifact), "8");

    // Flip the branch: the root re-runs and destroys the inner node.
    s.write_signal(0, 1);
    let o = s.update();
    assert!(o.completed);
    assert!(s.hook_artifact(inner).is_none(), "inner child must be torn down");

    // Mutating the signal the destroyed child depended on re-runs nothing.
    s.write_signal(1, 123);
    let o2 = s.update();
    assert!(o2.executed.is_empty());
    let _ = o;
}

#[test]
fn memoization_short_circuits() {
    // Derivation is "value > 2".
    let mut s = State::new(vec![5]);
    let t = Template::Watch(
        gt(read(0), lit(2)),
        Box::new(text(lit(1))),
        Box::new(text(lit(0))),
    );
    let root = s.mount(t).expect("mount failed");
    let a = s.hook_artifact(root).expect("root artifact");
    assert_eq!(artifact_string(&s, a), "1");
    let watch = s.hook_children(root).expect("root children")[0];

    // 5 -> 6: true -> true, the owner must not be scheduled.
    s.write_signal(0, 6);
    let o = s.update();
    assert_eq!(o.executed, vec![watch]);
    assert_eq!(artifact_string(&s, a), "1");

    // 6 -> 1: true -> false, the owner must re-run.
    s.write_signal(0, 1);
    let o = s.update();
    assert_eq!(o.executed.len(), 2);
    assert_eq!(o.executed[0], watch);
    assert_eq!(o.executed[1], root);
    assert_eq!(artifact_string(&s, a), "0");
}

#[test]
fn ordering_outer_before_inner() {
    // Outer node A (created first) owns inner node B; both subscribe to
    // signal 0.  A is processed to completion first; the stale reference
    // to the old B is skipped, never touched.
    let mut s = State::new(vec![3]);
    let t = Template::Pair(
        Box::new(text(read(0))),
        Box::new(Template::Dyn(Box::new(text(read(0))))),
    );
    let root = s.mount(t).expect("mount failed");
    let old_b = s.hook_children(root).expect("root children")[0];
    s.write_signal(0, 4);
    let o = s.update();
    assert!(o.completed);
    // Only A ran: the old B was detached by A's re-run before the
    // work-list reached it.
    assert_eq!(o.executed, vec![root]);
    assert!(s.hook_artifact(old_b).is_none());
    let new_b = s.hook_children(root).expect("root children")[0];
    let b_artifact = s.hook_artifact(new_b).expect("inner artifact");
    assert_eq!(artifact_string(&s, b_artifact), "4");
}

#[test]
fn noop_pass_is_idempotent() {
    let mut s = State::new(vec![5]);
    let root = s.mount(text(read(0))).expect("mount failed");
    let a = s.hook_artifact(root).expect("root artifact");
    let children_before = s.hook_children(root).expect("root children");
    let artifacts_before = s.artifact_count();

    let o = s.update();
    assert!(o.completed);
    assert!(o.executed.is_empty());
    assert_eq!(s.hook_children(root).expect("root children"), children_before);
    assert_eq!(s.artifact_count(), artifacts_before);
    assert_eq!(artifact_string(&s, a), "5");

    let o2 = s.update();
    assert!(o2.executed.is_empty());
}

#[test]
fn counter_scenario() {
    // A counter signal starts at 0; an event handler increments it; the
    // pass re-runs exactly the one attribute computation bound to
    // "current value as text".
    let mut s = State::new(vec![0]);
    let root = s.mount(Template::DynText(read(0))).expect("mount failed");
    let attr = s.hook_children(root).expect("root children")[0];
    let a = s.hook_artifact(attr).expect("attr artifact");
    assert_eq!(artifact_string(&s, a), "0");

    // First increment: handler acquires access (clearing flags), mutates,
    // releases (running the scheduler).
    s.clear();
    let v = s.read_signal(0);
    s.write_signal(0, v + 1);
    let o = s.update();
    assert!(o.completed);
    assert_eq!(o.executed, vec![attr]);
    assert_eq!(artifact_string(&s, a), "1");

    // Second increment.
    s.clear();
    let v = s.read_signal(0);
    s.write_signal(0, v + 1);
    let o = s.update();
    assert_eq!(o.executed, vec![attr]);
    assert_eq!(artifact_string(&s, a), "2");
}

#[test]
fn empty_model_updates_cleanly() {
    let mut s = State::new(Vec::new());
    let o = s.update();
    assert!(o.completed);
    assert!(o.executed.is_empty());
}

#[test]
fn emit_without_parent_is_noop() {
    let mut s = State::new(vec![0]);
    s.emit(7);
    assert!(s.take_outbox().is_empty());
}

#[test]
fn emit_with_parent_queues() {
    let mut s = State::new(vec![0]);
    s.register_parent();
    s.emit(7);
    s.emit(8);
    assert_eq!(s.take_outbox(), vec![7, 8]);
    assert!(s.take_outbox().is_empty());
}

#[test]
fn guard_reads_through_accessor() {
    let mut s = State::new(vec![11]);
    let g = natrix::state::Guard::new_owned(|_ctx: &State| 40u64 + 2);
    assert_eq!(s.get_owned(&g), 42);
    let _ = s.update();
}

#[test]
fn keep_alive_resources_are_replaced_on_rerun() {
    // Each run of a node allocates fresh keep-alive entries; the previous
    // run's entries are released with the list that held them.
    let mut s = State::new(vec![5]);
    let t = Template::Pair(Box::new(text(read(0))), Box::new(Template::Listener));
    let root = s.mount(t).expect("mount failed");
    let first = s.hook_resources(root).expect("resources");
    assert_eq!(first, vec![0]);

    s.write_signal(0, 6);
    let o = s.update();
    assert_eq!(o.executed, vec![root]);
    let second = s.hook_resources(root).expect("resources");
    assert_eq!(second, vec![1], "a re-run must hold fresh resources");
}

#[test]
fn keep_alive_dropped_with_torn_down_child() {
    // The inner node owns a listener; flipping the branch tears the node
    // down and its keep-alive list with it.
    let mut s = State::new(vec![5]);
    let inner = Template::Pair(Box::new(text(read(0))), Box::new(Template::Listener));
    let t = Template::Watch(
        gt(read(0), lit(2)),
        Box::new(Template::Dyn(Box::new(inner))),
        Box::new(text(lit(0))),
    );
    let root = s.mount(t).expect("mount failed");
    let child = s.hook_children(root).expect("children")[1];
    assert_eq!(s.hook_resources(child).expect("resources"), vec![0]);

    s.write_signal(0, 1);
    let o = s.update();
    assert!(o.completed);
    assert!(s.hook_resources(child).is_none(), "owner gone, resources released");
}
