use dice::engine::{Engine, EngineError, AsyncEvaluator};
use dice::keys::{Expr, Transform};

fn add(a: Expr, b: Expr) -> Expr {
    Expr::Add(Box::new(a), Box::new(b))
}

fn rem(a: Expr, m: u64) -> Expr {
    Expr::Rem(Box::new(a), m)
}

#[test]
fn sum_scenario() {
    let mut eng = Engine::new();
    let a = eng.register_leaf(1);
    let b = eng.register_leaf(2);
    let sum = eng.register_computation(add(Expr::Req(a), Expr::Req(b)));

    assert_eq!(eng.current_version(), 1);
    let t1 = eng.start_transaction();
    assert_eq!(eng.compute(t1, sum), Ok(3));
    assert_eq!(eng.invocation_count(sum), 1);
    eng.release(t1);

    // same value written: version advances, but cutoff prevents a re-run
    let v2 = eng.set_changed(a, 1);
    assert_eq!(v2, 2);
    let t2 = eng.start_transaction();
    assert_eq!(eng.compute(t2, sum), Ok(3));
    assert_eq!(eng.invocation_count(sum), 1);
    eng.release(t2);

    // a real change: the sum is recomputed exactly once
    let v3 = eng.set_changed(a, 5);
    assert_eq!(v3, 3);
    let t3 = eng.start_transaction();
    assert_eq!(eng.compute(t3, sum), Ok(7));
    assert_eq!(eng.invocation_count(sum), 2);
    eng.release(t3);
}

#[test]
fn dedup_same_version() {
    let mut eng = Engine::new();
    let a = eng.register_leaf(4);
    let k = eng.register_computation(add(Expr::Req(a), Expr::Lit(10)));
    let t = eng.start_transaction();
    let r1 = eng.compute(t, k);
    let r2 = eng.compute(t, k);
    let r3 = eng.compute(t, k);
    assert_eq!(r1, Ok(14));
    assert_eq!(r2, Ok(14));
    assert_eq!(r3, Ok(14));
    assert_eq!(eng.invocation_count(k), 1);
    assert_eq!(eng.invocation_count(a), 1);
    eng.release(t);
}

#[test]
fn cutoff_chain() {
    let mut eng = Engine::new();
    let a = eng.register_leaf(3);
    let b = eng.register_computation(add(Expr::Req(a), Expr::Lit(0)));
    let c = eng.register_computation(add(Expr::Req(b), Expr::Lit(0)));
    let t1 = eng.start_transaction();
    assert_eq!(eng.compute(t1, c), Ok(3));
    assert_eq!(eng.invocation_count(b), 1);
    assert_eq!(eng.invocation_count(c), 1);
    eng.release(t1);

    // the leaf is re-validated, its value is unchanged: zero re-runs of b, c
    eng.set_changed(a, 3);
    let t2 = eng.start_transaction();
    assert_eq!(eng.compute(t2, c), Ok(3));
    assert_eq!(eng.invocation_count(b), 1);
    assert_eq!(eng.invocation_count(c), 1);
    eng.release(t2);
}

#[test]
fn propagation_stops_one_hop_above_change() {
    let mut eng = Engine::new();
    let a = eng.register_leaf(1);
    let b = eng.register_computation(rem(Expr::Req(a), 4));
    let c = eng.register_computation(add(Expr::Req(b), Expr::Lit(10)));
    let t1 = eng.start_transaction();
    assert_eq!(eng.compute(t1, c), Ok(11));
    assert_eq!(eng.invocation_count(b), 1);
    assert_eq!(eng.invocation_count(c), 1);
    eng.release(t1);

    // a changes, so b is recomputed; b's new value is equal, so c is not
    eng.set_changed(a, 5);
    let t2 = eng.start_transaction();
    assert_eq!(eng.compute(t2, c), Ok(11));
    assert_eq!(eng.invocation_count(b), 2);
    assert_eq!(eng.invocation_count(c), 1);
    eng.release(t2);
}

#[test]
fn direct_cycle_fails() {
    let mut eng = Engine::new();
    let k = eng.key_count();
    let k2 = eng.register_computation(Expr::Req(k));
    assert_eq!(k, k2);
    let t = eng.start_transaction();
    assert_eq!(eng.compute(t, k), Err(EngineError::Cycle));
    eng.release(t);
}

#[test]
fn mutual_cycle_fails() {
    let mut eng = Engine::new();
    let a = eng.register_computation(Expr::Req(1));
    let b = eng.register_computation(Expr::Req(0));
    assert_eq!(a, 0);
    assert_eq!(b, 1);
    let t = eng.start_transaction();
    assert_eq!(eng.compute(t, a), Err(EngineError::Cycle));
    assert_eq!(eng.compute(t, b), Err(EngineError::Cycle));
    eng.release(t);
}

#[test]
fn released_guard_is_rejected() {
    let mut eng = Engine::new();
    let a = eng.register_leaf(1);
    let t = eng.start_transaction();
    eng.release(t);
    assert_eq!(eng.compute(t, a), Err(EngineError::GuardExpired));
}

#[test]
fn failures_are_not_memoized() {
    let mut eng = Engine::new();
    let f = eng.register_computation(Expr::Fail);
    let t = eng.start_transaction();
    assert_eq!(eng.compute(t, f), Err(EngineError::Computation));
    assert_eq!(eng.invocation_count(f), 1);
    // a second request at the same version retries from scratch
    assert_eq!(eng.compute(t, f), Err(EngineError::Computation));
    assert_eq!(eng.invocation_count(f), 2);
    assert_eq!(eng.entry_count(f), 0);
    eng.release(t);
}

#[test]
fn zero_modulus_fails() {
    let mut eng = Engine::new();
    let k = eng.register_computation(rem(Expr::Lit(1), 0));
    let t = eng.start_transaction();
    assert_eq!(eng.compute(t, k), Err(EngineError::Computation));
    eng.release(t);
}

#[test]
fn unregistered_request_fails() {
    let mut eng = Engine::new();
    let k = eng.register_computation(Expr::Req(99));
    let t = eng.start_transaction();
    assert_eq!(eng.compute(t, k), Err(EngineError::Computation));
    eng.release(t);
}

#[test]
fn failure_does_not_poison_other_keys() {
    let mut eng = Engine::new();
    let f = eng.register_computation(Expr::Fail);
    let a = eng.register_leaf(6);
    let ok = eng.register_computation(add(Expr::Req(a), Expr::Lit(1)));
    let t = eng.start_transaction();
    assert_eq!(eng.compute(t, f), Err(EngineError::Computation));
    assert_eq!(eng.compute(t, ok), Ok(7));
    assert_eq!(eng.compute(t, ok), Ok(7));
    eng.release(t);
}

#[test]
fn projection_depends_exactly_on_its_base() {
    let mut eng = Engine::new();
    let base = eng.register_leaf(10);
    let p = eng.register_projection(base, Transform::Offset(5));
    let t = eng.start_transaction();
    assert_eq!(eng.compute(t, p), Ok(15));
    let deps = eng.recorded_deps(p).unwrap();
    assert_eq!(deps, vec![base]);
    eng.release(t);
}

#[test]
fn projection_identity() {
    let mut eng = Engine::new();
    let base = eng.register_leaf(42);
    let p = eng.register_projection(base, Transform::Identity);
    let t = eng.start_transaction();
    assert_eq!(eng.compute(t, p), Ok(42));
    eng.release(t);
}

#[test]
fn projection_not_rerun_when_base_unchanged() {
    let mut eng = Engine::new();
    let base = eng.register_leaf(8);
    let p = eng.register_projection(base, Transform::Offset(1));
    let t1 = eng.start_transaction();
    assert_eq!(eng.compute(t1, p), Ok(9));
    assert_eq!(eng.invocation_count(p), 1);
    eng.release(t1);

    eng.set_changed(base, 8);
    let t2 = eng.start_transaction();
    assert_eq!(eng.compute(t2, p), Ok(9));
    assert_eq!(eng.invocation_count(p), 1);
    eng.release(t2);

    eng.set_changed(base, 10);
    let t3 = eng.start_transaction();
    assert_eq!(eng.compute(t3, p), Ok(11));
    assert_eq!(eng.invocation_count(p), 2);
    eng.release(t3);
}

#[test]
fn projection_over_failing_base_fails() {
    let mut eng = Engine::new();
    let f = eng.register_computation(Expr::Fail);
    let p = eng.register_projection(f, Transform::Identity);
    let t = eng.start_transaction();
    assert_eq!(eng.compute(t, p), Err(EngineError::Computation));
    assert_eq!(eng.entry_count(p), 0);
    eng.release(t);
}

#[test]
fn cycle_through_projection_fails() {
    let mut eng = Engine::new();
    // key 0 requests key 1, which projects back onto key 0
    let k = eng.register_computation(Expr::Req(1));
    let _p = eng.register_projection(0, Transform::Identity);
    let t = eng.start_transaction();
    assert_eq!(eng.compute(t, k), Err(EngineError::Cycle));
    eng.release(t);
}

#[test]
fn pinned_version_reads_old_input() {
    let mut eng = Engine::new();
    let a = eng.register_leaf(1);
    let t1 = eng.start_transaction();
    eng.set_changed(a, 5);
    let t2 = eng.start_transaction();
    assert_eq!(eng.compute(t2, a), Ok(5));
    // the older transaction still observes its pinned version
    assert_eq!(eng.compute(t1, a), Ok(1));
    eng.release(t1);
    eng.release(t2);
}

#[test]
fn addition_wraps() {
    let mut eng = Engine::new();
    let a = eng.register_leaf(u64::MAX);
    let b = eng.register_leaf(1);
    let s = eng.register_computation(add(Expr::Req(a), Expr::Req(b)));
    let t = eng.start_transaction();
    assert_eq!(eng.compute(t, s), Ok(0));
    eng.release(t);
}

#[test]
fn collect_drops_unpinned_entries() {
    let mut eng = Engine::new();
    let a = eng.register_leaf(1);
    let s = eng.register_computation(add(Expr::Req(a), Expr::Lit(1)));
    let t1 = eng.start_transaction();
    assert_eq!(eng.compute(t1, s), Ok(2));
    eng.set_changed(a, 7);
    let t2 = eng.start_transaction();
    assert_eq!(eng.compute(t2, s), Ok(8));
    assert_eq!(eng.entry_count(s), 2);

    // the old entry is still pinned by the first guard
    eng.release(t2);
    eng.collect();
    assert_eq!(eng.entry_count(s), 2);

    // once nothing pins version one, its private entry is collectible
    eng.release(t1);
    eng.collect();
    assert_eq!(eng.entry_count(s), 1);
    assert_eq!(eng.cached_value(s, 2), Some(8));
    assert_eq!(eng.cached_value(s, 1), None);
}

#[test]
fn collect_keeps_entries_shared_with_newer_versions() {
    let mut eng = Engine::new();
    let a = eng.register_leaf(1);
    let s = eng.register_computation(add(Expr::Req(a), Expr::Lit(1)));
    let t1 = eng.start_transaction();
    assert_eq!(eng.compute(t1, s), Ok(2));
    eng.release(t1);

    // an unchanged write: the entry is re-validated and shared with the
    // newer version rather than duplicated
    eng.set_changed(a, 1);
    let t2 = eng.start_transaction();
    assert_eq!(eng.compute(t2, s), Ok(2));
    assert_eq!(eng.entry_count(s), 1);
    eng.release(t2);

    eng.collect();
    assert_eq!(eng.entry_count(s), 1);
    assert_eq!(eng.cached_value(s, 2), Some(2));
}

#[test]
fn recompute_after_collection() {
    let mut eng = Engine::new();
    let a = eng.register_leaf(1);
    let s = eng.register_computation(add(Expr::Req(a), Expr::Lit(1)));
    let t1 = eng.start_transaction();
    assert_eq!(eng.compute(t1, s), Ok(2));
    eng.release(t1);
    eng.set_changed(a, 9);

    // no guard pins the old version and the new one has no entry yet
    eng.collect();
    assert_eq!(eng.entry_count(s), 0);
    let t2 = eng.start_transaction();
    assert_eq!(eng.compute(t2, s), Ok(10));
    assert_eq!(eng.invocation_count(s), 2);
    eng.release(t2);
}

#[test]
fn diamond_runs_shared_dependency_once() {
    let mut eng = Engine::new();
    let leaf = eng.register_leaf(5);
    let l = eng.register_computation(add(Expr::Req(leaf), Expr::Lit(1)));
    let r = eng.register_computation(add(Expr::Req(leaf), Expr::Lit(2)));
    let top = eng.register_computation(add(Expr::Req(l), Expr::Req(r)));
    let t = eng.start_transaction();
    assert_eq!(eng.compute(t, top), Ok(13));
    assert_eq!(eng.invocation_count(leaf), 1);
    assert_eq!(eng.invocation_count(l), 1);
    assert_eq!(eng.invocation_count(r), 1);
    let deps = eng.recorded_deps(top).unwrap();
    assert_eq!(deps, vec![l, r]);
    eng.release(t);
}

#[test]
fn evaluator_pins_version_and_guard() {
    let ev = AsyncEvaluator::new(3, 7);
    assert_eq!(ev.version, 3);
    assert_eq!(ev.guard, 7);
}

#[test]
fn versions_are_strictly_monotonic() {
    let mut eng = Engine::new();
    let a = eng.register_leaf(0);
    assert_eq!(eng.current_version(), 1);
    assert_eq!(eng.set_changed(a, 1), 2);
    assert_eq!(eng.set_changed(a, 2), 3);
    assert_eq!(eng.set_changed(a, 2), 4);
    assert_eq!(eng.current_version(), 4);
}
