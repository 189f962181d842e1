use groceries_bmesh_core::clock::{actors_equal, Actor, Clock};
use groceries_bmesh_core::op::GroceryOp;
use groceries_bmesh_core::oplog::OpLog;
use std::collections::BTreeSet;

fn actor(b: u8) -> Actor {
    [b; 32]
}

fn clock(entries: &[(u8, u64)]) -> Clock {
    let mut c = crdts::VClock::new();
    for (a, n) in entries {
        crdts::CmRDT::apply(&mut c, crdts::Dot::new(actor(*a), *n));
    }
    c
}

fn up(a: u8, counter: u64, key: &str, val: bool) -> GroceryOp {
    GroceryOp::Up { actor: actor(a), counter, key: key.to_string(), clock: clock(&[(a, counter)]), val }
}

fn rm(entries: &[(u8, u64)], key: &str) -> GroceryOp {
    let mut keyset = BTreeSet::new();
    keyset.insert(key.to_string());
    GroceryOp::Rm { clock: clock(entries), keyset }
}

/// (actor byte, counter) of a write, or None for a removal.
fn dot(op: &GroceryOp) -> Option<(u8, u64)> {
    match op {
        GroceryOp::Up { actor, counter, .. } => Some((actor[0], *counter)),
        GroceryOp::Rm { .. } => None,
    }
}

#[test]
fn actors_compare_bytewise() {
    let a = actor(1);
    let mut b = actor(1);
    assert!(actors_equal(&a, &b));
    b[31] = 2;
    assert!(!actors_equal(&a, &b));
}

#[test]
fn empty_log_sends_nothing() {
    let log = OpLog::new();
    assert!(log.missing_ops(&clock(&[]), &clock(&[])).is_empty());
    assert!(log.ops().is_empty());
}

#[test]
fn missing_ops_sends_writes_above_remote_counter_in_ascending_order() {
    let mut log = OpLog::new();
    log.record_op(&up(1, 3, "milk", true));
    log.record_op(&up(1, 1, "eggs", false));
    log.record_op(&up(1, 2, "bread", true));
    log.record_op(&up(2, 1, "tea", false));
    let missing = log.missing_ops(&clock(&[(1, 1)]), &clock(&[]));
    let dots: Vec<(u8, u64)> = missing.iter().filter_map(dot).collect();
    assert_eq!(dots.len(), 3);
    let from_one: Vec<u64> = dots.iter().filter(|d| d.0 == 1).map(|d| d.1).collect();
    assert_eq!(from_one, vec![2, 3]);
    assert!(dots.contains(&(2, 1)));
}

#[test]
fn remote_that_has_everything_is_sent_nothing() {
    let mut log = OpLog::new();
    log.record_op(&up(1, 1, "milk", true));
    log.record_op(&up(2, 4, "tea", true));
    log.record_op(&rm(&[(1, 1)], "milk"));
    let missing = log.missing_ops(&clock(&[(1, 1), (2, 4)]), &clock(&[(1, 1)]));
    assert!(missing.is_empty());
}

#[test]
fn removals_are_sent_until_covered_after_the_writes() {
    let mut log = OpLog::new();
    log.record_op(&rm(&[(1, 2)], "milk"));
    log.record_op(&up(1, 1, "milk", true));
    log.record_op(&rm(&[(2, 1)], "tea"));
    let missing = log.missing_ops(&clock(&[]), &clock(&[(1, 2)]));
    assert_eq!(missing.len(), 2);
    assert_eq!(dot(&missing[0]), Some((1, 1)));
    assert!(missing[1].is_rm());
    match &missing[1] {
        GroceryOp::Rm { clock: c, .. } => assert_eq!(c.get(&actor(2)), 1),
        _ => panic!("expected a removal"),
    }
}

#[test]
fn first_write_at_a_dot_is_kept() {
    let mut log = OpLog::new();
    log.record_op(&up(1, 1, "milk", true));
    log.record_op(&up(1, 1, "other", false));
    let missing = log.missing_ops(&clock(&[]), &clock(&[]));
    assert_eq!(missing.len(), 1);
    match &missing[0] {
        GroceryOp::Up { key, val, .. } => {
            assert_eq!(key, "milk");
            assert!(*val);
        }
        _ => panic!("expected a write"),
    }
}

#[test]
fn recording_a_write_twice_records_it_once() {
    let mut log = OpLog::new();
    let op = up(3, 7, "apples", true);
    log.record_op(&op);
    log.record_op(&op);
    assert_eq!(log.ops().len(), 1);
}

#[test]
fn recording_a_removal_twice_appends_it_twice() {
    let mut log = OpLog::new();
    let op = rm(&[(1, 1)], "milk");
    log.record_op(&op);
    log.record_op(&op);
    assert_eq!(log.ops().len(), 2);
}

#[test]
fn clear_forgets_everything() {
    let mut log = OpLog::new();
    log.record_op(&up(1, 1, "milk", true));
    log.record_op(&rm(&[(1, 1)], "milk"));
    log.clear();
    assert!(log.ops().is_empty());
    assert!(log.missing_ops(&clock(&[]), &clock(&[])).is_empty());
}

#[test]
fn log_restored_from_its_ops_is_the_same_log() {
    let mut log = OpLog::new();
    log.record_op(&up(2, 2, "tea", true));
    log.record_op(&rm(&[(2, 2)], "tea"));
    log.record_op(&up(1, 1, "milk", false));
    log.record_op(&up(2, 1, "coffee", false));
    let ops = log.ops();
    assert_eq!(ops.len(), 4);
    assert!(ops[3].is_rm());
    let restored = OpLog::from_ops(&ops);
    let copy = log.copy();
    for l in [&restored, &copy] {
        let again = l.ops();
        assert_eq!(again.len(), 4);
        let mut d1: Vec<(u8, u64)> = ops.iter().filter_map(dot).collect();
        let mut d2: Vec<(u8, u64)> = again.iter().filter_map(dot).collect();
        d1.sort();
        d2.sort();
        assert_eq!(d1, d2);
        assert_eq!(
            l.missing_ops(&clock(&[]), &clock(&[])).len(),
            log.missing_ops(&clock(&[]), &clock(&[])).len()
        );
    }
}

#[test]
fn remote_counter_at_maximum_is_sent_no_writes_of_that_actor() {
    let mut log = OpLog::new();
    log.record_op(&up(1, 5, "milk", true));
    let missing = log.missing_ops(&clock(&[(1, u64::MAX)]), &clock(&[]));
    assert!(missing.is_empty());
}
