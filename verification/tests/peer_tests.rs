use groceries_bmesh_core::clock::{Actor, Clock};
use groceries_bmesh_core::message::{CoreMessage, MAX_MESSAGE_SIZE};
use groceries_bmesh_core::op::GroceryOp;
use groceries_bmesh_core::peer::{Fallback, PeerState, Reply};
use std::collections::BTreeSet;

fn actor(b: u8) -> Actor {
    [b; 32]
}

fn clock(entries: &[(u8, u64)]) -> Clock {
    let mut c = crdts::VClock::new();
    for (a, n) in entries {
        crdts::CmRDT::apply(&mut c, crdts::Dot::new(actor(*a), *n));
    }
    c
}

fn values(p: &PeerState, key: &str) -> Option<Vec<bool>> {
    p.get(key).map(|g| g.read().val)
}

fn map_clock(p: &PeerState) -> Clock {
    p.map.inner.read_ctx().add_clock
}

fn op_of(msg: CoreMessage) -> GroceryOp {
    match msg {
        CoreMessage::Op(op) => op,
        _ => panic!("expected an operation"),
    }
}

#[test]
fn new_peer_is_empty() {
    let p = PeerState::new(actor(1));
    assert!(p.to_hashmap().is_empty());
    assert_eq!(values(&p, "milk"), None);
    assert!(p.rm_clock.is_empty());
}

#[test]
fn update_writes_at_the_next_dot_and_reads_back() {
    let mut p = PeerState::new(actor(1));
    let op = op_of(p.update("milk".to_string(), true));
    match &op {
        GroceryOp::Up { actor: a, counter, key, clock: c, val } => {
            assert_eq!(*a, actor(1));
            assert_eq!(*counter, 1);
            assert_eq!(key, "milk");
            assert_eq!(c.get(&actor(1)), 1);
            assert!(*val);
        }
        _ => panic!("expected a write"),
    }
    assert_eq!(values(&p, "milk"), Some(vec![true]));
    assert_eq!(map_clock(&p).get(&actor(1)), 1);
    let op2 = op_of(p.update("milk".to_string(), false));
    match op2 {
        GroceryOp::Up { counter, .. } => assert_eq!(counter, 2),
        _ => panic!("expected a write"),
    }
    assert_eq!(values(&p, "milk"), Some(vec![false]));
    assert_eq!(map_clock(&p).get(&actor(1)), 2);
}

#[test]
fn to_hashmap_gives_true_when_a_value_is_true() {
    let mut p = PeerState::new(actor(1));
    p.update("milk".to_string(), true);
    p.update("eggs".to_string(), false);
    let mut items = p.to_hashmap();
    items.sort();
    assert_eq!(
        items,
        vec![("eggs".to_string(), "false".to_string()), ("milk".to_string(), "true".to_string())]
    );
}

#[test]
fn remove_takes_the_item_out_and_advances_the_removal_clock() {
    let mut p = PeerState::new(actor(7));
    p.update("milk".to_string(), true);
    p.update("tea".to_string(), true);
    let op = op_of(p.remove("milk".to_string()));
    match &op {
        GroceryOp::Rm { clock: c, keyset } => {
            assert_eq!(c.get(&actor(7)), 3);
            assert_eq!(keyset.iter().cloned().collect::<Vec<_>>(), vec!["milk".to_string()]);
        }
        _ => panic!("expected a removal"),
    }
    assert_eq!(values(&p, "milk"), None);
    assert_eq!(values(&p, "tea"), Some(vec![true]));
    assert_eq!(p.rm_clock.get(&actor(7)), 3);
    assert_eq!(map_clock(&p).get(&actor(7)), 2);
}

#[test]
fn clear_resets_the_peer() {
    let mut p = PeerState::new(actor(1));
    p.update("milk".to_string(), true);
    p.remove("milk".to_string());
    p.clear();
    assert!(p.to_hashmap().is_empty());
    assert!(p.rm_clock.is_empty());
    assert!(map_clock(&p).is_empty());
    assert!(p.log.ops().is_empty());
}

#[test]
fn heartbeat_carries_both_clocks() {
    let mut p = PeerState::new(actor(1));
    p.update("milk".to_string(), true);
    p.remove("milk".to_string());
    match p.send_heartbeat() {
        CoreMessage::Heartbeat { add_clock, rm_clock } => {
            assert_eq!(add_clock.get(&actor(1)), 1);
            assert_eq!(rm_clock.get(&actor(1)), 2);
        }
        _ => panic!("expected a heartbeat"),
    }
}

#[test]
fn operation_from_another_peer_is_applied_and_logged() {
    let mut a = PeerState::new(actor(1));
    let mut b = PeerState::new(actor(2));
    let msg = a.update("milk".to_string(), true);
    assert!(matches!(b.handle_message(msg), Reply::Nothing));
    assert_eq!(values(&b, "milk"), Some(vec![true]));
    assert_eq!(b.log.ops().len(), 1);
    let rm = a.remove("milk".to_string());
    assert!(matches!(b.handle_message(rm), Reply::Nothing));
    assert_eq!(values(&b, "milk"), None);
    assert_eq!(b.rm_clock.get(&actor(1)), 2);
}

#[test]
fn heartbeat_from_a_peer_that_lacks_operations_gets_them() {
    let mut a = PeerState::new(actor(1));
    a.update("milk".to_string(), true);
    a.update("eggs".to_string(), false);
    let b = PeerState::new(actor(2));
    let reply = a.handle_message(b.send_heartbeat());
    match reply {
        Reply::Broadcast { msg: CoreMessage::AntiEntropyResponse { ops }, if_too_big: Fallback::SendSnapshot } => {
            assert_eq!(ops.len(), 2);
            let mut b = b;
            let r = b.handle_message(CoreMessage::AntiEntropyResponse { ops });
            assert!(matches!(r, Reply::Nothing));
            assert_eq!(values(&b, "milk"), Some(vec![true]));
            assert_eq!(values(&b, "eggs"), Some(vec![false]));
        }
        _ => panic!("expected an anti-entropy response"),
    }
}

#[test]
fn own_heartbeat_is_answered_with_nothing() {
    let mut a = PeerState::new(actor(1));
    a.update("milk".to_string(), true);
    a.remove("milk".to_string());
    let hb = a.send_heartbeat();
    assert!(matches!(a.handle_message(hb), Reply::Nothing));
}

#[test]
fn heartbeat_from_a_peer_behind_with_an_empty_log_gets_a_snapshot() {
    let mut a = PeerState::new(actor(1));
    a.update("milk".to_string(), true);
    let snap = a.snapshot();
    let mut c = PeerState::new(actor(3));
    assert!(matches!(c.handle_message(snap), Reply::Nothing));
    assert!(c.log.ops().is_empty());
    assert_eq!(values(&c, "milk"), Some(vec![true]));
    let b = PeerState::new(actor(2));
    match c.handle_message(b.send_heartbeat()) {
        Reply::Broadcast { msg: CoreMessage::SnapshotResponse { state, rm_clock }, if_too_big: Fallback::StoreAsBlob } => {
            assert_eq!(state.inner.read_ctx().add_clock.get(&actor(1)), 1);
            assert!(rm_clock.is_empty());
        }
        _ => panic!("expected a snapshot"),
    }
}

#[test]
fn heartbeat_from_a_peer_ahead_gets_nothing() {
    let a = PeerState::new(actor(1));
    let hb = CoreMessage::Heartbeat { add_clock: clock(&[(2, 5)]), rm_clock: clock(&[(2, 1)]) };
    let mut a = a;
    assert!(matches!(a.handle_message(hb), Reply::Nothing));
}

#[test]
fn snapshot_merges_state_and_clears_the_log() {
    let mut a = PeerState::new(actor(1));
    a.update("milk".to_string(), true);
    a.remove("milk".to_string());
    let mut b = PeerState::new(actor(2));
    b.update("tea".to_string(), true);
    assert_eq!(b.log.ops().len(), 1);
    assert!(matches!(b.handle_message(a.snapshot()), Reply::Nothing));
    assert!(b.log.ops().is_empty());
    assert_eq!(values(&b, "tea"), Some(vec![true]));
    assert_eq!(values(&b, "milk"), None);
    assert_eq!(b.rm_clock.get(&actor(1)), 2);
    assert_eq!(map_clock(&b).get(&actor(1)), 1);
    assert_eq!(map_clock(&b).get(&actor(2)), 1);
}

#[test]
fn blob_is_answered_with_its_ticket() {
    let mut a = PeerState::new(actor(1));
    match a.handle_message(CoreMessage::Blob { ticket: "blobabc".to_string() }) {
        Reply::FetchBlob { ticket } => assert_eq!(ticket, "blobabc"),
        _ => panic!("expected a fetch"),
    }
}

#[test]
fn saved_data_loads_back() {
    let mut a = PeerState::new(actor(1));
    a.update("milk".to_string(), true);
    a.update("tea".to_string(), false);
    a.remove("tea".to_string());
    let data = a.save_data();
    let mut b = PeerState::new(actor(9));
    b.load_data(data);
    assert_eq!(b.actor, actor(9));
    let mut x = a.to_hashmap();
    let mut y = b.to_hashmap();
    x.sort();
    y.sort();
    assert_eq!(x, y);
    assert_eq!(b.log.ops().len(), a.log.ops().len());
    assert_eq!(b.rm_clock.get(&actor(1)), 3);
}

#[test]
fn concurrent_writes_both_stay_in_the_register() {
    let mut a = PeerState::new(actor(1));
    let mut b = PeerState::new(actor(2));
    let wa = a.update("milk".to_string(), true);
    let wb = b.update("milk".to_string(), false);
    b.handle_message(wa);
    a.handle_message(wb);
    let mut va = values(&a, "milk").unwrap();
    let mut vb = values(&b, "milk").unwrap();
    va.sort();
    vb.sort();
    assert_eq!(va, vec![false, true]);
    assert_eq!(vb, vec![false, true]);
    assert_eq!(a.to_hashmap(), vec![("milk".to_string(), "true".to_string())]);
}

#[test]
fn removal_key_set_is_the_removed_item_alone() {
    let mut p = PeerState::new(actor(1));
    p.update("milk".to_string(), true);
    match op_of(p.remove("milk".to_string())) {
        GroceryOp::Rm { keyset, .. } => {
            let expected: BTreeSet<String> = ["milk".to_string()].into_iter().collect();
            assert_eq!(keyset, expected);
        }
        _ => panic!("expected a removal"),
    }
    assert!(MAX_MESSAGE_SIZE == 200);
}

#[test]
fn duplicate_write_changes_nothing() {
    let mut a = PeerState::new(actor(1));
    let mut b = PeerState::new(actor(2));
    let msg = a.update("milk".to_string(), true);
    let again = CoreMessage::Op(match &msg {
        CoreMessage::Op(op) => op.copy(),
        _ => panic!("expected an operation"),
    });
    b.handle_message(msg);
    let once = b.to_hashmap();
    let clock_once = map_clock(&b).get(&actor(1));
    b.handle_message(again);
    assert_eq!(b.to_hashmap(), once);
    assert_eq!(map_clock(&b).get(&actor(1)), clock_once);
    assert_eq!(b.log.ops().len(), 1);
    assert_eq!(values(&b, "milk"), Some(vec![true]));
}

#[test]
fn local_write_is_offered_to_peers_behind_and_not_to_peers_ahead() {
    let mut a = PeerState::new(actor(1));
    a.update("milk".to_string(), true);
    a.update("tea".to_string(), true);
    let behind = CoreMessage::Heartbeat { add_clock: clock(&[(1, 1)]), rm_clock: clock(&[]) };
    match a.handle_message(behind) {
        Reply::Broadcast { msg: CoreMessage::AntiEntropyResponse { ops }, .. } => {
            assert_eq!(ops.len(), 1);
            match &ops[0] {
                GroceryOp::Up { counter, key, .. } => {
                    assert_eq!(*counter, 2);
                    assert_eq!(key, "tea");
                }
                _ => panic!("expected a write"),
            }
        }
        _ => panic!("expected an anti-entropy response"),
    }
    let ahead = CoreMessage::Heartbeat { add_clock: clock(&[(1, 2)]), rm_clock: clock(&[]) };
    assert!(matches!(a.handle_message(ahead), Reply::Nothing));
}

#[test]
fn removal_is_offered_until_the_peer_removal_clock_covers_it() {
    let mut a = PeerState::new(actor(1));
    a.update("milk".to_string(), true);
    a.remove("milk".to_string());
    let not_covered = CoreMessage::Heartbeat { add_clock: clock(&[(1, 1)]), rm_clock: clock(&[(1, 1)]) };
    match a.handle_message(not_covered) {
        Reply::Broadcast { msg: CoreMessage::AntiEntropyResponse { ops }, if_too_big: Fallback::SendSnapshot } => {
            assert_eq!(ops.len(), 1);
            assert!(ops[0].is_rm());
        }
        _ => panic!("expected an anti-entropy response"),
    }
    let covered = CoreMessage::Heartbeat { add_clock: clock(&[(1, 1)]), rm_clock: clock(&[(1, 2)]) };
    assert!(matches!(a.handle_message(covered), Reply::Nothing));
}

#[test]
fn cleared_peer_offers_nothing_but_snapshots_to_a_peer_behind() {
    let mut a = PeerState::new(actor(1));
    a.update("milk".to_string(), true);
    a.clear();
    let b = PeerState::new(actor(2));
    assert!(matches!(a.handle_message(b.send_heartbeat()), Reply::Nothing));
    assert!(a.log.missing_ops(&clock(&[]), &clock(&[])).is_empty());
}

#[test]
fn anti_entropy_response_settles_the_next_heartbeat() {
    let mut a = PeerState::new(actor(1));
    a.update("milk".to_string(), true);
    a.update("eggs".to_string(), false);
    a.remove("milk".to_string());
    let mut b = PeerState::new(actor(2));
    let ops = match a.handle_message(b.send_heartbeat()) {
        Reply::Broadcast { msg: CoreMessage::AntiEntropyResponse { ops }, if_too_big: Fallback::SendSnapshot } => ops,
        _ => panic!("expected an anti-entropy response"),
    };
    assert_eq!(ops.len(), 3);
    assert!(matches!(b.handle_message(CoreMessage::AntiEntropyResponse { ops }), Reply::Nothing));
    assert_eq!(map_clock(&b).get(&actor(1)), 2);
    assert_eq!(b.rm_clock.get(&actor(1)), 3);
    assert_eq!(values(&b, "milk"), None);
    assert_eq!(values(&b, "eggs"), Some(vec![false]));
    assert!(matches!(a.handle_message(b.send_heartbeat()), Reply::Nothing));
}

#[test]
fn merged_snapshot_settles_the_next_heartbeat() {
    let mut a = PeerState::new(actor(1));
    a.update("milk".to_string(), true);
    a.remove("milk".to_string());
    a.update("eggs".to_string(), true);
    let mut b = PeerState::new(actor(2));
    b.update("tea".to_string(), false);
    assert!(matches!(b.handle_message(a.snapshot()), Reply::Nothing));
    assert_eq!(map_clock(&b).get(&actor(1)), 2);
    assert_eq!(map_clock(&b).get(&actor(2)), 1);
    assert_eq!(b.rm_clock.get(&actor(1)), 2);
    assert!(matches!(a.handle_message(b.send_heartbeat()), Reply::Nothing));
}

#[test]
fn heartbeat_from_a_peer_that_has_seen_everything_gets_nothing() {
    let mut a = PeerState::new(actor(1));
    a.update("milk".to_string(), true);
    a.remove("milk".to_string());
    let hb = CoreMessage::Heartbeat { add_clock: clock(&[(1, 1), (2, 5)]), rm_clock: clock(&[(1, 2)]) };
    assert!(matches!(a.handle_message(hb), Reply::Nothing));
    let hb = CoreMessage::Heartbeat { add_clock: clock(&[(1, 1)]), rm_clock: clock(&[(1, 1)]) };
    match a.handle_message(hb) {
        Reply::Broadcast { msg: CoreMessage::AntiEntropyResponse { ops }, .. } => {
            assert_eq!(ops.len(), 1);
            assert!(ops[0].is_rm());
        }
        _ => panic!("expected the removal"),
    }
}

#[test]
fn removal_after_writes_from_other_peers_takes_the_item_out() {
    let mut a = PeerState::new(actor(1));
    let mut b = PeerState::new(actor(2));
    let wa = a.update("milk".to_string(), true);
    let wb = b.update("milk".to_string(), false);
    assert!(matches!(b.handle_message(wa), Reply::Nothing));
    assert_eq!(values(&b, "milk").map(|v| v.len()), Some(2));
    let rm = b.remove("milk".to_string());
    assert_eq!(values(&b, "milk"), None);
    assert!(matches!(a.handle_message(wb), Reply::Nothing));
    assert!(matches!(a.handle_message(rm), Reply::Nothing));
    assert_eq!(values(&a, "milk"), None);
}

#[test]
fn removal_after_a_merged_snapshot_takes_the_item_out() {
    let mut a = PeerState::new(actor(1));
    a.update("milk".to_string(), true);
    let mut c = PeerState::new(actor(3));
    c.update("tea".to_string(), true);
    c.handle_message(a.snapshot());
    assert_eq!(values(&c, "milk"), Some(vec![true]));
    c.remove("milk".to_string());
    assert_eq!(values(&c, "milk"), None);
    assert_eq!(values(&c, "tea"), Some(vec![true]));
}

#[test]
fn own_counter_counts_own_writes_and_removals() {
    let mut p = PeerState::new(actor(1));
    assert_eq!(p.own_counter(), 0);
    p.update("milk".to_string(), true);
    p.update("eggs".to_string(), true);
    assert_eq!(p.own_counter(), 2);
    p.remove("milk".to_string());
    assert_eq!(p.own_counter(), 2);
}

#[test]
fn a_write_leaves_other_items_and_replaces_the_value() {
    let mut p = PeerState::new(actor(1));
    p.update("milk".to_string(), true);
    p.update("eggs".to_string(), false);
    p.update("milk".to_string(), false);
    assert_eq!(values(&p, "milk"), Some(vec![false]));
    assert_eq!(values(&p, "eggs"), Some(vec![false]));
}

#[test]
fn the_same_removal_twice_changes_the_items_once() {
    let mut a = PeerState::new(actor(1));
    let w1 = a.update("milk".to_string(), true);
    let w2 = a.update("tea".to_string(), true);
    let rm = a.remove("milk".to_string());
    let mut b = PeerState::new(actor(2));
    b.handle_message(w1);
    b.handle_message(w2);
    let rm2 = match &rm {
        CoreMessage::Op(op) => CoreMessage::Op(op.copy()),
        _ => panic!("expected an operation"),
    };
    b.handle_message(rm);
    let once = b.to_hashmap();
    b.handle_message(rm2);
    assert_eq!(b.to_hashmap(), once);
    assert_eq!(values(&b, "milk"), None);
    assert_eq!(values(&b, "tea"), Some(vec![true]));
}

#[test]
fn anti_entropy_gives_what_the_operations_one_by_one_give() {
    let mut a = PeerState::new(actor(1));
    let mut msgs = Vec::new();
    msgs.push(a.update("milk".to_string(), true));
    msgs.push(a.update("eggs".to_string(), false));
    msgs.push(a.remove("milk".to_string()));
    let mut one_by_one = PeerState::new(actor(2));
    for m in msgs {
        one_by_one.handle_message(m);
    }
    let mut at_once = PeerState::new(actor(2));
    let ops = match a.handle_message(at_once.send_heartbeat()) {
        Reply::Broadcast { msg: CoreMessage::AntiEntropyResponse { ops }, .. } => ops,
        _ => panic!("expected an anti-entropy response"),
    };
    at_once.handle_message(CoreMessage::AntiEntropyResponse { ops });
    assert_eq!(at_once.to_hashmap(), one_by_one.to_hashmap());
    assert_eq!(map_clock(&at_once), map_clock(&one_by_one));
    assert_eq!(at_once.rm_clock, one_by_one.rm_clock);
}

#[test]
fn a_write_whose_clock_holds_unseen_dots_stays_beside_a_local_write() {
    let mut c = PeerState::new(actor(3));
    let mut a = PeerState::new(actor(1));
    let mut b = PeerState::new(actor(2));
    a.handle_message(c.update("tea".to_string(), true));
    let wa = a.update("milk".to_string(), true);
    b.handle_message(wa);
    b.update("milk".to_string(), false);
    assert_eq!(values(&b, "milk").map(|v| v.len()), Some(2));
}

#[test]
fn a_fresh_or_cleared_peer_answers_like_a_new_map() {
    let mut p = PeerState::new(actor(1));
    p.update("milk".to_string(), true);
    p.clear();
    assert!(p.to_hashmap().is_empty());
    assert_eq!(p.own_counter(), 0);
    assert!(p.rm_clock.is_empty());
}
