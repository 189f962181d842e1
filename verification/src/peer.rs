//! The state of one peer, and its decisions: what a local edit changes and
//! sends, and how an incoming message changes the state and is answered.
use crate::clock::{
    clock_apply, clock_at, clock_clone, clock_dots, clock_get, clock_inc, clock_lt, clock_merge, clock_new,
    behind, counter_of, covers, Actor, Clock,
};
use crate::groceries::{
    applied, apply_all, apply_step, empty_view, entries_within, lemma_apply_facts, lemma_merge_facts, grocery_clock, grocery_deferred,
    grocery_entries, grocery_entry_clocks, grocery_values, grocery_view,
    item_register, item_values_within, lemma_grocery_items, lemma_own_write_supersedes,
    lemma_write_reads_back, no_pending_removal, map_apply, map_clone, map_entries,
    map_get, map_merge, map_new, map_read_clock, merge_step, register_read, register_values,
    removals_of, write_supersedes, Dots, Groceries, Grocery,
};
use crate::message::CoreMessage;
use crate::op::{GroceryOp, OpView};
use crate::oplog::{empty_log, has_missing, is_missing_ops, lemma_missing_empty, recorded, recorded_all, OpLog};
use std::collections::BTreeSet;
use vstd::prelude::*;

verus! {

/// What to do when a frame is too large to be sent as a gossip message.
pub enum Fallback {
    /// Send a snapshot of the state instead (see `PeerState::snapshot`).
    SendSnapshot,
    /// Store the frame as a blob and send a ticket to it.
    StoreAsBlob,
}

/// The answer of a peer to a message.
pub enum Reply {
    Nothing,
    /// Broadcast `msg`; if its frame is too large, do as `if_too_big` says.
    Broadcast { msg: CoreMessage, if_too_big: Fallback },
    /// Fetch the blob of the ticket, and handle the snapshot that it holds.
    FetchBlob { ticket: String },
}

/// The state of a peer: the grocery map, the log of operations, the peer's own
/// actor, and the clock of the removals that it has seen.
pub struct PeerState {
    pub map: Groceries,
    pub log: OpLog,
    pub actor: Actor,
    pub rm_clock: Clock,
}

/// What a peer saves to disk.
pub struct SaveData {
    pub map: Groceries,
    pub log: OpLog,
    pub rm_clock: Clock,
}

/// The larger of two counters.
pub open spec fn max_nat(a: nat, b: nat) -> nat {
    if a >= b {
        a
    } else {
        b
    }
}

/// The counter of `a` in a removal clock that started at `base` and merged the
/// clock of each removal of `ops`.
pub open spec fn rm_counter_after(base: nat, ops: Seq<OpView>, a: Actor) -> nat
    decreases ops.len(),
{
    if ops.len() == 0 {
        base
    } else {
        let prev = rm_counter_after(base, ops.drop_last(), a);
        match ops.last() {
            OpView::Rm { clock, .. } => max_nat(prev, counter_of(clock, a)),
            OpView::Up { .. } => prev,
        }
    }
}

/// The removal clock's counter after one operation.
pub proof fn lemma_rm_single(base: nat, op: OpView, a: Actor)
    ensures
        rm_counter_after(base, seq![op], a) == match op {
            OpView::Rm { clock, .. } => max_nat(base, counter_of(clock, a)),
            OpView::Up { .. } => base,
        },
{
    let s = seq![op];
    assert(s.drop_last() =~= Seq::<OpView>::empty());
    assert(s.last() == op);
    assert(s.len() == 1);
    assert(rm_counter_after(base, s.drop_last(), a) == base);
}

/// The clock of a grocery map that started at `m` and applied `ops`: each write
/// adds its dot unless the clock has it already.
pub open spec fn map_clock_after(m: Map<Actor, u64>, ops: Seq<OpView>) -> Map<Actor, u64>
    decreases ops.len(),
{
    if ops.len() == 0 {
        m
    } else {
        let prev = map_clock_after(m, ops.drop_last());
        match ops.last() {
            OpView::Up { actor, counter, .. } => if counter_of(prev, actor) >= counter {
                prev
            } else {
                prev.insert(actor, counter)
            },
            OpView::Rm { .. } => prev,
        }
    }
}

/// The text of a boolean.
pub open spec fn bool_text(b: bool) -> Seq<char> {
    if b {
        "true"@
    } else {
        "false"@
    }
}

/// `BTreeSet::from`: the set that holds `key` alone.
#[verifier::external_body]
fn singleton_keyset(key: String) -> (ks: BTreeSet<String>)
    ensures
        ks@ == Set::<String>::empty().insert(key),
{
    BTreeSet::from([key])
}

/// Whether one of the values is true.
fn any_true(vals: &Vec<bool>) -> (r: bool)
    ensures
        r == vals@.contains(true),
{
    let n = vals.len();
    for i in 0..n
        invariant
            n == vals@.len(),
            forall|j: int| 0 <= j < i ==> !vals@[j],
    {
        if vals[i] {
            return true;
        }
    }
    false
}

proof fn lemma_apply_keeps_consistent(p: PeerState, q: PeerState, op: OpView)
    requires
        p.consistent(),
        p.log@.valid(),
        q.log@ == recorded(p.log@, op),
        applied(p.map, q.map, op),
        forall|a: Actor| #[trigger] clock_at(q.rm_clock, a) == rm_counter_after(clock_at(p.rm_clock, a), seq![op], a),
        op is Up ==> clock_dots(q.rm_clock) == clock_dots(p.rm_clock),
    ensures
        q.consistent(),
{
    let mp = grocery_clock(p.map);
    let mq = grocery_clock(q.map);
    assert forall|a: Actor| #[trigger] counter_of(mq, a) >= counter_of(mp, a) by {
        match op {
            OpView::Up { actor, counter, .. } => {
                if counter_of(mp, actor) < counter && a == actor {
                    assert(mq == mp.insert(actor, counter));
                }
            },
            OpView::Rm { .. } => {},
        }
    }
    assert forall|a: Actor| #[trigger] clock_at(q.rm_clock, a) >= clock_at(p.rm_clock, a) by {
        lemma_rm_single(clock_at(p.rm_clock, a), op, a);
    }
    assert forall|k: (Actor, u64)| #[trigger] q.log@.ups.contains_key(k) implies k.1 <= counter_of(mq, k.0) by {
        if !p.log@.ups.contains_key(k) {
            assert(op is Up && op->actor == k.0 && op->counter == k.1);
            if counter_of(mp, k.0) < k.1 {
                assert(mq == mp.insert(k.0, k.1));
            }
        } else {
            assert(counter_of(mq, k.0) >= counter_of(mp, k.0));
        }
    }
    assert forall|i: int| 0 <= i < q.log@.removes.len() implies covers(
        clock_dots(q.rm_clock),
        (#[trigger] q.log@.removes[i])->Rm_clock,
    ) by {
        let c = q.log@.removes[i]->Rm_clock;
        assert forall|a: Actor| #[trigger] counter_of(clock_dots(q.rm_clock), a) >= counter_of(c, a) by {
            assert(counter_of(clock_dots(q.rm_clock), a) == clock_at(q.rm_clock, a));
            if i < p.log@.removes.len() {
                assert(q.log@.removes[i] == p.log@.removes[i]);
                assert(covers(clock_dots(p.rm_clock), c));
                assert(counter_of(clock_dots(p.rm_clock), a) >= counter_of(c, a));
            } else {
                assert(q.log@.removes[i] == op);
                lemma_rm_single(clock_at(p.rm_clock, a), op, a);
            }
        }
    }
}

/// What handling the operation `op` from another peer does to the state:
/// the operation is recorded and applied, and a removal's clock is merged into
/// the removal clock (a write leaves the removal clock as it was).
pub open spec fn handled_op(before: PeerState, after: PeerState, op: OpView) -> bool {
    &&& after.actor == before.actor
    &&& after.log@ == recorded(before.log@, op)
    &&& applied(before.map, after.map, op)
    &&& grocery_view(after.map) == apply_step(grocery_view(before.map), op)
    &&& forall|a: Actor| #[trigger] clock_at(after.rm_clock, a)
        == rm_counter_after(clock_at(before.rm_clock, a), seq![op], a)
    &&& op is Up ==> clock_dots(after.rm_clock) == clock_dots(before.rm_clock)
}

/// `items` lists the items of `vals`, each once, with the text of whether one
/// of its values is true.
pub open spec fn lists_items(items: Seq<(String, String)>, vals: Map<Seq<char>, Seq<bool>>) -> bool {
    &&& items.len() == vals.dom().len()
    &&& forall|i: int|
        0 <= i < items.len() ==> #[trigger] vals.contains_key(items[i].0@) && items[i].1@ == bool_text(
            vals[items[i].0@].contains(true),
        )
    &&& forall|i: int, j: int| 0 <= i < j < items.len() ==> #[trigger] items[i].0@ != #[trigger] items[j].0@
    &&& forall|k: Seq<char>|
        #[trigger] vals.contains_key(k) ==> exists|i: int| 0 <= i < items.len() && #[trigger] items[i].0@ == k
}

/// What handling the operations `ops` of an anti-entropy response does to the
/// state: they are recorded and applied in order, and the removals' clocks are
/// merged into the removal clock.
pub open spec fn handled_ops(before: PeerState, after: PeerState, ops: Seq<OpView>) -> bool {
    &&& after.actor == before.actor
    &&& after.log@ == recorded_all(before.log@, ops)
    &&& grocery_clock(after.map) == map_clock_after(grocery_clock(before.map), ops)
    &&& grocery_view(after.map) == apply_all(grocery_view(before.map), ops)
    &&& forall|a: Actor| #[trigger] clock_at(after.rm_clock, a)
        == rm_counter_after(clock_at(before.rm_clock, a), ops, a)
}

/// What merging a snapshot whose map has the clock `add` and whose removal clock
/// is `rm` does to the state: each clock ends with the larger counter of each
/// actor, and the log is cleared.
pub open spec fn merged_snapshot(before: PeerState, after: PeerState, add: Map<Actor, u64>, rm: Map<Actor, u64>) -> bool {
    &&& after.actor == before.actor
    &&& after.log@ == empty_log()
    &&& forall|a: Actor| #[trigger] counter_of(grocery_clock(after.map), a)
        == max_nat(counter_of(grocery_clock(before.map), a), counter_of(add, a))
    &&& forall|a: Actor| #[trigger] clock_at(after.rm_clock, a)
        == max_nat(clock_at(before.rm_clock, a), counter_of(rm, a))
}

impl PeerState {
    /// Two states hold the same map, log and removal clock.
    pub open spec fn same_state(&self, other: &PeerState) -> bool {
        &&& grocery_values(self.map) == grocery_values(other.map)
        &&& grocery_clock(self.map) == grocery_clock(other.map)
        &&& grocery_entry_clocks(self.map) == grocery_entry_clocks(other.map)
        &&& grocery_view(self.map) == grocery_view(other.map)
        &&& self.log@ == other.log@
        &&& clock_dots(self.rm_clock) == clock_dots(other.rm_clock)
    }

    /// Every operation of the log is reflected in the state: each write's dot is
    /// covered by the map's clock, and each removal's clock by the removal clock.
    pub open spec fn consistent(&self) -> bool {
        &&& forall|k: (Actor, u64)|
            #[trigger] self.log@.ups.contains_key(k) ==> k.1 <= counter_of(grocery_clock(self.map), k.0)
        &&& forall|i: int|
            0 <= i < self.log@.removes.len() ==> covers(
                clock_dots(self.rm_clock),
                (#[trigger] self.log@.removes[i])->Rm_clock,
            )
    }

    /// A fresh peer: no item, an empty log, an empty removal clock.
    pub fn new(actor: Actor) -> (p: PeerState)
        ensures
            p.actor == actor,
            grocery_values(p.map).is_empty(),
            grocery_clock(p.map).is_empty(),
            p.log@ == empty_log(),
            clock_dots(p.rm_clock).is_empty(),
            p.consistent(),
            entries_within(p.map),
            grocery_view(p.map) == empty_view(),
    {
        PeerState { map: map_new(), log: OpLog::new(), actor, rm_clock: clock_new() }
    }

    /// The register of an item, where the map holds the item.
    pub fn get(&self, key: &str) -> (r: Option<Grocery>)
        ensures
            r is Some == grocery_values(self.map).contains_key(key@),
            r matches Some(g) ==> register_values(g) == grocery_values(self.map)[key@],
    {
        map_get(&self.map, key)
    }

    /// The counter of the peer's own actor in its map's clock; `update` and
    /// `remove` need it below `u64::MAX`.
    pub fn own_counter(&self) -> (n: u64)
        ensures
            n == counter_of(grocery_clock(self.map), self.actor),
    {
        let c = map_read_clock(&self.map);
        clock_get(&c, &self.actor)
    }

    /// Records and applies an operation; a removal's clock is merged into the
    /// removal clock.
    fn apply_op(&mut self, op: GroceryOp)
        ensures
            final(self).actor == old(self).actor,
            final(self).log@ == recorded(old(self).log@, op@),
            applied(old(self).map, final(self).map, op@),
            grocery_view(final(self).map) == apply_step(grocery_view(old(self).map), op@),
            forall|a: Actor| #[trigger] clock_at(final(self).rm_clock, a)
                == rm_counter_after(clock_at(old(self).rm_clock, a), seq![op@], a),
            op@ is Up ==> clock_dots(final(self).rm_clock) == clock_dots(old(self).rm_clock),
            old(self).consistent() ==> final(self).consistent(),
            entries_within(old(self).map) ==> entries_within(final(self).map),
    {
        self.log.record_op(&op);
        let rm = match &op {
            GroceryOp::Rm { clock, .. } => Some(clock_clone(clock)),
            GroceryOp::Up { .. } => None,
        };
        let ghost m0 = self.map;
        map_apply(&mut self.map, op);
        proof {
            lemma_apply_facts(m0, self.map, op@);
        }
        match rm {
            Some(c) => clock_merge(&mut self.rm_clock, c),
            None => {},
        }
        proof {
            assert forall|a: Actor| #[trigger] clock_at(self.rm_clock, a)
                == rm_counter_after(clock_at(old(self).rm_clock, a), seq![op@], a) by {
                lemma_rm_single(clock_at(old(self).rm_clock, a), op@, a);
            }
            if old(self).consistent() {
                lemma_apply_keeps_consistent(*old(self), *self, op@);
            }
        }
    }

    /// Applies a local operation and gives the message that broadcasts it.
    fn apply_local_op(&mut self, op: GroceryOp) -> (msg: CoreMessage)
        ensures
            final(self).actor == old(self).actor,
            final(self).log@ == recorded(old(self).log@, op@),
            applied(old(self).map, final(self).map, op@),
            grocery_view(final(self).map) == apply_step(grocery_view(old(self).map), op@),
            forall|a: Actor| #[trigger] clock_at(final(self).rm_clock, a)
                == rm_counter_after(clock_at(old(self).rm_clock, a), seq![op@], a),
            op@ is Up ==> clock_dots(final(self).rm_clock) == clock_dots(old(self).rm_clock),
            old(self).consistent() ==> final(self).consistent(),
            entries_within(old(self).map) ==> entries_within(final(self).map),
            msg matches CoreMessage::Op(o) && o@ == op@,
    {
        let copy = op.copy();
        self.apply_op(copy);
        CoreMessage::Op(op)
    }

    /// Writes `value` to the item `key`, at the next dot of the peer's actor and
    /// with the map's clock advanced to that dot; gives the message that
    /// broadcasts the write. The counter must not overflow.
    pub fn update(&mut self, key: String, value: bool) -> (msg: CoreMessage)
        requires
            counter_of(grocery_clock(old(self).map), old(self).actor) < u64::MAX,
        ensures
            ({
                let n = counter_of(grocery_clock(old(self).map), old(self).actor) + 1;
                let op = OpView::Up {
                    actor: old(self).actor,
                    counter: n as u64,
                    key: key@,
                    clock: grocery_clock(old(self).map).insert(old(self).actor, n as u64),
                    val: value,
                };
                &&& msg matches CoreMessage::Op(o) && o@ == op
                &&& handled_op(*old(self), *final(self), op)
                &&& final(self).log@ == recorded(old(self).log@, op)
                &&& grocery_clock(final(self).map) == grocery_clock(old(self).map).insert(
                    old(self).actor,
                    n as u64,
                )
                &&& write_supersedes(grocery_view(old(self).map), op) ==> grocery_values(
                    final(self).map,
                ).contains_key(key@) && grocery_values(final(self).map)[key@] == seq![value]
                &&& item_values_within(grocery_view(old(self).map), key@) && no_pending_removal(
                    grocery_view(old(self).map),
                    key@,
                ) ==> grocery_values(final(self).map).contains_key(key@) && grocery_values(
                    final(self).map,
                )[key@] == seq![value]
                &&& forall|k: Seq<char>|
                    k != key@ && #[trigger] grocery_entries(old(self).map).contains_key(k) && removals_of(
                        grocery_deferred(old(self).map),
                        k,
                    ) == Set::<Dots>::empty() ==> grocery_entries(final(self).map).contains_key(k)
                        && grocery_entries(final(self).map)[k] == grocery_entries(old(self).map)[k]
            }),
            final(self).actor == old(self).actor,
            clock_dots(final(self).rm_clock) == clock_dots(old(self).rm_clock),
            old(self).consistent() ==> final(self).consistent(),
            entries_within(old(self).map) ==> entries_within(final(self).map),
    {
        let ghost key_view = key@;
        let mut clock = map_read_clock(&self.map);
        let (actor, counter) = clock_inc(&clock, self.actor);
        clock_apply(&mut clock, actor, counter);
        let op = GroceryOp::Up { actor, counter, key, clock, val: value };
        let ghost v = op@;
        let msg = self.apply_local_op(op);
        proof {
            lemma_grocery_items(self.map);
            if item_values_within(grocery_view(old(self).map), key_view) && no_pending_removal(
                grocery_view(old(self).map),
                key_view,
            ) {
                lemma_own_write_supersedes(grocery_view(old(self).map), v);
            }
            if write_supersedes(grocery_view(old(self).map), v) {
                lemma_write_reads_back(grocery_view(old(self).map), v);
            }
        }
        msg
    }

    /// Removes the item `key`: the removal's clock is the map's clock advanced
    /// by one dot of the peer's actor (so that it covers every write the peer
    /// has seen); gives the message that broadcasts the removal. Where the
    /// item clocks are within the map's clock, the item is gone afterwards.
    /// The counter must not overflow.
    pub fn remove(&mut self, key: String) -> (msg: CoreMessage)
        requires
            counter_of(grocery_clock(old(self).map), old(self).actor) < u64::MAX,
        ensures
            ({
                let n = counter_of(grocery_clock(old(self).map), old(self).actor) + 1;
                let rm_clock = grocery_clock(old(self).map).insert(old(self).actor, n as u64);
                let op = OpView::Rm { clock: rm_clock, keyset: set![key@] };
                &&& msg matches CoreMessage::Op(o) && o@ == op
                &&& handled_op(*old(self), *final(self), op)
                &&& final(self).log@ == recorded(old(self).log@, op)
                &&& applied(old(self).map, final(self).map, op)
                &&& forall|a: Actor| #[trigger] clock_at(final(self).rm_clock, a)
                    == max_nat(clock_at(old(self).rm_clock, a), counter_of(rm_clock, a))
            }),
            final(self).actor == old(self).actor,
            old(self).consistent() ==> final(self).consistent(),
            entries_within(old(self).map) ==> entries_within(final(self).map),
            entries_within(old(self).map) ==> !grocery_values(final(self).map).contains_key(key@),
            grocery_clock(final(self).map) == grocery_clock(old(self).map),
            forall|k: Seq<char>|
                k != key@ ==> (#[trigger] grocery_values(final(self).map).contains_key(k) <==> grocery_values(
                    old(self).map,
                ).contains_key(k)) && (grocery_values(old(self).map).contains_key(k) ==> grocery_values(
                    final(self).map,
                )[k] == grocery_values(old(self).map)[k]),
    {
        let mut clock = map_read_clock(&self.map);
        let (actor, counter) = clock_inc(&clock, self.actor);
        clock_apply(&mut clock, actor, counter);
        let ghost k = key@;
        let ghost kstr = key;
        let keyset = singleton_keyset(key);
        proof {
            let mapped = keyset@.map(|s: String| s@);
            assert(keyset@.contains(kstr));
            assert(mapped.contains(k));
            assert forall|x: Seq<char>| mapped.contains(x) implies x == k by {
                let y = choose|y: String| keyset@.contains(y) && y@ == x;
                assert(y == kstr);
            }
            assert(mapped =~= set![k]);
        }
        let op = GroceryOp::Rm { clock, keyset };
        let ghost v = op@;
        let msg = self.apply_local_op(op);
        proof {
            assert forall|a: Actor| #[trigger] clock_at(self.rm_clock, a)
                == max_nat(clock_at(old(self).rm_clock, a), counter_of(v->Rm_clock, a)) by {
                lemma_rm_single(clock_at(old(self).rm_clock, a), v, a);
            }
        }
        msg
    }

    /// Forgets everything: no item, an empty log, an empty removal clock.
    pub fn clear(&mut self)
        ensures
            final(self).actor == old(self).actor,
            grocery_values(final(self).map).is_empty(),
            grocery_clock(final(self).map).is_empty(),
            final(self).log@ == empty_log(),
            clock_dots(final(self).rm_clock).is_empty(),
            final(self).consistent(),
            entries_within(final(self).map),
            grocery_view(final(self).map) == empty_view(),
    {
        self.map = map_new();
        self.log.clear();
        self.rm_clock = clock_new();
    }

    /// Each item with the text of whether one of its values is true ("true" or
    /// "false"), each item once.
    pub fn to_hashmap(&self) -> (items: Vec<(String, String)>)
        ensures
            lists_items(items@, grocery_values(self.map)),
    {
        let entries = map_entries(&self.map);
        let ghost vals = grocery_values(self.map);
        let mut items: Vec<(String, String)> = Vec::new();
        let n = entries.len();
        for i in 0..n
            invariant
                n == entries@.len(),
                vals == grocery_values(self.map),
                items@.len() == i,
                forall|x: int| 0 <= x < i ==> #[trigger] items@[x].0@ == entries@[x].0@,
                forall|x: int|
                    0 <= x < i ==> #[trigger] items@[x].1@ == bool_text(register_values(entries@[x].1).contains(true)),
        {
            let values = register_read(&entries[i].1);
            let text = if any_true(&values) {
                proof {
                    reveal_strlit("true");
                }
                "true".to_owned()
            } else {
                proof {
                    reveal_strlit("false");
                }
                "false".to_owned()
            };
            let key = entries[i].0.clone();
            items.push((key, text));
        }
        proof {
            assert forall|i: int|
                0 <= i < items@.len() implies #[trigger] vals.contains_key(items@[i].0@)
                    && items@[i].1@ == bool_text(vals[items@[i].0@].contains(true)) by {
                assert(items@[i].0@ == entries@[i].0@);
                assert(vals.contains_key(entries@[i].0@));
            }
            assert forall|i: int, j: int|
                0 <= i < j < items@.len() implies #[trigger] items@[i].0@ != #[trigger] items@[j].0@ by {
                assert(items@[i].0@ == entries@[i].0@);
                assert(items@[j].0@ == entries@[j].0@);
                assert(entries@[i].0@ != entries@[j].0@);
            }
            assert forall|k: Seq<char>| #[trigger] vals.contains_key(k) implies exists|i: int|
                0 <= i < items@.len() && #[trigger] items@[i].0@ == k by {
                let x = choose|x: int| 0 <= x < entries@.len() && #[trigger] entries@[x].0@ == k;
                assert(items@[x].0@ == entries@[x].0@);
            }
        }
        items
    }

    /// The heartbeat of the peer: its map's clock and its removal clock.
    pub fn send_heartbeat(&self) -> (msg: CoreMessage)
        ensures
            msg matches CoreMessage::Heartbeat { add_clock, rm_clock } && clock_dots(add_clock)
                == grocery_clock(self.map) && clock_dots(rm_clock) == clock_dots(self.rm_clock),
    {
        let add_clock = map_read_clock(&self.map);
        let rm_clock = clock_clone(&self.rm_clock);
        CoreMessage::Heartbeat { add_clock, rm_clock }
    }

    /// A snapshot of the peer: its map and its removal clock.
    pub fn snapshot(&self) -> (msg: CoreMessage)
        ensures
            msg matches CoreMessage::SnapshotResponse { state, rm_clock } && grocery_values(state)
                == grocery_values(self.map) && grocery_clock(state) == grocery_clock(self.map)
                && grocery_entry_clocks(state) == grocery_entry_clocks(self.map)
                && grocery_view(state) == grocery_view(self.map)
                && clock_dots(rm_clock) == clock_dots(self.rm_clock),
    {
        CoreMessage::SnapshotResponse { state: map_clone(&self.map), rm_clock: clock_clone(&self.rm_clock) }
    }

    /// The answer to a heartbeat with clocks `ra` (add) and `rr` (removal): the
    /// operations that the sender lacks, falling back to a snapshot; where it
    /// lacks none, a snapshot if its add clock is behind the map's clock or its
    /// removal clock is behind the peer's removal clock (falling back to a blob);
    /// nothing otherwise.
    pub open spec fn answers_heartbeat(&self, ra: Map<Actor, u64>, rr: Map<Actor, u64>, reply: Reply) -> bool {
        if has_missing(self.log@, ra, rr) {
            reply matches Reply::Broadcast {
                msg: CoreMessage::AntiEntropyResponse { ops },
                if_too_big: Fallback::SendSnapshot,
            } && is_missing_ops(self.log@, ra, rr, ops@.map_values(|o: GroceryOp| o@))
        } else if behind(ra, grocery_clock(self.map)) || behind(rr, clock_dots(self.rm_clock)) {
            reply matches Reply::Broadcast {
                msg: CoreMessage::SnapshotResponse { state, rm_clock },
                if_too_big: Fallback::StoreAsBlob,
            } && grocery_values(state) == grocery_values(self.map) && grocery_clock(state)
                == grocery_clock(self.map) && grocery_view(state) == grocery_view(self.map)
                && clock_dots(rm_clock) == clock_dots(self.rm_clock)
        } else {
            reply is Nothing
        }
    }

    /// Handles a message from another peer and gives the answer.
    /// - An operation is recorded and applied; a removal's clock is merged into
    ///   the removal clock.
    /// - A heartbeat changes nothing and is answered as `answers_heartbeat` says.
    /// - The operations of an anti-entropy response are recorded and applied in
    ///   order.
    /// - A snapshot is merged into the map, its removal clock into the removal
    ///   clock, and the log is cleared.
    /// - A blob changes nothing and is answered with its ticket, to be fetched.
    pub fn handle_message(&mut self, msg: CoreMessage) -> (reply: Reply)
        ensures
            final(self).actor == old(self).actor,
            old(self).consistent() ==> final(self).consistent(),
            entries_within(old(self).map) && (msg matches CoreMessage::SnapshotResponse { state, .. }
                ==> entries_within(state)) ==> entries_within(final(self).map),
            match msg {
                CoreMessage::Op(op) => {
                    &&& handled_op(*old(self), *final(self), op@)
                    &&& reply is Nothing
                },
                CoreMessage::Heartbeat { add_clock, rm_clock } => {
                    &&& old(self).same_state(&*final(self))
                    &&& old(self).answers_heartbeat(clock_dots(add_clock), clock_dots(rm_clock), reply)
                },
                CoreMessage::AntiEntropyResponse { ops } => {
                    &&& handled_ops(*old(self), *final(self), ops@.map_values(|o: GroceryOp| o@))
                    &&& reply is Nothing
                },
                CoreMessage::SnapshotResponse { state, rm_clock } => {
                    &&& merged_snapshot(*old(self), *final(self), grocery_clock(state), clock_dots(rm_clock))
                    &&& grocery_view(final(self).map) == merge_step(grocery_view(old(self).map), grocery_view(state))
                    &&& reply is Nothing
                },
                CoreMessage::Blob { ticket } => {
                    &&& old(self).same_state(&*final(self))
                    &&& reply matches Reply::FetchBlob { ticket: t } && t@ == ticket@
                },
            },
    {
        match msg {
            CoreMessage::Op(op) => {
                self.apply_op(op);
                Reply::Nothing
            },
            CoreMessage::Heartbeat { add_clock, rm_clock } => {
                let missing = self.log.missing_ops(&add_clock, &rm_clock);
                proof {
                    lemma_missing_empty(
                        self.log@,
                        clock_dots(add_clock),
                        clock_dots(rm_clock),
                        missing@.map_values(|o: GroceryOp| o@),
                    );
                }
                if missing.len() > 0 {
                    Reply::Broadcast {
                        msg: CoreMessage::AntiEntropyResponse { ops: missing },
                        if_too_big: Fallback::SendSnapshot,
                    }
                } else {
                    let local_add = map_read_clock(&self.map);
                    if clock_lt(&add_clock, &local_add) || clock_lt(&rm_clock, &self.rm_clock) {
                        Reply::Broadcast { msg: self.snapshot(), if_too_big: Fallback::StoreAsBlob }
                    } else {
                        Reply::Nothing
                    }
                }
            },
            CoreMessage::AntiEntropyResponse { ops } => {
                let ghost vs = ops@.map_values(|o: GroceryOp| o@);
                let ghost l0 = self.log@;
                let ghost m0 = grocery_clock(self.map);
                let ghost g0 = grocery_view(self.map);
                let ghost r0 = self.rm_clock;
                let n = ops.len();
                proof {
                    assert(vs.take(0) =~= Seq::<OpView>::empty());
                }
                for i in 0..n
                    invariant
                        n == ops@.len(),
                        vs == ops@.map_values(|o: GroceryOp| o@),
                        self.actor == old(self).actor,
                        self.log@ == recorded_all(l0, vs.take(i as int)),
                        grocery_clock(self.map) == map_clock_after(m0, vs.take(i as int)),
                        grocery_view(self.map) == apply_all(g0, vs.take(i as int)),
                        forall|a: Actor| #[trigger] clock_at(self.rm_clock, a)
                            == rm_counter_after(clock_at(r0, a), vs.take(i as int), a),
                        old(self).consistent() ==> self.consistent(),
                        entries_within(old(self).map) ==> entries_within(self.map),
                {
                    let ghost prev_rm = self.rm_clock;
                    let ghost prev_map = self.map;
                    let op = ops[i].copy();
                    self.apply_op(op);
                    proof {
                        assert(vs.take(i + 1).drop_last() =~= vs.take(i as int));
                        assert(vs.take(i + 1).last() == vs[i as int]);
                        assert forall|a: Actor| #[trigger] clock_at(self.rm_clock, a)
                            == rm_counter_after(clock_at(r0, a), vs.take(i + 1), a) by {
                            lemma_rm_single(clock_at(prev_rm, a), vs[i as int], a);
                        }
                    }
                }
                proof {
                    assert(vs.take(n as int) =~= vs);
                }
                Reply::Nothing
            },
            CoreMessage::SnapshotResponse { state, rm_clock } => {
                let ghost m0 = self.map;
                let ghost st = state;
                map_merge(&mut self.map, state);
                proof {
                    lemma_merge_facts(m0, st, self.map);
                }
                self.log.clear();
                clock_merge(&mut self.rm_clock, rm_clock);
                Reply::Nothing
            },
            CoreMessage::Blob { ticket } => Reply::FetchBlob { ticket },
        }
    }

    /// The state holds what `data` holds.
    pub open spec fn holds(&self, data: &SaveData) -> bool {
        &&& grocery_values(self.map) == grocery_values(data.map)
        &&& grocery_clock(self.map) == grocery_clock(data.map)
        &&& grocery_entry_clocks(self.map) == grocery_entry_clocks(data.map)
        &&& grocery_view(self.map) == grocery_view(data.map)
        &&& self.log@ == data.log@
        &&& clock_dots(self.rm_clock) == clock_dots(data.rm_clock)
    }

    /// What the peer saves: copies of its map, log and removal clock.
    pub fn save_data(&self) -> (data: SaveData)
        ensures
            self.holds(&data),
    {
        SaveData { map: map_clone(&self.map), log: self.log.copy(), rm_clock: clock_clone(&self.rm_clock) }
    }

    /// Replaces the map, log and removal clock with saved ones.
    pub fn load_data(&mut self, data: SaveData)
        ensures
            final(self).holds(&data),
            final(self).actor == old(self).actor,
    {
        self.map = data.map;
        self.log = data.log;
        self.rm_clock = data.rm_clock;
    }
}

} // verus!
