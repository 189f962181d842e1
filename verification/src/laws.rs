//! Properties that relate the operations of the library to one another.
use crate::clock::{behind, clock_at, clock_dots, counter_of, covers, Actor};
use crate::groceries::{
    apply_step, dots_reset_all, entries_after_removals, entry_after_removals,
    grocery_clock, grocery_view, removals_join, removals_of, Dots, Entry, GroceryView, Register,
};
use crate::op::OpView;
use crate::oplog::{
    recorded_all, empty_log, has_missing, is_listed_up, is_missing_ops, missing_floor, missing_removes, recorded,
    LogView,
};
use crate::groceries::grocery_values;
use crate::listing::{is_row_of, names_distinct, rows_of, shown_in, shows_one_of, text_bool};
use crate::message::CoreMessage;
use crate::peer::{
    bool_text, handled_op, handled_ops, lemma_rm_single, lists_items, map_clock_after,
    merged_snapshot, rm_counter_after, Fallback, PeerState, Reply, SaveData,
};
use vstd::prelude::*;

verus! {

/// Recording a write twice records it once.
pub proof fn law_record_write_idempotent(l: LogView, op: OpView)
    requires
        op is Up,
    ensures
        recorded(recorded(l, op), op) == recorded(l, op),
{
}

/// A log that already holds a write at a dot keeps that write: recording
/// another write at the same dot changes nothing.
pub proof fn law_first_write_at_dot_kept(l: LogView, op: OpView)
    requires
        op is Up,
        l.ups.contains_key((op->actor, op->counter)),
    ensures
        recorded(l, op) == l,
{
}

/// A write recorded at a new dot is offered (by `missing_ops`) to exactly the
/// peers whose add clock is behind its counter for its actor.
pub proof fn law_recorded_write_offered_iff_behind(l: LogView, op: OpView, ra: Map<Actor, u64>)
    requires
        l.valid(),
        op is Up,
        !l.ups.contains_key((op->actor, op->counter)),
    ensures
        recorded(l, op).ups[(op->actor, op->counter)] == op,
        is_listed_up(recorded(l, op).ups, missing_floor(ra), op) <==> op->counter > counter_of(ra, op->actor),
{
    let r = recorded(l, op);
    let k = (op->actor, op->counter);
    assert(r.ups == l.ups.insert(k, op));
    if is_listed_up(r.ups, missing_floor(ra), op) {
        let k2 = choose|kk: (Actor, u64)|
            #[trigger] r.ups.contains_key(kk) && kk.1 > missing_floor(ra)(kk.0) && r.ups[kk] == op;
        if k2 != k {
            assert(l.ups.contains_key(k2));
            assert(l.ups[k2] == op);
            assert(false);
        }
    }
    if op->counter > counter_of(ra, op->actor) {
        assert(r.ups.contains_key(k));
    }
}

/// A removal is offered (by `missing_ops`) to a peer until the peer's removal
/// clock covers the removal's clock.
pub proof fn law_removal_offered_until_covered(l: LogView, op: OpView, rr: Map<Actor, u64>)
    requires
        op is Rm,
    ensures
        missing_removes(recorded(l, op).removes, rr) == if covers(rr, op->Rm_clock) {
            missing_removes(l.removes, rr)
        } else {
            missing_removes(l.removes, rr).push(op)
        },
{
    let r = recorded(l, op);
    assert(r.removes == l.removes.push(op));
    assert(r.removes.drop_last() =~= l.removes);
}

/// An empty log (as after `clear` or a snapshot) offers nothing to any peer.
pub proof fn law_empty_log_offers_nothing(ra: Map<Actor, u64>, rr: Map<Actor, u64>, vs: Seq<OpView>)
    requires
        is_missing_ops(empty_log(), ra, rr, vs),
    ensures
        vs.len() == 0,
{
    let part = vs.subrange(0, vs.len() as int);
    assert(missing_removes(empty_log().removes, rr).len() == 0);
    if vs.len() > 0 {
        assert(part.contains(part[0]));
        assert(is_listed_up(empty_log().ups, missing_floor(ra), part[0]));
        assert(false);
    }
}

/// The removals whose clocks `rr` covers are none of them missing.
proof fn lemma_covered_removes(removes: Seq<OpView>, rr: Map<Actor, u64>)
    requires
        forall|i: int| 0 <= i < removes.len() ==> covers(rr, (#[trigger] removes[i])->Rm_clock),
    ensures
        missing_removes(removes, rr).len() == 0,
    decreases removes.len(),
{
    if removes.len() > 0 {
        let prefix = removes.drop_last();
        assert forall|i: int| 0 <= i < prefix.len() implies covers(rr, (#[trigger] prefix[i])->Rm_clock) by {
            assert(prefix[i] == removes[i]);
        }
        lemma_covered_removes(prefix, rr);
        assert(covers(rr, removes[removes.len() - 1]->Rm_clock));
    }
}

/// A consistent peer that receives its own heartbeat lacks nothing and is
/// behind in nothing, so it answers with nothing.
pub proof fn law_own_heartbeat_needs_no_answer(p: PeerState)
    requires
        p.consistent(),
    ensures
        !has_missing(p.log@, grocery_clock(p.map), clock_dots(p.rm_clock)),
        !behind(grocery_clock(p.map), grocery_clock(p.map)),
        !behind(clock_dots(p.rm_clock), clock_dots(p.rm_clock)),
        p.answers_heartbeat(grocery_clock(p.map), clock_dots(p.rm_clock), Reply::Nothing),
{
    law_heartbeat_of_peer_ahead_needs_no_answer(p, grocery_clock(p.map), clock_dots(p.rm_clock));
}

/// A consistent peer's own write, at the dot after its map's clock, is new to
/// its log; once recorded, it is offered to exactly the peers whose add clock is
/// behind it.
pub proof fn law_local_write_offered_to_peers_behind(p: PeerState, op: OpView, ra: Map<Actor, u64>)
    requires
        p.consistent(),
        p.log@.valid(),
        op is Up,
        op->counter == counter_of(grocery_clock(p.map), op->actor) + 1,
    ensures
        !p.log@.ups.contains_key((op->actor, op->counter)),
        is_listed_up(recorded(p.log@, op).ups, missing_floor(ra), op) <==> op->counter > counter_of(ra, op->actor),
{
    law_recorded_write_offered_iff_behind(p.log@, op, ra);
}

/// What is loaded from saved data is what was saved: two states that hold the
/// same saved data hold the same map, log and removal clock.
pub proof fn law_load_restores_save(saved: PeerState, data: SaveData, loaded: PeerState)
    requires
        saved.holds(&data),
        loaded.holds(&data),
    ensures
        saved.same_state(&loaded),
{
}

/// A peer that receives the same write twice ends as it was after the first.
pub proof fn law_duplicate_write_changes_nothing(p0: PeerState, p1: PeerState, p2: PeerState, op: OpView)
    requires
        op is Up,
        handled_op(p0, p1, op),
        handled_op(p1, p2, op),
    ensures
        p2.same_state(&p1),
{
    let c0 = grocery_clock(p0.map);
    if counter_of(c0, op->actor) < op->counter {
        assert(grocery_clock(p1.map) == c0.insert(op->actor, op->counter));
    }
    assert(counter_of(grocery_clock(p1.map), op->actor) >= op->counter);
    law_record_write_idempotent(p0.log@, op);
    assert(grocery_values(p2.map) == grocery_values(p1.map));
}

/// Applying operations never lowers a counter of the map's clock.
proof fn lemma_map_clock_grows(m: Map<Actor, u64>, ops: Seq<OpView>, a: Actor)
    ensures
        counter_of(map_clock_after(m, ops), a) >= counter_of(m, a),
    decreases ops.len(),
{
    if ops.len() > 0 {
        lemma_map_clock_grows(m, ops.drop_last(), a);
    }
}

/// Once a write has been applied, the map's clock holds its dot.
proof fn lemma_map_clock_has(m: Map<Actor, u64>, ops: Seq<OpView>, v: OpView)
    requires
        v is Up,
        ops.contains(v),
    ensures
        counter_of(map_clock_after(m, ops), v->actor) >= v->counter,
    decreases ops.len(),
{
    let prefix = ops.drop_last();
    if ops.last() != v {
        let i = choose|i: int| 0 <= i < ops.len() && ops[i] == v;
        assert(prefix[i] == v);
        lemma_map_clock_has(m, prefix, v);
    }
}

/// Applying operations never lowers a counter of the removal clock.
proof fn lemma_rm_counter_grows(base: nat, ops: Seq<OpView>, a: Actor)
    ensures
        rm_counter_after(base, ops, a) >= base,
    decreases ops.len(),
{
    if ops.len() > 0 {
        lemma_rm_counter_grows(base, ops.drop_last(), a);
    }
}

/// Once a removal has been applied, the removal clock covers its clock.
proof fn lemma_rm_counter_has(base: nat, ops: Seq<OpView>, v: OpView, a: Actor)
    requires
        v is Rm,
        ops.contains(v),
    ensures
        rm_counter_after(base, ops, a) >= counter_of(v->Rm_clock, a),
    decreases ops.len(),
{
    let prefix = ops.drop_last();
    if ops.last() != v {
        let i = choose|i: int| 0 <= i < ops.len() && ops[i] == v;
        assert(prefix[i] == v);
        lemma_rm_counter_has(base, prefix, v, a);
    }
}

/// A removal whose clock `rr` does not cover is among the missing removals.
proof fn lemma_uncovered_remove_missing(removes: Seq<OpView>, rr: Map<Actor, u64>, i: int)
    requires
        0 <= i < removes.len(),
        removes[i] is Rm,
        !covers(rr, removes[i]->Rm_clock),
    ensures
        missing_removes(removes, rr).contains(removes[i]),
    decreases removes.len(),
{
    let prefix = removes.drop_last();
    let prev = missing_removes(prefix, rr);
    if i == removes.len() - 1 {
        let m = missing_removes(removes, rr);
        assert(m == prev.push(removes[i]));
        assert(m[prev.len() as int] == removes[i]);
    } else {
        assert(prefix[i] == removes[i]);
        lemma_uncovered_remove_missing(prefix, rr, i);
        let j = choose|j: int| 0 <= j < prev.len() && prev[j] == removes[i];
        let m = missing_removes(removes, rr);
        assert(m[j] == removes[i]);
    }
}

/// Anti-entropy delivers the whole log: a peer with add clock `ra` and removal
/// clock `rr` that applies, in order, the operations `vs` that a log offers it
/// (`missing_ops`) ends with an add clock that holds the dot of every write of
/// the log, and a removal clock that covers the clock of every removal of the
/// log.
pub proof fn law_anti_entropy_delivers_log(l: LogView, ra: Map<Actor, u64>, rr: Map<Actor, u64>, vs: Seq<OpView>)
    requires
        l.valid(),
        is_missing_ops(l, ra, rr, vs),
    ensures
        forall|k: (Actor, u64)|
            #[trigger] l.ups.contains_key(k) ==> k.1 <= counter_of(map_clock_after(ra, vs), k.0),
        forall|i: int, a: Actor|
            0 <= i < l.removes.len() ==> rm_counter_after(counter_of(rr, a), vs, a)
                >= #[trigger] counter_of(l.removes[i]->Rm_clock, a),
{
    let rms = missing_removes(l.removes, rr);
    let cut = vs.len() - rms.len();
    let part = vs.subrange(0, cut);
    let tail = vs.subrange(cut, vs.len() as int);
    assert forall|k: (Actor, u64)| #[trigger] l.ups.contains_key(k) implies k.1 <= counter_of(
        map_clock_after(ra, vs),
        k.0,
    ) by {
        lemma_map_clock_grows(ra, vs, k.0);
        if k.1 > counter_of(ra, k.0) {
            let v = l.ups[k];
            assert(is_listed_up(l.ups, missing_floor(ra), v));
            assert(part.contains(v));
            let j = choose|j: int| 0 <= j < part.len() && part[j] == v;
            assert(vs[j] == v);
            lemma_map_clock_has(ra, vs, v);
        }
    }
    assert forall|i: int, a: Actor| 0 <= i < l.removes.len() implies rm_counter_after(
        counter_of(rr, a),
        vs,
        a,
    ) >= #[trigger] counter_of(l.removes[i]->Rm_clock, a) by {
        let r = l.removes[i];
        lemma_rm_counter_grows(counter_of(rr, a), vs, a);
        if !covers(rr, r->Rm_clock) {
            lemma_uncovered_remove_missing(l.removes, rr, i);
            let j = choose|j: int| 0 <= j < rms.len() && rms[j] == r;
            assert(tail[j] == r);
            assert(vs[cut + j] == r);
            lemma_rm_counter_has(counter_of(rr, a), vs, r, a);
        }
    }
}

/// A peer whose clocks hold everything that a consistent peer `p` has seen
/// (its add clock `ra` covers `p`'s map clock, its removal clock `rr` covers
/// `p`'s removal clock) lacks nothing of `p`'s, and `p` answers its heartbeat
/// with nothing.
pub proof fn law_heartbeat_of_peer_ahead_needs_no_answer(p: PeerState, ra: Map<Actor, u64>, rr: Map<Actor, u64>)
    requires
        p.consistent(),
        covers(ra, grocery_clock(p.map)),
        covers(rr, clock_dots(p.rm_clock)),
    ensures
        !has_missing(p.log@, ra, rr),
        p.answers_heartbeat(ra, rr, Reply::Nothing),
{
    assert forall|v: OpView| !is_listed_up(p.log@.ups, missing_floor(ra), v) by {
        if is_listed_up(p.log@.ups, missing_floor(ra), v) {
            let k = choose|k: (Actor, u64)|
                #[trigger] p.log@.ups.contains_key(k) && k.1 > missing_floor(ra)(k.0) && p.log@.ups[k] == v;
            assert(k.1 <= counter_of(grocery_clock(p.map), k.0));
            assert(counter_of(ra, k.0) >= counter_of(grocery_clock(p.map), k.0));
        }
    }
    assert forall|i: int| 0 <= i < p.log@.removes.len() implies covers(rr, (#[trigger] p.log@.removes[i])->Rm_clock) by {
        let c = p.log@.removes[i]->Rm_clock;
        assert(covers(clock_dots(p.rm_clock), c));
        assert forall|a: Actor| #[trigger] counter_of(rr, a) >= counter_of(c, a) by {
            assert(counter_of(clock_dots(p.rm_clock), a) >= counter_of(c, a));
            assert(counter_of(rr, a) >= counter_of(clock_dots(p.rm_clock), a));
        }
    }
    lemma_covered_removes(p.log@.removes, rr);
}

/// A peer `b` that handles the anti-entropy response that `a` gives to `b`'s
/// heartbeat lacks nothing of `a`'s log afterwards: `a` has no operation left
/// to offer to `b`'s next heartbeat.
pub proof fn law_anti_entropy_response_settles(a: PeerState, b0: PeerState, b1: PeerState, vs: Seq<OpView>)
    requires
        a.log@.valid(),
        is_missing_ops(a.log@, grocery_clock(b0.map), clock_dots(b0.rm_clock), vs),
        handled_ops(b0, b1, vs),
    ensures
        !has_missing(a.log@, grocery_clock(b1.map), clock_dots(b1.rm_clock)),
{
    let l = a.log@;
    let ra = grocery_clock(b0.map);
    let rr = clock_dots(b0.rm_clock);
    let ra1 = grocery_clock(b1.map);
    let rr1 = clock_dots(b1.rm_clock);
    law_anti_entropy_delivers_log(l, ra, rr, vs);
    assert forall|v: OpView| !is_listed_up(l.ups, missing_floor(ra1), v) by {
        if is_listed_up(l.ups, missing_floor(ra1), v) {
            let k = choose|k: (Actor, u64)|
                #[trigger] l.ups.contains_key(k) && k.1 > missing_floor(ra1)(k.0) && l.ups[k] == v;
            assert(k.1 <= counter_of(map_clock_after(ra, vs), k.0));
        }
    }
    assert forall|i: int| 0 <= i < l.removes.len() implies covers(rr1, (#[trigger] l.removes[i])->Rm_clock) by {
        let c = l.removes[i]->Rm_clock;
        assert forall|x: Actor| #[trigger] counter_of(rr1, x) >= counter_of(c, x) by {
            assert(counter_of(rr1, x) == clock_at(b1.rm_clock, x));
            assert(clock_at(b1.rm_clock, x) == rm_counter_after(clock_at(b0.rm_clock, x), vs, x));
            assert(rm_counter_after(counter_of(rr, x), vs, x) >= counter_of(l.removes[i]->Rm_clock, x));
        }
    }
    lemma_covered_removes(l.removes, rr1);
}

/// A peer `b` that merges the snapshot of a consistent peer `a` (its map's
/// clock and its removal clock) is behind `a` in nothing: `a` answers `b`'s
/// next heartbeat with nothing.
pub proof fn law_snapshot_settles_heartbeat(a: PeerState, b0: PeerState, b1: PeerState)
    requires
        a.consistent(),
        merged_snapshot(b0, b1, grocery_clock(a.map), clock_dots(a.rm_clock)),
    ensures
        a.answers_heartbeat(grocery_clock(b1.map), clock_dots(b1.rm_clock), Reply::Nothing),
{
    let ra1 = grocery_clock(b1.map);
    let rr1 = clock_dots(b1.rm_clock);
    assert forall|x: Actor| #[trigger] counter_of(ra1, x) >= counter_of(grocery_clock(a.map), x) by {}
    assert forall|x: Actor| #[trigger] counter_of(rr1, x) >= counter_of(clock_dots(a.rm_clock), x) by {
        assert(counter_of(rr1, x) == clock_at(b1.rm_clock, x));
    }
    law_heartbeat_of_peer_ahead_needs_no_answer(a, ra1, rr1);
}

/// The text of a boolean spells that boolean.
proof fn lemma_text_of_bool(b: bool)
    ensures
        text_bool(bool_text(b)) == Some(b),
{
    reveal_strlit("true");
    reveal_strlit("false");
    assert("true"@ != "false"@) by {
        assert("true"@.len() != "false"@.len());
    }
}

/// The interface shows what the map holds: the listing of a map's items
/// (`to_hashmap`) always meets what `grocery_rows` asks, and its rows show
/// each item of the map once, in order of name, as done exactly when one of
/// the item's values is true.
pub proof fn law_rows_show_the_map(
    vals: Map<Seq<char>, Seq<bool>>,
    items: Seq<(String, String)>,
    rows: Seq<(String, bool)>,
)
    requires
        lists_items(items, vals),
    ensures
        names_distinct(items),
        forall|i: int| 0 <= i < items.len() ==> (#[trigger] text_bool(items[i].1@)) is Some,
        rows_of(items, rows) ==> {
            &&& forall|i: int|
                0 <= i < rows.len() ==> #[trigger] vals.contains_key(rows[i].0@) && rows[i].1 == vals[rows[i].0@].contains(
                    true,
                )
            &&& forall|k: Seq<char>|
                #[trigger] vals.contains_key(k) ==> exists|i: int| 0 <= i < rows.len() && #[trigger] rows[i].0@ == k
        },
{
    assert forall|i: int| 0 <= i < items.len() implies (#[trigger] text_bool(items[i].1@)) is Some by {
        assert(vals.contains_key(items[i].0@));
        lemma_text_of_bool(vals[items[i].0@].contains(true));
    }
    if rows_of(items, rows) {
        assert forall|i: int| 0 <= i < rows.len() implies #[trigger] vals.contains_key(rows[i].0@) && rows[i].1
            == vals[rows[i].0@].contains(true) by {
            assert(shows_one_of(rows[i], items, items.len() as int));
            let j = choose|j: int| 0 <= j < items.len() && #[trigger] is_row_of(rows[i], items[j]);
            assert(vals.contains_key(items[j].0@));
            lemma_text_of_bool(vals[items[j].0@].contains(true));
        }
        assert forall|k: Seq<char>| #[trigger] vals.contains_key(k) implies exists|i: int|
            0 <= i < rows.len() && #[trigger] rows[i].0@ == k by {
            let j = choose|j: int| 0 <= j < items.len() && #[trigger] items[j].0@ == k;
            assert(shown_in(items[j], rows));
            let i = choose|i: int| 0 <= i < rows.len() && #[trigger] is_row_of(rows[i], items[j]);
            assert(rows[i].0@ == k);
        }
    }
}


/// Handling the operations of an anti-entropy response one by one, each as a
/// message of its own, does what handling the response does: the same log, map
/// and removal clock.
pub proof fn law_anti_entropy_is_its_ops_one_by_one(states: Seq<PeerState>, ops: Seq<OpView>)
    requires
        states.len() == ops.len() + 1,
        forall|i: int| 0 <= i < ops.len() ==> handled_op(#[trigger] states[i], states[i + 1], ops[i]),
    ensures
        handled_ops(states[0], states[ops.len() as int], ops),
    decreases ops.len(),
{
    let n = ops.len() as int;
    if n == 0 {
        assert forall|a: Actor| #[trigger] clock_at(states[0].rm_clock, a) == rm_counter_after(
            clock_at(states[0].rm_clock, a),
            ops,
            a,
        ) by {}
    } else {
        let prev = states.take(n);
        let pops = ops.drop_last();
        assert forall|i: int| 0 <= i < pops.len() implies handled_op(#[trigger] prev[i], prev[i + 1], pops[i]) by {
            assert(prev[i] == states[i] && prev[i + 1] == states[i + 1] && pops[i] == ops[i]);
        }
        law_anti_entropy_is_its_ops_one_by_one(prev, pops);
        assert(prev[n - 1] == states[n - 1]);
        let s0 = states[0];
        let sp = states[n - 1];
        let sn = states[n];
        let op = ops[n - 1];
        assert(handled_op(sp, sn, op));
        assert(ops.last() == op);
        assert forall|a: Actor| #[trigger] clock_at(sn.rm_clock, a) == rm_counter_after(
            clock_at(s0.rm_clock, a),
            ops,
            a,
        ) by {
            lemma_rm_single(clock_at(sp.rm_clock, a), op, a);
            assert(clock_at(sp.rm_clock, a) == rm_counter_after(clock_at(s0.rm_clock, a), pops, a));
        }
        assert(grocery_clock(sn.map) == map_clock_after(grocery_clock(s0.map), ops));
    }
}

/// Resetting by the same removals twice resets once.
proof fn lemma_reset_all_twice(x: Dots, cs: Set<Dots>)
    ensures
        dots_reset_all(dots_reset_all(x, cs), cs) == dots_reset_all(x, cs),
{
    assert(dots_reset_all(dots_reset_all(x, cs), cs) =~= dots_reset_all(x, cs));
}

/// A filter that keeps every element of `s` gives `s`.
proof fn lemma_filter_all<A>(s: Seq<A>, pred: spec_fn(A) -> bool)
    requires
        forall|i: int| 0 <= i < s.len() ==> pred(#[trigger] s[i]),
    ensures
        s.filter(pred) == s,
    decreases s.len(),
{
    reveal(Seq::filter);
    if s.len() > 0 {
        let p = s.drop_last();
        assert forall|i: int| 0 <= i < p.len() implies pred(#[trigger] p[i]) by {
            assert(p[i] == s[i]);
        }
        lemma_filter_all(p, pred);
        assert(pred(s[s.len() - 1]));
        assert(p.push(s.last()) =~= s);
    }
}

/// An item that the removals with clocks `cs` have left is left as it is by
/// the same removals.
proof fn lemma_entry_after_removals_twice(e: Entry, cs: Set<Dots>)
    requires
        entry_after_removals(e, cs) is Some,
    ensures
        entry_after_removals(entry_after_removals(e, cs)->Some_0, cs) == entry_after_removals(e, cs),
{
    broadcast use vstd::seq_lib::group_filter_ensures;

    if cs != Set::<Dots>::empty() {
        let e1 = entry_after_removals(e, cs)->Some_0;
        lemma_reset_all_twice(e.0, cs);
        let reg: Register = e1.1;
        let mapped = e.1.map_values(|p: (Dots, bool)| (dots_reset_all(p.0, cs), p.1));
        let nonempty = |p: (Dots, bool)| p.0 != Map::<Actor, u64>::empty();
        assert(reg == mapped.filter(nonempty));
        assert forall|i: int| 0 <= i < reg.len() implies (dots_reset_all((#[trigger] reg[i]).0, cs), reg[i].1) == reg[i]
            && nonempty(reg[i]) by {
            assert(mapped.filter(nonempty).contains(reg[i]));
            mapped.lemma_filter_contains_rev(nonempty, reg[i]);
            let j = choose|j: int| 0 <= j < mapped.len() && mapped[j] == reg[i];
            lemma_reset_all_twice(e.1[j].0, cs);
        }
        let again = reg.map_values(|p: (Dots, bool)| (dots_reset_all(p.0, cs), p.1));
        assert(again =~= reg);
        lemma_filter_all(reg, nonempty);
    }
}

/// Applying the same operation twice to a map gives what applying it once
/// gives.
pub proof fn law_map_op_twice(v: GroceryView, op: OpView)
    ensures
        apply_step(apply_step(v, op), op) == apply_step(v, op),
{
    let v1 = apply_step(v, op);
    match op {
        OpView::Up { actor, counter, .. } => {
            if counter_of(v.clock, actor) < counter {
                assert(counter_of(v1.clock, actor) >= counter);
            }
        },
        OpView::Rm { clock, keyset } => {
            let d = map![clock => keyset];
            let e1 = v1.entries;
            let e2 = entries_after_removals(e1, d);
            assert forall|k: Seq<char>| #[trigger] e1.contains_key(k) implies entry_after_removals(e1[k], removals_of(d, k))
                == Some(e1[k]) by {
                lemma_entry_after_removals_twice(v.entries[k], removals_of(d, k));
            }
            assert(e2 =~= e1);
            if !covers(v.clock, clock) {
                let j1 = removals_join(v.deferred, d);
                assert(removals_join(j1, d) =~= j1) by {
                    assert forall|c: Dots| #[trigger] j1.contains_key(c) implies removals_join(j1, d)[c] == j1[c] by {
                        if c == clock {
                            assert(removals_join(j1, d)[c] =~= j1[c]);
                        }
                    }
                }
            }
        },
    }
}

/// A peer that handles the same operation twice holds the same map and the
/// same removal clock as after handling it once.
pub proof fn law_same_op_twice(p0: PeerState, p1: PeerState, p2: PeerState, op: OpView)
    requires
        handled_op(p0, p1, op),
        handled_op(p1, p2, op),
    ensures
        grocery_view(p2.map) == grocery_view(p1.map),
        forall|a: Actor| #[trigger] clock_at(p2.rm_clock, a) == clock_at(p1.rm_clock, a),
{
    law_map_op_twice(grocery_view(p0.map), op);
    assert forall|a: Actor| #[trigger] clock_at(p2.rm_clock, a) == clock_at(p1.rm_clock, a) by {
        lemma_rm_single(clock_at(p0.rm_clock, a), op, a);
        lemma_rm_single(clock_at(p1.rm_clock, a), op, a);
    }
}


/// Every missing removal is a removal.
proof fn lemma_missing_removes_are_removals(rs: Seq<OpView>, rr: Map<Actor, u64>)
    ensures
        forall|i: int| 0 <= i < missing_removes(rs, rr).len() ==> (#[trigger] missing_removes(rs, rr)[i]) is Rm,
    decreases rs.len(),
{
    if rs.len() > 0 {
        lemma_missing_removes_are_removals(rs.drop_last(), rr);
    }
}

/// A removal is missing for a larger removal clock at most as often as for a
/// smaller one.
proof fn lemma_missing_removes_fewer(rs: Seq<OpView>, rr1: Map<Actor, u64>, rr2: Map<Actor, u64>, v: OpView)
    requires
        covers(rr2, rr1),
    ensures
        missing_removes(rs, rr2).to_multiset().count(v) <= missing_removes(rs, rr1).to_multiset().count(v),
    decreases rs.len(),
{
    broadcast use vstd::seq_lib::group_to_multiset_ensures, vstd::multiset::group_multiset_axioms;

    if rs.len() > 0 {
        lemma_missing_removes_fewer(rs.drop_last(), rr1, rr2, v);
        match rs.last() {
            OpView::Rm { clock, .. } => {
                if covers(rr1, clock) {
                    assert forall|a: Actor| #[trigger] counter_of(rr2, a) >= counter_of(clock, a) by {
                        assert(counter_of(rr2, a) >= counter_of(rr1, a));
                        assert(counter_of(rr1, a) >= counter_of(clock, a));
                    }
                }
            },
            OpView::Up { .. } => {},
        }
    }
}

/// What a log offers, split into its writes and its removals.
proof fn lemma_offer_parts(l: LogView, ra: Map<Actor, u64>, rr: Map<Actor, u64>, vs: Seq<OpView>, v: OpView)
    requires
        l.valid(),
        is_missing_ops(l, ra, rr, vs),
    ensures
        v is Up ==> vs.to_multiset().count(v) == if is_listed_up(l.ups, missing_floor(ra), v) {
            1nat
        } else {
            0nat
        },
        v is Rm ==> vs.to_multiset().count(v) == missing_removes(l.removes, rr).to_multiset().count(v),
{
    broadcast use vstd::seq_lib::group_to_multiset_ensures, vstd::multiset::group_multiset_axioms;

    let rms = missing_removes(l.removes, rr);
    let ups = vs.subrange(0, vs.len() - rms.len());
    assert(vs =~= ups + rms);
    vstd::seq_lib::lemma_multiset_commutative(ups, rms);
    lemma_missing_removes_are_removals(l.removes, rr);
    if v is Up {
        assert(!rms.contains(v));
        ups.lemma_multiset_has_no_duplicates();
        if is_listed_up(l.ups, missing_floor(ra), v) {
            assert(ups.contains(v));
        } else {
            assert(!ups.contains(v));
        }
    } else {
        if ups.contains(v) {
            let k = choose|k: (Actor, u64)| #[trigger] l.ups.contains_key(k) && k.1 > missing_floor(ra)(k.0) && l.ups[k] == v;
            assert(false);
        }
    }
}

/// A peer that knows more is missing no more: every operation occurs in what
/// a log offers to the larger clocks `ra2`, `rr2` at most as often as in what
/// it offers to the smaller clocks `ra1`, `rr1`.
pub proof fn law_knowing_more_misses_no_more(
    l: LogView,
    ra1: Map<Actor, u64>,
    rr1: Map<Actor, u64>,
    vs1: Seq<OpView>,
    ra2: Map<Actor, u64>,
    rr2: Map<Actor, u64>,
    vs2: Seq<OpView>,
)
    requires
        l.valid(),
        covers(ra2, ra1),
        covers(rr2, rr1),
        is_missing_ops(l, ra1, rr1, vs1),
        is_missing_ops(l, ra2, rr2, vs2),
    ensures
        forall|v: OpView| #[trigger] vs2.to_multiset().count(v) <= vs1.to_multiset().count(v),
{
    assert forall|v: OpView| #[trigger] vs2.to_multiset().count(v) <= vs1.to_multiset().count(v) by {
        lemma_offer_parts(l, ra1, rr1, vs1, v);
        lemma_offer_parts(l, ra2, rr2, vs2, v);
        if v is Up {
            if is_listed_up(l.ups, missing_floor(ra2), v) {
                let k = choose|k: (Actor, u64)|
                    #[trigger] l.ups.contains_key(k) && k.1 > missing_floor(ra2)(k.0) && l.ups[k] == v;
                assert(counter_of(ra2, k.0) >= counter_of(ra1, k.0));
                assert(is_listed_up(l.ups, missing_floor(ra1), v));
            }
        } else {
            lemma_missing_removes_fewer(l.removes, rr1, rr2, v);
        }
    }
}


/// The dot of a write.
pub open spec fn dot_of(v: OpView) -> (Actor, u64) {
    (v->Up_actor, v->Up_counter)
}

/// `ops[i]` is a write, and the first among `ops` at its dot.
pub open spec fn is_first_write(ops: Seq<OpView>, i: int) -> bool {
    &&& 0 <= i < ops.len()
    &&& ops[i] is Up
    &&& forall|j: int| 0 <= j < i ==> !((#[trigger] ops[j]) is Up && dot_of(ops[j]) == dot_of(ops[i]))
}

/// The removals among `ops`, in order.
pub open spec fn removals_in(ops: Seq<OpView>) -> Seq<OpView>
    decreases ops.len(),
{
    if ops.len() == 0 {
        Seq::empty()
    } else if ops.last() is Rm {
        removals_in(ops.drop_last()).push(ops.last())
    } else {
        removals_in(ops.drop_last())
    }
}

/// The missing removals of the removals among `ops` are the missing removals
/// of `ops`.
proof fn lemma_missing_removals_in(ops: Seq<OpView>, rr: Map<Actor, u64>)
    ensures
        missing_removes(removals_in(ops), rr) == missing_removes(ops, rr),
    decreases ops.len(),
{
    if ops.len() > 0 {
        lemma_missing_removals_in(ops.drop_last(), rr);
        if ops.last() is Rm {
            let r = removals_in(ops);
            assert(r.drop_last() =~= removals_in(ops.drop_last()));
            assert(r.last() == ops.last());
        }
    }
}

/// `r` is the log that records `ops` from empty: it is valid, holds the
/// removals of `ops` in order, holds a write at exactly the dots of the writes
/// of `ops`, and under each the first write at that dot.
pub open spec fn log_of_ops(ops: Seq<OpView>, r: LogView) -> bool {
    &&& r.valid()
    &&& r.removes == removals_in(ops)
    &&& forall|k: (Actor, u64)|
        #[trigger] r.ups.contains_key(k) <==> exists|i: int| 0 <= i < ops.len() && (#[trigger] ops[i]) is Up && dot_of(ops[i]) == k
    &&& forall|k: (Actor, u64)|
        #[trigger] r.ups.contains_key(k) ==> exists|i: int| is_first_write(ops, i) && dot_of(ops[i]) == k && r.ups[k] == #[trigger] ops[i]
    &&& forall|i: int| is_first_write(ops, i) ==> r.ups[dot_of(ops[i])] == #[trigger] ops[i]
}

/// Appending `o` keeps each earlier first write first, and adds no first write
/// before it.
proof fn lemma_first_write_prefix(p: Seq<OpView>, o: OpView)
    ensures
        forall|i: int| 0 <= i < p.len() ==> (is_first_write(p.push(o), i) <==> #[trigger] is_first_write(p, i)),
        forall|i: int| 0 <= i < p.len() ==> #[trigger] p.push(o)[i] == p[i],
{
    let ops = p.push(o);
    assert forall|i: int| 0 <= i < p.len() implies (is_first_write(ops, i) <==> #[trigger] is_first_write(p, i)) by {
        assert(ops[i] == p[i]);
        if is_first_write(p, i) {
            assert forall|j: int| 0 <= j < i implies !((#[trigger] ops[j]) is Up && dot_of(ops[j]) == dot_of(ops[i])) by {
                assert(ops[j] == p[j]);
            }
        }
        if is_first_write(ops, i) {
            assert forall|j: int| 0 <= j < i implies !((#[trigger] p[j]) is Up && dot_of(p[j]) == dot_of(p[i])) by {
                assert(ops[j] == p[j]);
            }
        }
    }
}

#[verifier::rlimit(50)]
proof fn lemma_record_step_rm(p: Seq<OpView>, o: OpView, rp: LogView)
    requires
        o is Rm,
        log_of_ops(p, rp),
    ensures
        log_of_ops(p.push(o), recorded(rp, o)),
{
    let ops = p.push(o);
    let r = recorded(rp, o);
    let n = p.len() as int;
    lemma_first_write_prefix(p, o);
    assert(ops.drop_last() =~= p);
    assert(r.removes =~= removals_in(ops));
    assert forall|k: (Actor, u64)| #[trigger] r.ups.contains_key(k) <==> exists|i: int|
        0 <= i < ops.len() && (#[trigger] ops[i]) is Up && dot_of(ops[i]) == k by {
        if r.ups.contains_key(k) {
            let i = choose|i: int| 0 <= i < p.len() && (#[trigger] p[i]) is Up && dot_of(p[i]) == k;
            assert(ops[i] == p[i]);
        }
        if exists|i: int| 0 <= i < ops.len() && (#[trigger] ops[i]) is Up && dot_of(ops[i]) == k {
            let i = choose|i: int| 0 <= i < ops.len() && (#[trigger] ops[i]) is Up && dot_of(ops[i]) == k;
            assert(i < n);
            assert(p[i] == ops[i]);
        }
    }
    assert forall|k: (Actor, u64)| #[trigger] r.ups.contains_key(k) implies exists|i: int|
        is_first_write(ops, i) && dot_of(ops[i]) == k && r.ups[k] == #[trigger] ops[i] by {
        let i = choose|i: int| is_first_write(p, i) && dot_of(p[i]) == k && rp.ups[k] == #[trigger] p[i];
        assert(is_first_write(ops, i));
    }
    assert forall|i: int| is_first_write(ops, i) implies r.ups[dot_of(ops[i])] == #[trigger] ops[i] by {
        assert(i < n);
        assert(is_first_write(p, i));
    }
}

#[verifier::rlimit(50)]
proof fn lemma_record_step_up(p: Seq<OpView>, o: OpView, rp: LogView)
    requires
        o is Up,
        log_of_ops(p, rp),
    ensures
        log_of_ops(p.push(o), recorded(rp, o)),
{
    let ops = p.push(o);
    let r = recorded(rp, o);
    let n = p.len() as int;
    let k0 = dot_of(o);
    lemma_first_write_prefix(p, o);
    assert(ops.drop_last() =~= p);
    assert(ops[n] == o);
    assert(r.removes =~= removals_in(ops));
    assert forall|k: (Actor, u64)| #[trigger] r.ups.contains_key(k) <==> exists|i: int|
        0 <= i < ops.len() && (#[trigger] ops[i]) is Up && dot_of(ops[i]) == k by {
        if r.ups.contains_key(k) && k != k0 {
            let i = choose|i: int| 0 <= i < p.len() && (#[trigger] p[i]) is Up && dot_of(p[i]) == k;
            assert(ops[i] == p[i]);
        }
        if exists|i: int| 0 <= i < ops.len() && (#[trigger] ops[i]) is Up && dot_of(ops[i]) == k {
            let i = choose|i: int| 0 <= i < ops.len() && (#[trigger] ops[i]) is Up && dot_of(ops[i]) == k;
            if i < n {
                assert(p[i] == ops[i]);
            }
        }
    }
    if rp.ups.contains_key(k0) {
        assert(r == rp);
        assert(!is_first_write(ops, n)) by {
            let j = choose|j: int| 0 <= j < p.len() && (#[trigger] p[j]) is Up && dot_of(p[j]) == k0;
            assert(ops[j] == p[j]);
        }
        assert forall|k: (Actor, u64)| #[trigger] r.ups.contains_key(k) implies exists|i: int|
            is_first_write(ops, i) && dot_of(ops[i]) == k && r.ups[k] == #[trigger] ops[i] by {
            let i = choose|i: int| is_first_write(p, i) && dot_of(p[i]) == k && rp.ups[k] == #[trigger] p[i];
            assert(is_first_write(ops, i));
        }
        assert forall|i: int| is_first_write(ops, i) implies r.ups[dot_of(ops[i])] == #[trigger] ops[i] by {
            assert(i < n);
            assert(is_first_write(p, i));
        }
    } else {
        assert(r.ups == rp.ups.insert(k0, o));
        assert(is_first_write(ops, n)) by {
            assert forall|j: int| 0 <= j < n implies !((#[trigger] ops[j]) is Up && dot_of(ops[j]) == dot_of(ops[n])) by {
                if ops[j] is Up && dot_of(ops[j]) == k0 {
                    assert(p[j] == ops[j]);
                    assert(rp.ups.contains_key(k0));
                }
            }
        }
        assert forall|k: (Actor, u64)| #[trigger] r.ups.contains_key(k) implies exists|i: int|
            is_first_write(ops, i) && dot_of(ops[i]) == k && r.ups[k] == #[trigger] ops[i] by {
            if k == k0 {
                assert(is_first_write(ops, n) && dot_of(ops[n]) == k && r.ups[k] == ops[n]);
            } else {
                let i = choose|i: int| is_first_write(p, i) && dot_of(p[i]) == k && rp.ups[k] == #[trigger] p[i];
                assert(is_first_write(ops, i));
            }
        }
        assert forall|i: int| is_first_write(ops, i) implies r.ups[dot_of(ops[i])] == #[trigger] ops[i] by {
            if i < n {
                assert(is_first_write(p, i));
                assert(rp.ups.contains_key(dot_of(p[i])));
            }
        }
    }
}

/// The log that records `ops` from empty is `log_of_ops`.
proof fn lemma_recorded_from_empty(ops: Seq<OpView>)
    ensures
        log_of_ops(ops, recorded_all(empty_log(), ops)),
    decreases ops.len(),
{
    if ops.len() == 0 {
        assert(recorded_all(empty_log(), ops).removes =~= removals_in(ops));
    } else {
        let p = ops.drop_last();
        let o = ops.last();
        lemma_recorded_from_empty(p);
        assert(p.push(o) =~= ops);
        if o is Rm {
            lemma_record_step_rm(p, o, recorded_all(empty_log(), p));
        } else {
            lemma_record_step_up(p, o, recorded_all(empty_log(), p));
        }
    }
}

/// What a log built by recording `ops` from empty offers to a peer with add
/// clock `ra` and removal clock `rr`: each write that is the first recorded
/// at its dot and above the peer's counter for its actor, once; each removal
/// as often as it was recorded with a clock that `rr` does not cover.
pub proof fn law_offer_of_recorded_ops(ops: Seq<OpView>, ra: Map<Actor, u64>, rr: Map<Actor, u64>, vs: Seq<OpView>)
    requires
        is_missing_ops(recorded_all(empty_log(), ops), ra, rr, vs),
    ensures
        forall|v: OpView| #[trigger] vs.to_multiset().count(v) == if v is Up {
            if (exists|i: int| is_first_write(ops, i) && #[trigger] ops[i] == v) && v->Up_counter > counter_of(
                ra,
                v->Up_actor,
            ) {
                1nat
            } else {
                0nat
            }
        } else {
            missing_removes(ops, rr).to_multiset().count(v)
        },
{
    let l = recorded_all(empty_log(), ops);
    lemma_recorded_from_empty(ops);
    lemma_missing_removals_in(ops, rr);
    assert forall|v: OpView| #[trigger] vs.to_multiset().count(v) == if v is Up {
        if (exists|i: int| is_first_write(ops, i) && #[trigger] ops[i] == v) && v->Up_counter > counter_of(
            ra,
            v->Up_actor,
        ) {
            1nat
        } else {
            0nat
        }
    } else {
        missing_removes(ops, rr).to_multiset().count(v)
    } by {
        lemma_offer_parts(l, ra, rr, vs, v);
        if v is Up {
            if is_listed_up(l.ups, missing_floor(ra), v) {
                let k = choose|k: (Actor, u64)| #[trigger] l.ups.contains_key(k) && k.1 > missing_floor(ra)(k.0) && l.ups[k] == v;
                let i = choose|i: int| is_first_write(ops, i) && dot_of(ops[i]) == k && l.ups[k] == #[trigger] ops[i];
                assert(is_first_write(ops, i) && ops[i] == v);
            }
            if (exists|i: int| is_first_write(ops, i) && #[trigger] ops[i] == v) && v->Up_counter > counter_of(ra, v->Up_actor) {
                let i = choose|i: int| is_first_write(ops, i) && #[trigger] ops[i] == v;
                let k = dot_of(v);
                assert(l.ups.contains_key(k));
                assert(l.ups[k] == v);
                assert(is_listed_up(l.ups, missing_floor(ra), v));
            }
        }
    }
}


/// A local edit does to the state what handling the same operation from
/// another peer does: `update` and `remove` meet `handled_op` for the
/// operation they broadcast, as `handle_message` does for a received one, and
/// the two give the same map, log and removal clock.
pub proof fn law_local_edit_is_remote_op(p: PeerState, local: PeerState, remote: PeerState, op: OpView)
    requires
        handled_op(p, local, op),
        handled_op(p, remote, op),
    ensures
        grocery_view(local.map) == grocery_view(remote.map),
        local.log@ == remote.log@,
        forall|a: Actor| #[trigger] clock_at(local.rm_clock, a) == clock_at(remote.rm_clock, a),
{
}


/// Two snapshots merged in either order leave the same clocks and an empty
/// log: after `a` then `b`, and after `b` then `a`, each counter of the map's
/// clock and of the removal clock is the largest of the three.
pub proof fn law_snapshot_clocks_commute(
    p: PeerState,
    p1: PeerState,
    p12: PeerState,
    p2: PeerState,
    p21: PeerState,
    add1: Map<Actor, u64>,
    rm1: Map<Actor, u64>,
    add2: Map<Actor, u64>,
    rm2: Map<Actor, u64>,
)
    requires
        merged_snapshot(p, p1, add1, rm1),
        merged_snapshot(p1, p12, add2, rm2),
        merged_snapshot(p, p2, add2, rm2),
        merged_snapshot(p2, p21, add1, rm1),
    ensures
        p12.log@ == p21.log@,
        forall|a: Actor| #[trigger] counter_of(grocery_clock(p12.map), a) == counter_of(grocery_clock(p21.map), a),
        forall|a: Actor| #[trigger] clock_at(p12.rm_clock, a) == clock_at(p21.rm_clock, a),
{
    assert forall|a: Actor| #[trigger] counter_of(grocery_clock(p12.map), a) == counter_of(grocery_clock(p21.map), a) by {
        assert(counter_of(grocery_clock(p1.map), a) == counter_of(grocery_clock(p1.map), a));
        assert(counter_of(grocery_clock(p2.map), a) == counter_of(grocery_clock(p2.map), a));
    }
    assert forall|a: Actor| #[trigger] clock_at(p12.rm_clock, a) == clock_at(p21.rm_clock, a) by {
        assert(clock_at(p1.rm_clock, a) == clock_at(p1.rm_clock, a));
        assert(clock_at(p2.rm_clock, a) == clock_at(p2.rm_clock, a));
    }
}


/// A peer that lacks none of the logged operations, but whose removal clock is
/// strictly behind the answering peer's (no counter above it, one below it),
/// is answered with a snapshot of the answering peer's map that carries the
/// answering peer's removal clock.
pub proof fn law_heartbeat_behind_in_removals_gets_snapshot(
    p: PeerState,
    ra: Map<Actor, u64>,
    rr: Map<Actor, u64>,
    reply: Reply,
)
    requires
        p.answers_heartbeat(ra, rr, reply),
        !has_missing(p.log@, ra, rr),
        forall|a: Actor| #[trigger] counter_of(rr, a) <= clock_at(p.rm_clock, a),
        exists|a: Actor| #[trigger] counter_of(rr, a) < clock_at(p.rm_clock, a),
    ensures
        reply matches Reply::Broadcast {
            msg: CoreMessage::SnapshotResponse { state, rm_clock },
            if_too_big: Fallback::StoreAsBlob,
        } && clock_dots(rm_clock) == clock_dots(p.rm_clock) && grocery_view(state) == grocery_view(p.map),
{
    let rm = clock_dots(p.rm_clock);
    assert forall|a: Actor| #[trigger] counter_of(rm, a) >= counter_of(rr, a) by {
        assert(counter_of(rr, a) <= clock_at(p.rm_clock, a));
    }
    let w = choose|a: Actor| #[trigger] counter_of(rr, a) < clock_at(p.rm_clock, a);
    assert(counter_of(rr, w) < counter_of(rm, w));
    assert(behind(rr, rm));
}

} // verus!
