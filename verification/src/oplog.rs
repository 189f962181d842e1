//! The log of operations that a peer has seen, from which it answers the
//! heartbeats of other peers with the operations that they lack.
use crate::clock::{actors_equal, clock_dots, clock_ge, clock_get, counter_of, covers, Actor, Clock};
use crate::op::{GroceryOp, OpView};
use std::collections::BTreeMap;
use vstd::std_specs::iter::IteratorSpec;
use vstd::std_specs::cmp::OrdSpec;
use vstd::std_specs::btree::{increasing_seq, key_obeys_cmp_spec, spec_btree_map_iter};
use vstd::prelude::*;

verus! {

broadcast use {vstd::std_specs::btree::group_btree_axioms, vstd::laws_cmp::group_laws_cmp};

/// The writes of one actor, by counter.
pub struct ActorOps {
    pub actor: Actor,
    pub ops: BTreeMap<u64, GroceryOp>,
}

impl ActorOps {
    /// Every write is stored under its own counter, and was made by the actor.
    pub open spec fn wf(&self) -> bool {
        forall|c: u64|
            #[trigger] self.ops@.contains_key(c) ==> {
                let v = self.ops@[c]@;
                &&& v is Up
                &&& v->actor == self.actor
                &&& v->counter == c
            }
    }

    /// Appends to `out`, in ascending order of counter, the writes whose counter
    /// is at least `lo`.
    fn push_from(&self, lo: u64, out: &mut Vec<GroceryOp>)
        requires
            self.wf(),
        ensures
            final(out)@.len() >= old(out)@.len(),
            final(out)@.subrange(0, old(out)@.len() as int) == old(out)@,
            forall|i: int|
                old(out)@.len() <= i < final(out)@.len() ==> {
                    let v = #[trigger] final(out)@[i]@;
                    &&& v is Up
                    &&& v->actor == self.actor
                    &&& v->counter >= lo
                    &&& self.ops@.contains_key(v->counter)
                    &&& self.ops@[v->counter]@ == v
                },
            forall|c: u64|
                #[trigger] self.ops@.contains_key(c) && c >= lo ==> exists|i: int|
                    old(out)@.len() <= i < final(out)@.len() && #[trigger] final(out)@[i]@
                        == self.ops@[c]@,
            forall|i: int, j: int|
                old(out)@.len() <= i < j < final(out)@.len() ==> (#[trigger] final(out)@[i]@)->counter
                    < (#[trigger] final(out)@[j]@)->counter,
    {
        let ghost start = out@;
        let iter = self.ops.iter();
        let ghost s = iter.remaining();
        proof {
            lemma_btree_iter_facts(&self.ops, iter);
        }
        for item in it: iter
            invariant
                self.wf(),
                it.seq() == s,
                forall|k: int|
                    0 <= k < s.len() ==> #[trigger] self.ops@.contains_key(*s[k].0) && self.ops@[*s[k].0]
                        == *s[k].1,
                forall|k1: int, k2: int| 0 <= k1 < k2 < s.len() ==> *(#[trigger] s[k1]).0 < *(#[trigger] s[k2]).0,
                out@.len() >= start.len(),
                out@.subrange(0, start.len() as int) == start,
                forall|i: int|
                    start.len() <= i < out@.len() ==> {
                        let v = #[trigger] out@[i]@;
                        &&& v is Up
                        &&& v->actor == self.actor
                        &&& v->counter >= lo
                        &&& self.ops@.contains_key(v->counter)
                        &&& self.ops@[v->counter]@ == v
                        &&& 0 < it.index() <= s.len()
                        &&& v->counter <= *s[it.index() - 1].0
                    },
                forall|k: int|
                    0 <= k < it.index() && *(#[trigger] s[k]).0 >= lo ==> exists|i: int|
                        start.len() <= i < out@.len() && #[trigger] out@[i]@ == self.ops@[*s[k].0]@,
                forall|i: int, j: int|
                    start.len() <= i < j < out@.len() ==> (#[trigger] out@[i]@)->counter < (#[trigger] out@[j]@)->counter,
        {
            let ghost idx = it.index();
            let ghost before = out@;
            let (c, op) = item;
            assert(*s[idx].0 == *c);
            if *c >= lo {
                let copy = op.copy();
                out.push(copy);
                proof {
                    assert(out@.subrange(0, before.len() as int) =~= before);
                    lemma_push_keeps(before, out@, start, s, idx, lo, self);
                }
            } else {
                proof {
                    assert forall|i: int| start.len() <= i < out@.len() implies
                        (#[trigger] out@[i]@)->counter <= *s[idx].0 by {
                        if idx > 0 {
                            assert(*s[idx - 1].0 < *s[idx].0);
                        }
                    }
                }
            }
        }
        proof {
            assert forall|c: u64|
                #[trigger] self.ops@.contains_key(c) && c >= lo implies exists|i: int|
                    start.len() <= i < out@.len() && #[trigger] out@[i]@ == self.ops@[c]@ by {
                let k = choose|k: int| 0 <= k < s.len() && *s[k].0 == c;
                assert(*s[k].0 >= lo);
            }
        }
    }
}

/// One step of `push_from` where the entry at `idx` is appended.
proof fn lemma_push_keeps(
    before: Seq<GroceryOp>,
    after: Seq<GroceryOp>,
    start: Seq<GroceryOp>,
    s: Seq<(&u64, &GroceryOp)>,
    idx: int,
    lo: u64,
    ao: &ActorOps,
)
    requires
        ao.wf(),
        0 <= idx < s.len(),
        forall|k: int|
            0 <= k < s.len() ==> #[trigger] ao.ops@.contains_key(*s[k].0) && ao.ops@[*s[k].0]
                == *s[k].1,
        forall|k1: int, k2: int| 0 <= k1 < k2 < s.len() ==> *(#[trigger] s[k1]).0 < *(#[trigger] s[k2]).0,
        *s[idx].0 >= lo,
        after.len() == before.len() + 1,
        after.subrange(0, before.len() as int) == before,
        after[before.len() as int]@ == (*s[idx].1)@,
        before.len() >= start.len(),
        before.subrange(0, start.len() as int) == start,
        forall|i: int|
            start.len() <= i < before.len() ==> {
                let v = #[trigger] before[i]@;
                &&& v is Up
                &&& v->actor == ao.actor
                &&& v->counter >= lo
                &&& ao.ops@.contains_key(v->counter)
                &&& ao.ops@[v->counter]@ == v
                &&& 0 < idx <= s.len()
                &&& v->counter <= *s[idx - 1].0
            },
        forall|k: int|
            0 <= k < idx && *(#[trigger] s[k]).0 >= lo ==> exists|i: int|
                start.len() <= i < before.len() && #[trigger] before[i]@ == ao.ops@[*s[k].0]@,
        forall|i: int, j: int|
            start.len() <= i < j < before.len() ==> (#[trigger] before[i]@)->counter < (#[trigger] before[j]@)->counter,
    ensures
        after.subrange(0, start.len() as int) == start,
        forall|i: int|
            start.len() <= i < after.len() ==> {
                let v = #[trigger] after[i]@;
                &&& v is Up
                &&& v->actor == ao.actor
                &&& v->counter >= lo
                &&& ao.ops@.contains_key(v->counter)
                &&& ao.ops@[v->counter]@ == v
                &&& 0 < idx + 1 <= s.len()
                &&& v->counter <= *s[idx].0
            },
        forall|k: int|
            0 <= k < idx + 1 && *(#[trigger] s[k]).0 >= lo ==> exists|i: int|
                start.len() <= i < after.len() && #[trigger] after[i]@ == ao.ops@[*s[k].0]@,
        forall|i: int, j: int|
            start.len() <= i < j < after.len() ==> (#[trigger] after[i]@)->counter < (#[trigger] after[j]@)->counter,
{
    let n = before.len() as int;
    assert(ao.ops@.contains_key(*s[idx].0));
    assert forall|i: int| 0 <= i < n implies after[i] == before[i] by {
        assert(after.subrange(0, n)[i] == after[i]);
    }
    assert(after.subrange(0, start.len() as int) =~= start) by {
        assert forall|i: int| 0 <= i < start.len() implies after.subrange(0, start.len() as int)[i] == start[i] by {
            assert(before.subrange(0, start.len() as int)[i] == start[i]);
        }
    }
    assert forall|i: int| start.len() <= i < after.len() implies {
        let v = #[trigger] after[i]@;
        &&& v is Up
        &&& v->actor == ao.actor
        &&& v->counter >= lo
        &&& ao.ops@.contains_key(v->counter)
        &&& ao.ops@[v->counter]@ == v
        &&& 0 < idx + 1 <= s.len()
        &&& v->counter <= *s[idx].0
    } by {
        if i < n {
            assert(after[i] == before[i]);
            assert(*s[idx - 1].0 < *s[idx].0);
        }
    }
    assert forall|k: int|
        0 <= k < idx + 1 && *(#[trigger] s[k]).0 >= lo implies exists|i: int|
            start.len() <= i < after.len() && #[trigger] after[i]@ == ao.ops@[*s[k].0]@ by {
        if k < idx {
            let i = choose|i: int| start.len() <= i < before.len() && #[trigger] before[i]@ == ao.ops@[*s[k].0]@;
            assert(after[i] == before[i]);
        } else {
            assert(after[n]@ == ao.ops@[*s[k].0]@);
        }
    }
    assert forall|i: int, j: int|
        start.len() <= i < j < after.len() implies (#[trigger] after[i]@)->counter < (#[trigger] after[j]@)->counter by {
        assert(after[i] == before[i]);
        if j < n {
            assert(after[j] == before[j]);
        } else {
            assert(*s[idx - 1].0 < *s[idx].0);
        }
    }
}

/// What the iteration of a BTreeMap with u64 keys walks through: each entry of
/// the map once, in ascending order of key.
proof fn lemma_btree_iter_facts(m: &BTreeMap<u64, GroceryOp>, iter: std::collections::btree_map::Iter<'_, u64, GroceryOp>)
    requires
        iter == spec_btree_map_iter(m),
        increasing_seq(iter.remaining().map_values(|kv: (&u64, &GroceryOp)| *kv.0)),
    ensures
        ({
            let s = iter.remaining();
            &&& forall|k: int|
                0 <= k < s.len() ==> #[trigger] m@.contains_key(*s[k].0) && m@[*s[k].0] == *s[k].1
            &&& forall|c: u64| #[trigger] m@.contains_key(c) ==> exists|k: int| 0 <= k < s.len() && *s[k].0 == c
            &&& forall|k1: int, k2: int| 0 <= k1 < k2 < s.len() ==> *(#[trigger] s[k1]).0 < *(#[trigger] s[k2]).0
        }),
{
    let s = iter.remaining();
    assert(vstd::laws_cmp::obeys_cmp::<u64>());
    let keys = s.map_values(|kv: (&u64, &GroceryOp)| *kv.0);
    assert forall|c: u64| #[trigger] m@.contains_key(c) implies exists|k: int| 0 <= k < s.len() && *s[k].0 == c by {
        assert(s.contains((&c, &m@[c])));
        let k = choose|k: int| 0 <= k < s.len() && s[k] == (&c, &m@[c]);
        assert(*s[k].0 == c);
    }
    assert forall|k1: int, k2: int| 0 <= k1 < k2 < s.len() implies *(#[trigger] s[k1]).0 < *(#[trigger] s[k2]).0 by {
        assert(keys[k1] == *s[k1].0);
        assert(keys[k2] == *s[k2].0);
        assert(keys[k1].cmp_spec(&keys[k2]) is Less);
    }
}

/// The log: the writes of each actor by counter, and the removals in the order in
/// which they were recorded.
pub struct OpLog {
    up_by_actor: Vec<ActorOps>,
    removes: Vec<GroceryOp>,
}

/// Each per-actor log is well formed, and no two belong to the same actor.
pub open spec fn actors_wf(s: Seq<ActorOps>) -> bool {
    &&& forall|i: int| 0 <= i < s.len() ==> (#[trigger] s[i]).wf()
    &&& forall|i: int, j: int| 0 <= i < j < s.len() ==> (#[trigger] s[i]).actor != (#[trigger] s[j]).actor
}

/// What a log holds: each write under its dot (actor, counter), and the removals.
pub ghost struct LogView {
    pub ups: Map<(Actor, u64), OpView>,
    pub removes: Seq<OpView>,
}

/// The writes of a sequence of per-actor logs, under their dots.
pub open spec fn ups_of(s: Seq<ActorOps>) -> Map<(Actor, u64), OpView> {
    Map::new(
        |k: (Actor, u64)|
            exists|i: int| 0 <= i < s.len() && s[i].actor == k.0 && #[trigger] s[i].ops@.contains_key(k.1),
        |k: (Actor, u64)|
            {
                let i = choose|i: int|
                    0 <= i < s.len() && s[i].actor == k.0 && #[trigger] s[i].ops@.contains_key(k.1);
                s[i].ops@[k.1]@
            },
    )
}

/// The log after `op` is recorded: a removal is appended; a write is stored
/// under its dot unless a write is stored there already.
pub open spec fn recorded(l: LogView, op: OpView) -> LogView {
    match op {
        OpView::Rm { .. } => LogView { ups: l.ups, removes: l.removes.push(op) },
        OpView::Up { actor, counter, .. } => if l.ups.contains_key((actor, counter)) {
            l
        } else {
            LogView { ups: l.ups.insert((actor, counter), op), removes: l.removes }
        },
    }
}

/// A lower bound for each actor: the writes above it are the ones asked for.
pub type Floor = spec_fn(Actor) -> int;

/// The floor of a peer whose add clock holds `remote_add`: it lacks the writes
/// above its counter for their actor.
pub open spec fn missing_floor(remote_add: Map<Actor, u64>) -> Floor {
    |a: Actor| counter_of(remote_add, a) as int
}

/// The floor under every write.
pub open spec fn no_floor() -> Floor {
    |a: Actor| -1int
}

/// A write of `ups` above the floor of its actor.
pub open spec fn is_listed_up(ups: Map<(Actor, u64), OpView>, floor: Floor, v: OpView) -> bool {
    exists|k: (Actor, u64)| #[trigger] ups.contains_key(k) && k.1 > floor(k.0) && ups[k] == v
}

/// The removals of `removes` that a peer whose removal clock holds `remote_rm`
/// lacks: those whose clock it does not cover, in their order.
pub open spec fn missing_removes(removes: Seq<OpView>, remote_rm: Map<Actor, u64>) -> Seq<OpView>
    decreases removes.len(),
{
    if removes.len() == 0 {
        Seq::empty()
    } else {
        let prev = missing_removes(removes.drop_last(), remote_rm);
        match removes.last() {
            OpView::Rm { clock, .. } => if covers(remote_rm, clock) {
                prev
            } else {
                prev.push(removes.last())
            },
            OpView::Up { .. } => prev,
        }
    }
}

/// `part` lists the writes of `ups` above the floor, each once, and the writes
/// of each actor come in ascending order of counter.
pub open spec fn lists_ups(ups: Map<(Actor, u64), OpView>, floor: Floor, part: Seq<OpView>) -> bool {
    &&& part.no_duplicates()
    &&& forall|v: OpView| part.contains(v) <==> is_listed_up(ups, floor, v)
    &&& forall|i: int, j: int|
        0 <= i < j < part.len() && (#[trigger] part[i])->actor == (#[trigger] part[j])->actor
            ==> part[i]->counter < part[j]->counter
}

/// A log that holds nothing.
pub open spec fn empty_log() -> LogView {
    LogView { ups: Map::empty(), removes: Seq::empty() }
}

/// The log after each of `ops` is recorded, in order.
pub open spec fn recorded_all(l: LogView, ops: Seq<OpView>) -> LogView
    decreases ops.len(),
{
    if ops.len() == 0 {
        l
    } else {
        recorded(recorded_all(l, ops.drop_last()), ops.last())
    }
}

/// `vs` is what the log `l` sends to a peer with add clock `ra` and removal
/// clock `rr`: the writes it lacks (`lists_ups` above its counters), then the
/// removals it lacks.
pub open spec fn is_missing_ops(l: LogView, ra: Map<Actor, u64>, rr: Map<Actor, u64>, vs: Seq<OpView>) -> bool {
    let rms = missing_removes(l.removes, rr);
    &&& vs.len() >= rms.len()
    &&& vs.subrange(vs.len() - rms.len(), vs.len() as int) == rms
    &&& lists_ups(l.ups, missing_floor(ra), vs.subrange(0, vs.len() - rms.len()))
}

/// The log holds an operation that a peer with add clock `ra` and removal clock
/// `rr` lacks.
pub open spec fn has_missing(l: LogView, ra: Map<Actor, u64>, rr: Map<Actor, u64>) -> bool {
    ||| exists|v: OpView| is_listed_up(l.ups, missing_floor(ra), v)
    ||| missing_removes(l.removes, rr).len() > 0
}

/// What `is_missing_ops` lists is empty exactly when nothing is missing.
pub proof fn lemma_missing_empty(l: LogView, ra: Map<Actor, u64>, rr: Map<Actor, u64>, vs: Seq<OpView>)
    requires
        is_missing_ops(l, ra, rr, vs),
    ensures
        vs.len() == 0 <==> !has_missing(l, ra, rr),
{
    let rms = missing_removes(l.removes, rr);
    let part = vs.subrange(0, vs.len() - rms.len());
    if vs.len() == 0 {
        assert forall|v: OpView| !is_listed_up(l.ups, missing_floor(ra), v) by {
            if is_listed_up(l.ups, missing_floor(ra), v) {
                assert(part.contains(v));
            }
        }
    } else if !has_missing(l, ra, rr) {
        assert(part.len() > 0);
        assert(part.contains(part[0]));
        assert(false);
    }
}

impl LogView {
    /// Every write is stored under its own dot, and every removal is a removal.
    pub open spec fn valid(self) -> bool {
        &&& forall|k: (Actor, u64)|
            #[trigger] self.ups.contains_key(k) ==> {
                let v = self.ups[k];
                &&& v is Up
                &&& v->actor == k.0
                &&& v->counter == k.1
            }
        &&& forall|i: int| 0 <= i < self.removes.len() ==> (#[trigger] self.removes[i]) is Rm
    }
}

proof fn lemma_ups_valid(s: Seq<ActorOps>, removes: Seq<OpView>)
    requires
        actors_wf(s),
        forall|i: int| 0 <= i < removes.len() ==> (#[trigger] removes[i]) is Rm,
    ensures
        (LogView { ups: ups_of(s), removes }).valid(),
{
    assert forall|k: (Actor, u64)| #[trigger] ups_of(s).contains_key(k) implies {
        let v = ups_of(s)[k];
        &&& v is Up
        &&& v->actor == k.0
        &&& v->counter == k.1
    } by {
        let i = choose|i: int| 0 <= i < s.len() && s[i].actor == k.0 && #[trigger] s[i].ops@.contains_key(k.1);
        assert(s[i].wf());
    }
}

impl View for OpLog {
    type V = LogView;

    closed spec fn view(&self) -> LogView {
        LogView {
            ups: ups_of(self.up_by_actor@),
            removes: self.removes@.map_values(|o: GroceryOp| o@),
        }
    }
}

impl OpLog {
    /// Each per-actor log is well formed and belongs to a different actor, and
    /// every removal is a removal.
    #[verifier::type_invariant]
    closed spec fn wf(&self) -> bool {
        &&& actors_wf(self.up_by_actor@)
        &&& forall|i: int| 0 <= i < self.removes@.len() ==> (#[trigger] self.removes@[i])@ is Rm
    }

    /// An empty log.
    pub fn new() -> (log: OpLog)
        ensures
            log@.valid(),
            log@ == empty_log(),
    {
        let log = OpLog { up_by_actor: Vec::new(), removes: Vec::new() };
        proof {
            assert(log@.ups =~= Map::empty());
            assert(log@.removes =~= Seq::empty());
        }
        log
    }

    /// Forgets every operation.
    pub fn clear(&mut self)
        ensures
            final(self)@.valid(),
            final(self)@ == empty_log(),
    {
        proof {
            use_type_invariant(&*self);
        }
        self.up_by_actor = Vec::new();
        self.removes = Vec::new();
        proof {
            assert(self@.ups =~= Map::empty());
            assert(self@.removes =~= Seq::empty());
        }
    }

    /// Records an operation: a removal is appended to the removals; a write is
    /// stored under its dot, unless a write is stored there already.
    pub fn record_op(&mut self, op: &GroceryOp)
        ensures
            old(self)@.valid(),
            final(self)@.valid(),
            final(self)@ == recorded(old(self)@, op@),
    {
        proof {
            use_type_invariant(&*self);
            lemma_ups_valid(self.up_by_actor@, self@.removes);
        }
        match op {
            GroceryOp::Rm { .. } => {
                let mut removes: Vec<GroceryOp> = Vec::new();
                std::mem::swap(&mut removes, &mut self.removes);
                removes.push(op.copy());
                self.removes = removes;
                proof {
                    assert(self@.removes =~= old(self)@.removes.push(op@));
                }
            },
            GroceryOp::Up { actor, counter, .. } => {
                let mut entries: Vec<ActorOps> = Vec::new();
                std::mem::swap(&mut entries, &mut self.up_by_actor);
                let ghost s0 = entries@;
                let ghost key = (*actor, *counter);
                match find_actor(&entries, actor) {
                    Some(i) => {
                        if !entries[i].ops.contains_key(counter) {
                            entries[i].ops.insert(*counter, op.copy());
                            proof {
                                lemma_insert_entry(s0, entries@, i as int, key, op@);
                            }
                        } else {
                            proof {
                                assert(s0[i as int].ops@.contains_key(key.1));
                                assert(ups_of(s0).contains_key(key));
                            }
                        }
                    },
                    None => {
                        let mut ops = BTreeMap::new();
                        ops.insert(*counter, op.copy());
                        entries.push(ActorOps { actor: *actor, ops });
                        proof {
                            lemma_push_entry(s0, entries@, key, op@);
                        }
                    },
                }
                self.up_by_actor = entries;
            },
        }
        proof {
            use_type_invariant(&*self);
            lemma_ups_valid(self.up_by_actor@, self@.removes);
        }
    }

    /// Every operation of the log: the writes (each actor's in ascending order of
    /// counter), then the removals in the order in which they were recorded.
    pub fn ops(&self) -> (all: Vec<GroceryOp>)
        ensures
            self@.valid(),
            ({
                let vs = all@.map_values(|o: GroceryOp| o@);
                &&& vs.len() >= self@.removes.len()
                &&& vs.subrange(vs.len() - self@.removes.len(), vs.len() as int) == self@.removes
                &&& lists_ups(self@.ups, no_floor(), vs.subrange(0, vs.len() - self@.removes.len()))
            }),
    {
        proof {
            use_type_invariant(self);
            lemma_ups_valid(self.up_by_actor@, self@.removes);
        }
        let ghost s = self.up_by_actor@;
        let mut all: Vec<GroceryOp> = Vec::new();
        let n = self.up_by_actor.len();
        for i in 0..n
            invariant
                actors_wf(s),
                s == self.up_by_actor@,
                n == s.len(),
                ups_block(s, no_floor(), all@, i as int),
        {
            let entry = &self.up_by_actor[i];
            let ghost before = all@;
            proof {
                assert(s[i as int].wf());
            }
            entry.push_from(0, &mut all);
            proof {
                lemma_ups_block_step(s, no_floor(), before, all@, i as int);
            }
        }
        proof {
            lemma_ups_block_done(s, no_floor(), all@);
        }
        let n_ups = all.len();
        let ghost ups_part = all@;
        let nr = self.removes.len();
        for j in 0..nr
            invariant
                nr == self.removes@.len(),
                n_ups == ups_part.len(),
                all@.len() == n_ups + j,
                all@.subrange(0, n_ups as int) == ups_part,
                all@.subrange(n_ups as int, all@.len() as int).map_values(|o: GroceryOp| o@)
                    == self@.removes.take(j as int),
        {
            let ghost before = all@;
            all.push(self.removes[j].copy());
            proof {
                assert(all@.subrange(0, n_ups as int) =~= before.subrange(0, n_ups as int));
                assert(all@.subrange(n_ups as int, all@.len() as int).map_values(|o: GroceryOp| o@)
                    =~= self@.removes.take(j + 1));
            }
        }
        proof {
            assert(self@.removes.take(nr as int) =~= self@.removes);
            let vs = all@.map_values(|o: GroceryOp| o@);
            assert(vs.subrange(vs.len() - self@.removes.len(), vs.len() as int) =~= all@.subrange(
                n_ups as int,
                all@.len() as int,
            ).map_values(|o: GroceryOp| o@));
            assert(vs.subrange(0, vs.len() - self@.removes.len()) =~= ups_part.map_values(|o: GroceryOp| o@));
        }
        all
    }

    /// The log that records `ops` in order, from an empty log.
    pub fn from_ops(ops: &Vec<GroceryOp>) -> (log: OpLog)
        ensures
            log@.valid(),
            log@ == recorded_all(empty_log(), ops@.map_values(|o: GroceryOp| o@)),
    {
        let mut log = OpLog::new();
        let n = ops.len();
        proof {
            assert(ops@.map_values(|o: GroceryOp| o@).take(0) =~= Seq::<OpView>::empty());
        }
        for i in 0..n
            invariant
                n == ops@.len(),
                log@.valid(),
                log@ == recorded_all(empty_log(), ops@.map_values(|o: GroceryOp| o@).take(i as int)),
        {
            log.record_op(&ops[i]);
            proof {
                let vs = ops@.map_values(|o: GroceryOp| o@);
                assert(vs.take(i + 1).drop_last() =~= vs.take(i as int));
            }
        }
        proof {
            let vs = ops@.map_values(|o: GroceryOp| o@);
            assert(vs.take(n as int) =~= vs);
        }
        log
    }

    /// A copy of the log.
    pub fn copy(&self) -> (log: OpLog)
        ensures
            log@ == self@,
    {
        let all = self.ops();
        let log = OpLog::from_ops(&all);
        proof {
            let vs = all@.map_values(|o: GroceryOp| o@);
            let k = vs.len() - self@.removes.len();
            assert(vs =~= vs.subrange(0, k) + vs.subrange(k, vs.len() as int));
            lemma_restore(self@, vs.subrange(0, k));
        }
        log
    }

    /// The operations that a peer lacks, given the add clock and the removal
    /// clock of its heartbeat: the writes with a counter above the peer's counter
    /// for their actor (each actor's in ascending order of counter), then the
    /// removals whose clock the peer's removal clock does not cover, in the order
    /// in which they were recorded.
    pub fn missing_ops(&self, remote_add_clock: &Clock, remote_rm_clock: &Clock) -> (missing: Vec<GroceryOp>)
        ensures
            self@.valid(),
            is_missing_ops(
                self@,
                clock_dots(*remote_add_clock),
                clock_dots(*remote_rm_clock),
                missing@.map_values(|o: GroceryOp| o@),
            ),
    {
        proof {
            use_type_invariant(self);
            lemma_ups_valid(self.up_by_actor@, self@.removes);
        }
        let ghost s = self.up_by_actor@;
        let ghost ra = clock_dots(*remote_add_clock);
        let mut missing: Vec<GroceryOp> = Vec::new();
        let n = self.up_by_actor.len();
        for i in 0..n
            invariant
                actors_wf(s),
                s == self.up_by_actor@,
                ra == clock_dots(*remote_add_clock),
                n == s.len(),
                ups_block(s, missing_floor(ra), missing@, i as int),
        {
            let entry = &self.up_by_actor[i];
            let rc = clock_get(remote_add_clock, &entry.actor);
            let ghost before = missing@;
            proof {
                assert(s[i as int].wf());
            }
            if rc < u64::MAX {
                entry.push_from(rc + 1, &mut missing);
            } else {
                proof {
                    assert(missing@.subrange(0, before.len() as int) =~= before);
                }
            }
            proof {
                lemma_ups_block_step(s, missing_floor(ra), before, missing@, i as int);
            }
        }
        proof {
            lemma_ups_block_done(s, missing_floor(ra), missing@);
        }
        let n_ups = missing.len();
        let ghost ups_part = missing@;
        let ghost rr = clock_dots(*remote_rm_clock);
        let nr = self.removes.len();
        for j in 0..nr
            invariant
                nr == self.removes@.len(),
                rr == clock_dots(*remote_rm_clock),
                n_ups == ups_part.len(),
                missing@.len() >= n_ups,
                missing@.subrange(0, n_ups as int) == ups_part,
                missing@.subrange(n_ups as int, missing@.len() as int).map_values(|o: GroceryOp| o@)
                    == missing_removes(self@.removes.take(j as int), rr),
        {
            let op = &self.removes[j];
            let ghost before = missing@;
            proof {
                assert(self@.removes.take(j + 1).drop_last() =~= self@.removes.take(j as int));
                assert(self@.removes.take(j + 1).last() == op@);
            }
            match op {
                GroceryOp::Rm { clock, .. } => {
                    if !clock_ge(remote_rm_clock, clock) {
                        missing.push(op.copy());
                        proof {
                            assert(missing@.subrange(0, n_ups as int) =~= before.subrange(0, n_ups as int));
                            assert(missing@.subrange(n_ups as int, missing@.len() as int) =~= before.subrange(
                                n_ups as int,
                                before.len() as int,
                            ).push(missing@.last()));
                            assert(missing@.subrange(n_ups as int, missing@.len() as int).map_values(|o: GroceryOp| o@)
                                =~= before.subrange(n_ups as int, before.len() as int).map_values(|o: GroceryOp| o@).push(op@));
                        }
                    }
                },
                GroceryOp::Up { .. } => {},
            }
        }
        proof {
            assert(self@.removes.take(nr as int) =~= self@.removes);
            let vs = missing@.map_values(|o: GroceryOp| o@);
            let rms = missing_removes(self@.removes, rr);
            assert(vs.subrange(vs.len() - rms.len(), vs.len() as int) =~= missing@.subrange(
                n_ups as int,
                missing@.len() as int,
            ).map_values(|o: GroceryOp| o@));
            assert(vs.subrange(0, vs.len() - rms.len()) =~= ups_part.map_values(|o: GroceryOp| o@));
        }
        missing
    }

}

/// The index of the per-actor log of `a` in `entries`, if there is one.
fn find_actor(entries: &Vec<ActorOps>, a: &Actor) -> (r: Option<usize>)
    ensures
        r matches Some(i) ==> i < entries@.len() && entries@[i as int].actor == *a,
        r is None ==> forall|i: int| 0 <= i < entries@.len() ==> (#[trigger] entries@[i]).actor != *a,
{
    let n = entries.len();
    let mut i: usize = 0;
    while i < n
        invariant
            n == entries@.len(),
            0 <= i <= n,
            forall|j: int| 0 <= j < i ==> (#[trigger] entries@[j]).actor != *a,
        decreases n - i,
    {
        if actors_equal(&entries[i].actor, a) {
            return Some(i);
        }
        i = i + 1;
    }
    None
}

proof fn lemma_insert_entry(s0: Seq<ActorOps>, s: Seq<ActorOps>, i: int, k: (Actor, u64), v: OpView)
    requires
        actors_wf(s0),
        0 <= i < s0.len(),
        s.len() == s0.len(),
        forall|j: int| 0 <= j < s0.len() && j != i ==> s[j] == s0[j],
        s[i].actor == s0[i].actor,
        s0[i].actor == k.0,
        !s0[i].ops@.contains_key(k.1),
        s[i].ops@ == s0[i].ops@.insert(k.1, s[i].ops@[k.1]),
        s[i].ops@[k.1]@ == v,
        v is Up && v->actor == k.0 && v->counter == k.1,
    ensures
        actors_wf(s),
        ups_of(s) == ups_of(s0).insert(k, v),
        !ups_of(s0).contains_key(k),
{
    assert forall|j: int| 0 <= j < s.len() implies (#[trigger] s[j]).wf() by {
        if j != i {
            assert(s[j] == s0[j]);
        } else {
            assert(s0[i].wf());
        }
    }
    assert forall|a: int, b: int| 0 <= a < b < s.len() implies (#[trigger] s[a]).actor != (#[trigger] s[b]).actor by {
        if a != i { assert(s[a] == s0[a]); }
        if b != i { assert(s[b] == s0[b]); }
    }
    if ups_of(s0).contains_key(k) {
        let j = choose|j: int| 0 <= j < s0.len() && s0[j].actor == k.0 && #[trigger] s0[j].ops@.contains_key(k.1);
        assert(j != i);
        assert(false);
    }
    let m0 = ups_of(s0).insert(k, v);
    assert forall|key: (Actor, u64)| #[trigger] ups_of(s).contains_key(key) <==> m0.contains_key(key) by {
        if ups_of(s).contains_key(key) {
            let j = choose|j: int| 0 <= j < s.len() && s[j].actor == key.0 && #[trigger] s[j].ops@.contains_key(key.1);
            if j != i {
                assert(s[j] == s0[j]);
                assert(ups_of(s0).contains_key(key));
            } else if key != k {
                assert(s0[i].ops@.contains_key(key.1));
                assert(ups_of(s0).contains_key(key));
            }
        }
        if m0.contains_key(key) {
            if key == k {
                assert(s[i].ops@.contains_key(key.1));
            } else {
                let j = choose|j: int| 0 <= j < s0.len() && s0[j].actor == key.0 && #[trigger] s0[j].ops@.contains_key(key.1);
                if j != i {
                    assert(s[j] == s0[j]);
                } else {
                    assert(s[i].ops@.contains_key(key.1));
                }
            }
        }
    }
    assert forall|key: (Actor, u64)| #[trigger] ups_of(s).contains_key(key) implies ups_of(s)[key] == m0[key] by {
        let j = choose|j: int| 0 <= j < s.len() && s[j].actor == key.0 && #[trigger] s[j].ops@.contains_key(key.1);
        if key == k {
            assert(j == i);
        } else {
            if j != i {
                assert(s[j] == s0[j]);
            } else {
                assert(s0[i].ops@.contains_key(key.1));
            }
            let j0 = choose|j0: int| 0 <= j0 < s0.len() && s0[j0].actor == key.0 && #[trigger] s0[j0].ops@.contains_key(key.1);
            assert(j0 == j);
        }
    }
    assert(ups_of(s) =~= m0);
}

proof fn lemma_push_entry(s0: Seq<ActorOps>, s: Seq<ActorOps>, k: (Actor, u64), v: OpView)
    requires
        actors_wf(s0),
        s == s0.push(s.last()),
        s.last().actor == k.0,
        s.last().ops@ == Map::<u64, GroceryOp>::empty().insert(k.1, s.last().ops@[k.1]),
        s.last().ops@[k.1]@ == v,
        v is Up && v->actor == k.0 && v->counter == k.1,
        forall|j: int| 0 <= j < s0.len() ==> (#[trigger] s0[j]).actor != k.0,
    ensures
        actors_wf(s),
        ups_of(s) == ups_of(s0).insert(k, v),
        !ups_of(s0).contains_key(k),
{
    let n = s0.len() as int;
    assert forall|j: int| 0 <= j < s.len() implies (#[trigger] s[j]).wf() by {
        if j < n {
            assert(s[j] == s0[j]);
        }
    }
    assert forall|a: int, b: int| 0 <= a < b < s.len() implies (#[trigger] s[a]).actor != (#[trigger] s[b]).actor by {
        assert(s[a] == s0[a]);
        if b < n { assert(s[b] == s0[b]); }
    }
    if ups_of(s0).contains_key(k) {
        let j = choose|j: int| 0 <= j < s0.len() && s0[j].actor == k.0 && #[trigger] s0[j].ops@.contains_key(k.1);
        assert(false);
    }
    let m0 = ups_of(s0).insert(k, v);
    assert forall|key: (Actor, u64)| #[trigger] ups_of(s).contains_key(key) <==> m0.contains_key(key) by {
        if ups_of(s).contains_key(key) {
            let j = choose|j: int| 0 <= j < s.len() && s[j].actor == key.0 && #[trigger] s[j].ops@.contains_key(key.1);
            if j < n {
                assert(s[j] == s0[j]);
                assert(ups_of(s0).contains_key(key));
            }
        }
        if m0.contains_key(key) {
            if key == k {
                assert(s[n].ops@.contains_key(key.1));
            } else {
                let j = choose|j: int| 0 <= j < s0.len() && s0[j].actor == key.0 && #[trigger] s0[j].ops@.contains_key(key.1);
                assert(s[j] == s0[j]);
            }
        }
    }
    assert forall|key: (Actor, u64)| #[trigger] ups_of(s).contains_key(key) implies ups_of(s)[key] == m0[key] by {
        let j = choose|j: int| 0 <= j < s.len() && s[j].actor == key.0 && #[trigger] s[j].ops@.contains_key(key.1);
        if key == k {
            assert(j == n);
        } else {
            if j < n {
                assert(s[j] == s0[j]);
                let j0 = choose|j0: int| 0 <= j0 < s0.len() && s0[j0].actor == key.0 && #[trigger] s0[j0].ops@.contains_key(key.1);
                assert(j0 == j);
            } else {
                assert(key.0 == k.0);
                assert(key.1 == k.1);
            }
        }
    }
    assert(ups_of(s) =~= m0);
}

/// Every element of `out` is a write of one of the first `i` per-actor logs,
/// above the floor.
pub open spec fn block_sound(s: Seq<ActorOps>, floor: Floor, out: Seq<GroceryOp>, i: int) -> bool {
    forall|x: int|
        0 <= x < out.len() ==> {
            let v = #[trigger] out[x]@;
            &&& v is Up
            &&& v->counter > floor(v->actor)
            &&& exists|j: int|
                0 <= j < i && s[j].actor == v->actor && #[trigger] s[j].ops@.contains_key(v->counter)
                    && s[j].ops@[v->counter]@ == v
        }
}

/// Every write above the floor of the first `i` per-actor logs is in `out`.
pub open spec fn block_complete(s: Seq<ActorOps>, floor: Floor, out: Seq<GroceryOp>, i: int) -> bool {
    forall|j: int, c: u64|
        0 <= j < i && #[trigger] s[j].ops@.contains_key(c) && c > floor(s[j].actor) ==> exists|x: int|
            0 <= x < out.len() && #[trigger] out[x]@ == s[j].ops@[c]@
}

/// The writes of each actor come in `out` in ascending order of counter.
pub open spec fn block_ordered(out: Seq<GroceryOp>) -> bool {
    forall|x: int, y: int|
        0 <= x < y < out.len() && (#[trigger] out[x]@)->actor == (#[trigger] out[y]@)->actor
            ==> out[x]@->counter < out[y]@->counter
}

/// The first `i` per-actor logs have been walked: `out` holds the writes among
/// them above the floor, each once, each actor's in ascending order of counter.
pub open spec fn ups_block(s: Seq<ActorOps>, floor: Floor, out: Seq<GroceryOp>, i: int) -> bool {
    &&& 0 <= i <= s.len()
    &&& block_sound(s, floor, out, i)
    &&& block_complete(s, floor, out, i)
    &&& block_ordered(out)
}

proof fn lemma_prefix_index(before: Seq<GroceryOp>, after: Seq<GroceryOp>)
    requires
        after.len() >= before.len(),
        after.subrange(0, before.len() as int) == before,
    ensures
        forall|x: int| 0 <= x < before.len() ==> #[trigger] after[x] == before[x],
{
    assert forall|x: int| 0 <= x < before.len() implies #[trigger] after[x] == before[x] by {
        assert(after.subrange(0, before.len() as int)[x] == after[x]);
    }
}

proof fn lemma_block_sound_step(s: Seq<ActorOps>, floor: Floor, before: Seq<GroceryOp>, after: Seq<GroceryOp>, i: int)
    requires
        0 <= i < s.len(),
        block_sound(s, floor, before, i),
        after.len() >= before.len(),
        forall|x: int| 0 <= x < before.len() ==> #[trigger] after[x] == before[x],
        forall|x: int|
            before.len() <= x < after.len() ==> {
                let v = #[trigger] after[x]@;
                &&& v is Up
                &&& v->actor == s[i].actor
                &&& v->counter > floor(s[i].actor)
                &&& s[i].ops@.contains_key(v->counter)
                &&& s[i].ops@[v->counter]@ == v
            },
    ensures
        block_sound(s, floor, after, i + 1),
{
    let n = before.len() as int;
    assert forall|x: int| 0 <= x < after.len() implies {
        let v = #[trigger] after[x]@;
        &&& v is Up
        &&& v->counter > floor(v->actor)
        &&& exists|j: int|
            0 <= j < i + 1 && s[j].actor == v->actor && #[trigger] s[j].ops@.contains_key(v->counter)
                && s[j].ops@[v->counter]@ == v
    } by {
        if x < n {
            assert(after[x] == before[x]);
        } else {
            let v = after[x]@;
            assert(s[i].ops@.contains_key(v->counter));
        }
    }
}

proof fn lemma_block_complete_step(s: Seq<ActorOps>, floor: Floor, before: Seq<GroceryOp>, after: Seq<GroceryOp>, i: int)
    requires
        0 <= i < s.len(),
        block_complete(s, floor, before, i),
        after.len() >= before.len(),
        forall|x: int| 0 <= x < before.len() ==> #[trigger] after[x] == before[x],
        forall|c: u64|
            #[trigger] s[i].ops@.contains_key(c) && c > floor(s[i].actor) ==> exists|x: int|
                before.len() <= x < after.len() && #[trigger] after[x]@ == s[i].ops@[c]@,
    ensures
        block_complete(s, floor, after, i + 1),
{
    assert forall|j: int, c: u64|
        0 <= j < i + 1 && #[trigger] s[j].ops@.contains_key(c) && c > floor(s[j].actor) implies exists|x: int|
            0 <= x < after.len() && #[trigger] after[x]@ == s[j].ops@[c]@ by {
        if j < i {
            let x = choose|x: int| 0 <= x < before.len() && #[trigger] before[x]@ == s[j].ops@[c]@;
            assert(after[x] == before[x]);
        }
    }
}

proof fn lemma_block_ordered_step(s: Seq<ActorOps>, floor: Floor, before: Seq<GroceryOp>, after: Seq<GroceryOp>, i: int)
    requires
        0 <= i < s.len(),
        block_sound(s, floor, before, i),
        block_ordered(before),
        forall|a: int, b: int| 0 <= a < b < s.len() ==> (#[trigger] s[a]).actor != (#[trigger] s[b]).actor,
        after.len() >= before.len(),
        forall|x: int| 0 <= x < before.len() ==> #[trigger] after[x] == before[x],
        forall|x: int| before.len() <= x < after.len() ==> (#[trigger] after[x]@)->actor == s[i].actor,
        forall|x: int, y: int|
            before.len() <= x < y < after.len() ==> (#[trigger] after[x]@)->counter
                < (#[trigger] after[y]@)->counter,
    ensures
        block_ordered(after),
{
    let n = before.len() as int;
    assert forall|x: int, y: int|
        0 <= x < y < after.len() && (#[trigger] after[x]@)->actor == (#[trigger] after[y]@)->actor implies
            after[x]@->counter < after[y]@->counter by {
        if y < n {
            assert(after[x] == before[x]);
            assert(after[y] == before[y]);
        } else if x < n {
            assert(after[x] == before[x]);
            let v = before[x]@;
            let j = choose|j: int|
                0 <= j < i && s[j].actor == v->actor && #[trigger] s[j].ops@.contains_key(v->counter)
                    && s[j].ops@[v->counter]@ == v;
            assert(s[j].actor != s[i].actor);
        }
    }
}

proof fn lemma_ups_block_step(s: Seq<ActorOps>, floor: Floor, before: Seq<GroceryOp>, after: Seq<GroceryOp>, i: int)
    requires
        0 <= i < s.len(),
        ups_block(s, floor, before, i),
        forall|a: int, b: int| 0 <= a < b < s.len() ==> (#[trigger] s[a]).actor != (#[trigger] s[b]).actor,
        after.len() >= before.len(),
        after.subrange(0, before.len() as int) == before,
        forall|x: int|
            before.len() <= x < after.len() ==> {
                let v = #[trigger] after[x]@;
                &&& v is Up
                &&& v->actor == s[i].actor
                &&& v->counter > floor(s[i].actor)
                &&& s[i].ops@.contains_key(v->counter)
                &&& s[i].ops@[v->counter]@ == v
            },
        forall|c: u64|
            #[trigger] s[i].ops@.contains_key(c) && c > floor(s[i].actor) ==> exists|x: int|
                before.len() <= x < after.len() && #[trigger] after[x]@ == s[i].ops@[c]@,
        forall|x: int, y: int|
            before.len() <= x < y < after.len() ==> (#[trigger] after[x]@)->counter
                < (#[trigger] after[y]@)->counter,
    ensures
        ups_block(s, floor, after, i + 1),
{
    lemma_prefix_index(before, after);
    lemma_block_sound_step(s, floor, before, after, i);
    lemma_block_complete_step(s, floor, before, after, i);
    lemma_block_ordered_step(s, floor, before, after, i);
}

proof fn lemma_ups_block_done(s: Seq<ActorOps>, floor: Floor, out: Seq<GroceryOp>)
    requires
        actors_wf(s),
        ups_block(s, floor, out, s.len() as int),
    ensures
        lists_ups(ups_of(s), floor, out.map_values(|o: GroceryOp| o@)),
{
    let vs = out.map_values(|o: GroceryOp| o@);
    let l = ups_of(s);
    assert forall|x: int, y: int| 0 <= x < vs.len() && 0 <= y < vs.len() && x != y implies vs[x] != vs[y] by {
        if vs[x] == vs[y] {
            if x < y {
                assert(out[x]@->counter < out[y]@->counter);
            } else {
                assert(out[y]@->counter < out[x]@->counter);
            }
        }
    }
    assert forall|v: OpView| vs.contains(v) implies is_listed_up(l, floor, v) by {
        let x = choose|x: int| 0 <= x < vs.len() && vs[x] == v;
        assert(out[x]@ == v);
        let j = choose|j: int|
            0 <= j < s.len() && s[j].actor == v->actor && #[trigger] s[j].ops@.contains_key(v->counter)
                && s[j].ops@[v->counter]@ == v;
        let k = (v->actor, v->counter);
        assert(s[j].ops@.contains_key(k.1));
        assert(l.contains_key(k));
        let j0 = choose|j0: int| 0 <= j0 < s.len() && s[j0].actor == k.0 && #[trigger] s[j0].ops@.contains_key(k.1);
        if j0 != j {
            if j0 < j {
                assert(s[j0].actor != s[j].actor);
            } else {
                assert(s[j].actor != s[j0].actor);
            }
        }
        assert(l[k] == v);
    }
    assert forall|v: OpView| is_listed_up(l, floor, v) implies vs.contains(v) by {
        let k = choose|k: (Actor, u64)|
            #[trigger] l.contains_key(k) && k.1 > floor(k.0) && l[k] == v;
        let j = choose|j: int| 0 <= j < s.len() && s[j].actor == k.0 && #[trigger] s[j].ops@.contains_key(k.1);
        let x = choose|x: int| 0 <= x < out.len() && #[trigger] out[x]@ == s[j].ops@[k.1]@;
        assert(vs[x] == v);
    }
    assert forall|i: int, j: int|
        0 <= i < j < vs.len() && (#[trigger] vs[i])->actor == (#[trigger] vs[j])->actor implies
            vs[i]->counter < vs[j]->counter by {
        assert(vs[i] == out[i]@);
        assert(vs[j] == out[j]@);
    }
}

/// Recording two runs of operations one after the other records their
/// concatenation.
pub proof fn lemma_recorded_all_append(l: LogView, a: Seq<OpView>, b: Seq<OpView>)
    ensures
        recorded_all(l, a + b) == recorded_all(recorded_all(l, a), b),
    decreases b.len(),
{
    if b.len() == 0 {
        assert(a + b =~= a);
    } else {
        assert((a + b).drop_last() =~= a + b.drop_last());
        lemma_recorded_all_append(l, a, b.drop_last());
    }
}

/// Recording the writes of `ups` from an empty log stores each under its dot.
proof fn lemma_record_ups(l: LogView, ups: Seq<OpView>, n: int)
    requires
        l.valid(),
        lists_ups(l.ups, no_floor(), ups),
        0 <= n <= ups.len(),
    ensures
        recorded_all(empty_log(), ups.take(n)).removes.len() == 0,
        forall|k: (Actor, u64)|
            #[trigger] recorded_all(empty_log(), ups.take(n)).ups.contains_key(k) <==> exists|i: int|
                0 <= i < n && (#[trigger] ups[i])->actor == k.0 && ups[i]->counter == k.1,
        forall|i: int|
            0 <= i < n ==> #[trigger] recorded_all(empty_log(), ups.take(n)).ups[(ups[i]->actor, ups[i]->counter)]
                == ups[i],
    decreases n,
{
    let r = recorded_all(empty_log(), ups.take(n));
    if n == 0 {
        assert(ups.take(0) =~= Seq::<OpView>::empty());
    } else {
        lemma_record_ups(l, ups, n - 1);
        assert(ups.take(n).drop_last() =~= ups.take(n - 1));
        let prev = recorded_all(empty_log(), ups.take(n - 1));
        let v = ups[n - 1];
        assert(ups.take(n).last() == v);
        assert(ups.contains(v));
        let kv = choose|k: (Actor, u64)| #[trigger] l.ups.contains_key(k) && k.1 > no_floor()(k.0) && l.ups[k] == v;
        assert(v is Up && v->actor == kv.0 && v->counter == kv.1);
        let key = (v->actor, v->counter);
        if prev.ups.contains_key(key) {
            let i = choose|i: int| 0 <= i < n - 1 && (#[trigger] ups[i])->actor == key.0 && ups[i]->counter == key.1;
            assert(ups.contains(ups[i]));
            let ki = choose|k: (Actor, u64)| #[trigger] l.ups.contains_key(k) && k.1 > no_floor()(k.0) && l.ups[k] == ups[i];
            assert(ki == kv);
            assert(ups[i] == v);
            assert(false);
        }
        assert(r == LogView { ups: prev.ups.insert(key, v), removes: prev.removes });
        assert forall|k: (Actor, u64)|
            #[trigger] r.ups.contains_key(k) <==> exists|i: int|
                0 <= i < n && (#[trigger] ups[i])->actor == k.0 && ups[i]->counter == k.1 by {
            if k != key && r.ups.contains_key(k) {
                assert(prev.ups.contains_key(k));
            }
        }
        assert forall|i: int| 0 <= i < n implies #[trigger] r.ups[(ups[i]->actor, ups[i]->counter)] == ups[i] by {
            if i < n - 1 {
                let ki = (ups[i]->actor, ups[i]->counter);
                if ki == key {
                    assert(prev.ups.contains_key(ki));
                    assert(false);
                }
            }
        }
    }
}

/// Recording the removals `rs` appends them.
proof fn lemma_record_removes(l: LogView, rs: Seq<OpView>)
    requires
        forall|i: int| 0 <= i < rs.len() ==> (#[trigger] rs[i]) is Rm,
    ensures
        recorded_all(l, rs) == (LogView { ups: l.ups, removes: l.removes + rs }),
    decreases rs.len(),
{
    if rs.len() == 0 {
        assert(l.removes + rs =~= l.removes);
    } else {
        lemma_record_removes(l, rs.drop_last());
        assert(rs.last() is Rm);
        assert(l.removes + rs =~= (l.removes + rs.drop_last()).push(rs.last()));
    }
}

/// Recording, from an empty log, the writes of a valid log (each once, each
/// actor's in ascending order of counter) and then its removals gives back the
/// same log.
pub proof fn lemma_restore(l: LogView, ups: Seq<OpView>)
    requires
        l.valid(),
        lists_ups(l.ups, no_floor(), ups),
    ensures
        recorded_all(empty_log(), ups + l.removes) == l,
{
    lemma_recorded_all_append(empty_log(), ups, l.removes);
    lemma_record_ups(l, ups, ups.len() as int);
    assert(ups.take(ups.len() as int) =~= ups);
    let mid = recorded_all(empty_log(), ups);
    assert(mid.removes =~= Seq::<OpView>::empty());
    assert forall|k: (Actor, u64)| #[trigger] mid.ups.contains_key(k) <==> l.ups.contains_key(k) by {
        if mid.ups.contains_key(k) {
            let i = choose|i: int| 0 <= i < ups.len() && (#[trigger] ups[i])->actor == k.0 && ups[i]->counter == k.1;
            assert(ups.contains(ups[i]));
            let ki = choose|kk: (Actor, u64)| #[trigger] l.ups.contains_key(kk) && kk.1 > no_floor()(kk.0) && l.ups[kk] == ups[i];
            assert(ki == k);
        }
        if l.ups.contains_key(k) {
            assert(is_listed_up(l.ups, no_floor(), l.ups[k]));
            assert(ups.contains(l.ups[k]));
            let i = choose|i: int| 0 <= i < ups.len() && ups[i] == l.ups[k];
            assert(ups[i]->actor == k.0 && ups[i]->counter == k.1);
        }
    }
    assert forall|k: (Actor, u64)| #[trigger] mid.ups.contains_key(k) implies mid.ups[k] == l.ups[k] by {
        let i = choose|i: int| 0 <= i < ups.len() && (#[trigger] ups[i])->actor == k.0 && ups[i]->counter == k.1;
        assert(ups.contains(ups[i]));
        let ki = choose|kk: (Actor, u64)| #[trigger] l.ups.contains_key(kk) && kk.1 > no_floor()(kk.0) && l.ups[kk] == ups[i];
        assert(ki == k);
    }
    assert(mid.ups =~= l.ups);
    lemma_record_removes(mid, l.removes);
    assert(mid.removes + l.removes =~= l.removes);
}

} // verus!
