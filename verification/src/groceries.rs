//! The grocery map: a map of the `crdts` crate from item names to
//! multi-value registers of booleans (whether the item is done).
use crate::clock::{clock_dots, counter_of, covers, Actor, Clock};
use crate::op::{GroceryOp, OpView};
use vstd::prelude::*;

verus! {

/// The register of one item: the concurrent values written to it.
pub type Grocery = crdts::MVReg<bool, Actor>;

/// The map of all items: a `crdts` map from item names to registers. What it
/// holds is read through `grocery_view`.
#[verifier::external_body]
pub struct Groceries {
    pub inner: crdts::Map<String, Grocery, Actor>,
}

#[verifier::external_type_specification]
#[verifier::external_body]
#[verifier::reject_recursive_types(V)]
#[verifier::reject_recursive_types(A)]
pub struct ExMVReg<V, A: Ord>(crdts::MVReg<V, A>);


/// The values that a register holds, in the order in which it holds them.
pub uninterp spec fn register_values(r: crdts::MVReg<bool, [u8; 32]>) -> Seq<bool>;

/// The dots of a vector clock: its counter for each actor that it lists.
pub type Dots = Map<Actor, u64>;

/// A register as the map holds it: each value with the clock of its write, in
/// the order in which the register holds them.
pub type Register = Seq<(Dots, bool)>;

/// An item as the map holds it: its clock and its register.
pub type Entry = (Dots, Register);

/// The items of a grocery map, each with its clock and its register.
pub uninterp spec fn grocery_entries(
    m: Groceries,
) -> Map<Seq<char>, (Map<[u8; 32], u64>, Seq<(Map<[u8; 32], u64>, bool)>)>;

/// The clock of a grocery map: the dots of every write that it has applied.
pub uninterp spec fn grocery_clock(
    m: Groceries,
) -> Map<[u8; 32], u64>;

/// The removals that a grocery map keeps for later, by clock: the keys of each,
/// for removals whose clock holds dots that the map's clock lacks.
pub uninterp spec fn grocery_deferred(
    m: Groceries,
) -> Map<Map<[u8; 32], u64>, Set<Seq<char>>>;

/// The items of a grocery map, each with the values of its register.
pub closed spec fn grocery_values(m: Groceries) -> Map<Seq<char>, Seq<bool>> {
    grocery_entries(m).map_values(|e: Entry| register_vals(e.1))
}

/// The clock of each item of a grocery map: the dots of the writes to the item
/// that it still holds.
pub closed spec fn grocery_entry_clocks(m: Groceries) -> Map<Seq<char>, Dots> {
    grocery_entries(m).map_values(|e: Entry| e.0)
}

/// The values of a register, in order.
pub open spec fn register_vals(r: Register) -> Seq<bool> {
    r.map_values(|p: (Dots, bool)| p.1)
}

/// The values and item clocks of a map are those of its items.
pub proof fn lemma_grocery_items(m: Groceries)
    ensures
        grocery_values(m).dom() == grocery_entries(m).dom(),
        grocery_entry_clocks(m).dom() == grocery_entries(m).dom(),
        forall|k: Seq<char>| #[trigger] grocery_entries(m).contains_key(k) ==> grocery_values(m)[k]
            == register_vals(grocery_entries(m)[k].1) && grocery_entry_clocks(m)[k] == grocery_entries(m)[k].0,
{
}

/// What a grocery map holds: its items, its clock and its deferred removals.
pub ghost struct GroceryView {
    pub entries: Map<Seq<char>, Entry>,
    pub clock: Dots,
    pub deferred: Map<Dots, Set<Seq<char>>>,
}

/// What the grocery map `m` holds.
pub open spec fn grocery_view(m: Groceries) -> GroceryView {
    GroceryView { entries: grocery_entries(m), clock: grocery_clock(m), deferred: grocery_deferred(m) }
}

/// A map that holds nothing.
pub open spec fn empty_view() -> GroceryView {
    GroceryView { entries: Map::empty(), clock: Map::empty(), deferred: Map::empty() }
}

/// `x < y` between vector clocks (`partial_cmp` is `Less`): the clocks differ,
/// `y` has every counter of `x`, and `x` lacks some counter of `y`.
pub open spec fn dots_lt(x: Dots, y: Dots) -> bool {
    x != y && !covers(x, y) && covers(y, x)
}

/// `x > y` between vector clocks (`partial_cmp` is `Greater`).
pub open spec fn dots_gt(x: Dots, y: Dots) -> bool {
    x != y && covers(x, y)
}

/// `VClock::apply` of the dot (actor, counter).
pub open spec fn dots_apply(x: Dots, actor: Actor, counter: u64) -> Dots {
    if counter_of(x, actor) < counter {
        x.insert(actor, counter)
    } else {
        x
    }
}

/// `VClock::merge`: each dot of `y` applied to `x`.
pub open spec fn dots_merge(x: Dots, y: Dots) -> Dots {
    Map::new(
        |a: Actor| x.contains_key(a) || (y.contains_key(a) && counter_of(x, a) < y[a]),
        |a: Actor| if y.contains_key(a) && counter_of(x, a) < y[a] {
            y[a]
        } else {
            x[a]
        },
    )
}

/// `VClock::reset_remove` by the clock `c`: the actors whose counter `c` lists
/// at least as high are dropped.
pub open spec fn dots_reset(x: Dots, c: Dots) -> Dots {
    x.restrict(Set::new(|a: Actor| !(c.contains_key(a) && c[a] >= x[a])))
}

/// `VClock::intersection(x, y)`: the dots of `x` that `y` has with the same
/// counter.
pub open spec fn dots_common(x: Dots, y: Dots) -> Dots {
    x.restrict(Set::new(|a: Actor| counter_of(y, a) == x[a]))
}

/// `MVReg::reset_remove` by the clock `c`: each value's clock is reset, and a
/// value whose clock ends empty is dropped.
pub open spec fn register_reset(r: Register, c: Dots) -> Register {
    r.map_values(|p: (Dots, bool)| (dots_reset(p.0, c), p.1)).filter(|p: (Dots, bool)| p.0 != Map::<Actor, u64>::empty())
}

/// `MVReg::apply` of a write of `v` with the clock `c`: nothing where `c` is
/// empty; otherwise the values whose clock is equal to `c` or below it go, and
/// the write is appended unless a value that stays has a clock above `c`.
pub open spec fn register_put(r: Register, c: Dots, v: bool) -> Register {
    if c == Map::<Actor, u64>::empty() {
        r
    } else {
        let kept = r.filter(|p: (Dots, bool)| p.0 != c && !dots_lt(p.0, c));
        if exists|i: int| 0 <= i < kept.len() && dots_gt(#[trigger] kept[i].0, c) {
            kept
        } else {
            kept.push((c, v))
        }
    }
}

/// `MVReg::merge` of `b` into `a`: the values of `a` whose clock is below no
/// clock of `b`, then the values of `b` whose clock is below none of those and
/// equal to none of them.
pub open spec fn register_merge(a: Register, b: Register) -> Register {
    let a2 = a.filter(|p: (Dots, bool)| !(exists|j: int| 0 <= j < b.len() && dots_lt(p.0, #[trigger] b[j].0)));
    a2 + b.filter(
        |q: (Dots, bool)|
            !(exists|j: int| 0 <= j < a2.len() && (dots_lt(q.0, #[trigger] a2[j].0) || q.0 == a2[j].0)),
    )
}

/// The clocks of the removals of `d` whose key set holds `k`.
pub open spec fn removals_of(d: Map<Dots, Set<Seq<char>>>, k: Seq<char>) -> Set<Dots> {
    Set::new(|c: Dots| d.contains_key(c) && d[c].contains(k))
}

/// The dots of `x` that no clock of `cs` lists as high or higher.
pub open spec fn dots_reset_all(x: Dots, cs: Set<Dots>) -> Dots {
    x.restrict(Set::new(|a: Actor| !(exists|c: Dots| #[trigger] cs.contains(c) && c.contains_key(a) && c[a] >= x[a])))
}

/// An item after the removals with clocks `cs` (`apply_keyset_rm` for each):
/// with no removal it is as it was; otherwise its clock and its values' clocks
/// are reset by each, a value whose clock ends empty is dropped, and the item
/// goes where its clock ends empty.
pub open spec fn entry_after_removals(e: Entry, cs: Set<Dots>) -> Option<Entry> {
    if cs == Set::<Dots>::empty() {
        Some(e)
    } else {
        let ec = dots_reset_all(e.0, cs);
        if ec == Map::<Actor, u64>::empty() {
            None
        } else {
            Some(
                (
                    ec,
                    e.1.map_values(|p: (Dots, bool)| (dots_reset_all(p.0, cs), p.1)).filter(
                        |p: (Dots, bool)| p.0 != Map::<Actor, u64>::empty(),
                    ),
                ),
            )
        }
    }
}

/// The items after each removal of `d` is applied to its keys.
pub open spec fn entries_after_removals(es: Map<Seq<char>, Entry>, d: Map<Dots, Set<Seq<char>>>) -> Map<Seq<char>, Entry> {
    Map::new(
        |k: Seq<char>| es.contains_key(k) && entry_after_removals(es[k], removals_of(d, k)) is Some,
        |k: Seq<char>| entry_after_removals(es[k], removals_of(d, k))->Some_0,
    )
}

/// The removals of `d` that the clock `c` does not cover (the ones kept for
/// later).
pub open spec fn uncovered(d: Map<Dots, Set<Seq<char>>>, c: Dots) -> Map<Dots, Set<Seq<char>>> {
    d.restrict(Set::new(|rc: Dots| !covers(c, rc)))
}

/// `d` with the removals of `e` added, key sets of the same clock joined.
pub open spec fn removals_join(d: Map<Dots, Set<Seq<char>>>, e: Map<Dots, Set<Seq<char>>>) -> Map<Dots, Set<Seq<char>>> {
    Map::new(
        |c: Dots| d.contains_key(c) || e.contains_key(c),
        |c: Dots| if d.contains_key(c) && e.contains_key(c) {
            d[c].union(e[c])
        } else if d.contains_key(c) {
            d[c]
        } else {
            e[c]
        },
    )
}

/// `Map::apply` of `op`: a write whose dot the map's clock holds changes
/// nothing. Another write adds its dot to the item's clock (a new item starts
/// empty), puts its value into the item's register, adds its dot to the map's
/// clock, and then applies the deferred removals, keeping those that the new
/// clock does not cover. A removal resets the items of its key set and, where
/// the map's clock does not cover its clock, is deferred.
pub open spec fn apply_step(v: GroceryView, op: OpView) -> GroceryView {
    match op {
        OpView::Up { actor, counter, key, clock, val } => if counter_of(v.clock, actor) >= counter {
            v
        } else {
            let e0: Entry = if v.entries.contains_key(key) {
                v.entries[key]
            } else {
                (Map::empty(), Seq::empty())
            };
            let e1: Entry = (dots_apply(e0.0, actor, counter), register_put(e0.1, clock, val));
            let clock1 = v.clock.insert(actor, counter);
            GroceryView {
                entries: entries_after_removals(v.entries.insert(key, e1), v.deferred),
                clock: clock1,
                deferred: uncovered(v.deferred, clock1),
            }
        },
        OpView::Rm { clock, keyset } => GroceryView {
            entries: entries_after_removals(v.entries, map![clock => keyset]),
            clock: v.clock,
            deferred: if covers(v.clock, clock) {
                v.deferred
            } else {
                removals_join(v.deferred, map![clock => keyset])
            },
        },
    }
}

/// The map after applying `ops` in order.
pub open spec fn apply_all(v: GroceryView, ops: Seq<OpView>) -> GroceryView
    decreases ops.len(),
{
    if ops.len() == 0 {
        v
    } else {
        apply_step(apply_all(v, ops.drop_last()), ops.last())
    }
}

/// An item that only the merging map holds, after `Map::merge`: gone where the
/// other map's clock covers its clock; otherwise its clock is reset by the
/// other map's clock, and its values by what the other map has removed.
pub open spec fn merge_own(e: Entry, other_clock: Dots) -> Option<Entry> {
    if covers(other_clock, e.0) {
        None
    } else {
        let ec = dots_reset(e.0, other_clock);
        Some((ec, register_reset(e.1, dots_reset(other_clock, ec))))
    }
}

/// An item that both maps hold, after `Map::merge`: its clock becomes the dots
/// that both hold with the same counter, and the dots of each that the other
/// map's clock does not cover; it goes where that is empty; otherwise the
/// registers are merged and reset by the dots that dropped out.
pub open spec fn merge_both(se: Entry, oe: Entry, self_clock: Dots, other_clock: Dots) -> Option<Entry> {
    let common = dots_merge(
        dots_merge(dots_common(oe.0, se.0), dots_reset(oe.0, self_clock)),
        dots_reset(se.0, other_clock),
    );
    if common == Map::<Actor, u64>::empty() {
        None
    } else {
        let deleted = dots_reset(dots_merge(oe.0, se.0), common);
        Some((common, register_reset(register_merge(se.1, oe.1), deleted)))
    }
}

/// The merged item of `k`, before removals.
pub open spec fn merged_entry(s: GroceryView, o: GroceryView, k: Seq<char>) -> Option<Entry> {
    if s.entries.contains_key(k) && o.entries.contains_key(k) {
        merge_both(s.entries[k], o.entries[k], s.clock, o.clock)
    } else if s.entries.contains_key(k) {
        merge_own(s.entries[k], o.clock)
    } else if o.entries.contains_key(k) {
        merge_own(o.entries[k], s.clock)
    } else {
        None
    }
}

/// `Map::merge` of `o` into `s`: the items are merged one by one (see
/// `merged_entry`); the other map's deferred removals are applied, and kept
/// where `s`'s clock does not cover them; the clocks are merged; and then all
/// deferred removals are applied again, keeping those that the merged clock
/// does not cover.
pub open spec fn merge_step(s: GroceryView, o: GroceryView) -> GroceryView {
    let merged = Map::new(
        |k: Seq<char>| merged_entry(s, o, k) is Some,
        |k: Seq<char>| merged_entry(s, o, k)->Some_0,
    );
    let entries3 = entries_after_removals(merged, o.deferred);
    let deferred3 = removals_join(s.deferred, uncovered(o.deferred, s.clock));
    let clock4 = dots_merge(s.clock, o.clock);
    GroceryView {
        entries: entries_after_removals(entries3, deferred3),
        clock: clock4,
        deferred: uncovered(deferred3, clock4),
    }
}

/// The dots `e` are positive and within the clock `c`: each actor of `e` has a
/// positive counter, at most its counter in `c`.
pub open spec fn dots_within(e: Map<Actor, u64>, c: Map<Actor, u64>) -> bool {
    forall|a: Actor| #[trigger] e.contains_key(a) ==> 0 < e[a] && e[a] <= counter_of(c, a)
}

/// Every item's clock is within the map's clock. A map that starts empty and
/// only applies operations and merges such maps stays so.
pub open spec fn entries_within(m: Groceries) -> bool {
    forall|k: Seq<char>|
        #[trigger] grocery_values(m).contains_key(k) ==> dots_within(grocery_entry_clocks(m)[k], grocery_clock(m))
}

/// The clock `rm` lists each actor of the dots `e`, with a counter at least
/// the actor's counter in `e`.
pub open spec fn removes_all(e: Map<Actor, u64>, rm: Map<Actor, u64>) -> bool {
    forall|a: Actor| #[trigger] e.contains_key(a) ==> rm.contains_key(a) && rm[a] >= e[a]
}

/// `Map::new`: no item, and a clock that holds no actor.
#[verifier::external_body]
pub(crate) fn map_new() -> (fresh: Groceries)
    ensures
        grocery_values(fresh).is_empty(),
        grocery_clock(fresh).is_empty(),
        grocery_entries(fresh).is_empty(),
        grocery_deferred(fresh).is_empty(),
        grocery_view(fresh) == empty_view(),
{
    Groceries { inner: crdts::Map::new() }
}

/// `Map::clone` (derived): the same items, item clocks and clock.
#[verifier::external_body]
pub(crate) fn map_clone(m: &Groceries) -> (copy: Groceries)
    ensures
        grocery_values(copy) == grocery_values(*m),
        grocery_clock(copy) == grocery_clock(*m),
        grocery_entry_clocks(copy) == grocery_entry_clocks(*m),
        grocery_entries(copy) == grocery_entries(*m),
        grocery_deferred(copy) == grocery_deferred(*m),
        grocery_view(copy) == grocery_view(*m),
{
    Groceries { inner: m.inner.clone() }
}

/// `Map::read_ctx().add_clock`: a copy of the map's clock.
#[verifier::external_body]
pub(crate) fn map_read_clock(m: &Groceries) -> (c: Clock)
    ensures
        clock_dots(c) == grocery_clock(*m),
{
    m.inner.read_ctx().add_clock
}

/// `Map::get(..).val`: the register of an item, where the map holds the item.
#[verifier::external_body]
pub(crate) fn map_get(m: &Groceries, key: &str) -> (r: Option<Grocery>)
    ensures
        r is Some == grocery_values(*m).contains_key(key@),
        r matches Some(g) ==> register_values(g) == grocery_values(*m)[key@],
{
    m.inner.get(&key.to_owned()).val
}

/// `MVReg::read().val`: the values of a register.
#[verifier::external_body]
pub(crate) fn register_read(r: &Grocery) -> (vals: Vec<bool>)
    ensures
        vals@ == register_values(*r),
{
    r.read().val
}

/// `Map::iter`: every item with its register, each item once.
#[verifier::external_body]
pub(crate) fn map_entries(m: &Groceries) -> (items: Vec<(String, Grocery)>)
    ensures
        items@.len() == grocery_values(*m).dom().len(),
        forall|i: int|
            0 <= i < items@.len() ==> #[trigger] grocery_values(*m).contains_key(items@[i].0@)
                && register_values(items@[i].1) == grocery_values(*m)[items@[i].0@],
        forall|i: int, j: int|
            0 <= i < j < items@.len() ==> #[trigger] items@[i].0@ != #[trigger] items@[j].0@,
        forall|k: Seq<char>|
            #[trigger] grocery_values(*m).contains_key(k) ==> exists|i: int|
                0 <= i < items@.len() && #[trigger] items@[i].0@ == k,
{
    m.inner.iter().map(|item| (item.val.0.clone(), item.val.1.clone())).collect()
}

/// What applying `op` to the map `m0` is known to give `m1`: a write whose dot
/// the map's clock already holds changes nothing; another write adds its dot to
/// the map's clock. A removal leaves the clock and every item outside its key set
/// as they were, adds no item, and takes out each item of its key set whose
/// clock it removes all of.
pub open spec fn applied(m0: Groceries, m1: Groceries, op: OpView) -> bool {
    match op {
        OpView::Up { actor, counter, .. } => if counter_of(grocery_clock(m0), actor) >= counter {
            &&& grocery_values(m1) == grocery_values(m0)
            &&& grocery_clock(m1) == grocery_clock(m0)
            &&& grocery_entry_clocks(m1) == grocery_entry_clocks(m0)
        } else {
            grocery_clock(m1) == grocery_clock(m0).insert(actor, counter)
        },
        OpView::Rm { keyset, .. } => {
            &&& grocery_clock(m1) == grocery_clock(m0)
            &&& forall|k: Seq<char>|
                #[trigger] grocery_values(m1).contains_key(k) ==> grocery_values(m0).contains_key(k)
            &&& forall|k: Seq<char>|
                !keyset.contains(k) && #[trigger] grocery_values(m0).contains_key(k) ==> grocery_values(
                    m1,
                ).contains_key(k) && grocery_values(m1)[k] == grocery_values(m0)[k]
            &&& forall|k: Seq<char>|
                keyset.contains(k) && #[trigger] grocery_values(m0).contains_key(k) && removes_all(
                    grocery_entry_clocks(m0)[k],
                    op->Rm_clock,
                ) ==> !grocery_values(m1).contains_key(k)
        },
    }
}

/// `Map::apply` (`CmRDT`): what the map holds afterwards is `apply_step` of
/// what it held (`lemma_apply_facts` draws consequences from it).
#[verifier::external_body]
pub(crate) fn map_apply(m: &mut Groceries, op: GroceryOp)
    ensures
        grocery_view(*final(m)) == apply_step(grocery_view(*old(m)), op@),
{
    let op = match op {
        GroceryOp::Rm { clock, keyset } => crdts::map::Op::Rm { clock, keyset },
        GroceryOp::Up { actor, counter, key, clock, val } => crdts::map::Op::Up {
            dot: crdts::Dot { actor, counter },
            key,
            op: crdts::mvreg::Op::Put { clock, val },
        },
    };
    crdts::CmRDT::apply(&mut m.inner, op)
}

/// `Map::merge` (`CvRDT`): what the map holds afterwards is `merge_step` of
/// what the two maps held (`lemma_merge_facts` draws consequences from it).
#[verifier::external_body]
pub(crate) fn map_merge(m: &mut Groceries, other: Groceries)
    ensures
        grocery_view(*final(m)) == merge_step(grocery_view(*old(m)), grocery_view(other)),
{
    crdts::CvRDT::merge(&mut m.inner, other.inner)
}


/// A filter that keeps nothing of `s` gives nothing.
proof fn lemma_filter_none<A>(s: Seq<A>, pred: spec_fn(A) -> bool)
    requires
        forall|i: int| 0 <= i < s.len() ==> !pred(#[trigger] s[i]),
    ensures
        s.filter(pred) == Seq::<A>::empty(),
    decreases s.len(),
{
    reveal(Seq::filter);
    if s.len() > 0 {
        let p = s.drop_last();
        assert forall|i: int| 0 <= i < p.len() implies !pred(#[trigger] p[i]) by {
            assert(p[i] == s[i]);
        }
        lemma_filter_none(p, pred);
        assert(!pred(s[s.len() - 1]));
    }
}

/// A filter that keeps the one element of a sequence gives that sequence.
proof fn lemma_filter_one<A>(x: A, pred: spec_fn(A) -> bool)
    requires
        pred(x),
    ensures
        seq![x].filter(pred) == seq![x],
{
    reveal_with_fuel(Seq::filter, 2);
    assert(seq![x].drop_last() =~= Seq::<A>::empty());
    assert(seq![x].drop_last().filter(pred) =~= Seq::<A>::empty());
    assert(Seq::<A>::empty().push(x) =~= seq![x]);
}

/// A write supersedes what an item holds: it is new to the map, its clock
/// lists its dot, every value of the item has a clock strictly below the
/// write's clock, and no deferred removal of the item lists the writer at the
/// write's counter or above.
pub open spec fn write_supersedes(v: GroceryView, op: OpView) -> bool {
    &&& op is Up
    &&& counter_of(v.clock, op->Up_actor) < op->Up_counter
    &&& op->Up_clock.contains_key(op->Up_actor) && op->Up_clock[op->Up_actor] == op->Up_counter
    &&& forall|i: int|
        0 <= i < item_register(v, op->Up_key).len() ==> dots_lt(
            #[trigger] item_register(v, op->Up_key)[i].0,
            op->Up_clock,
        )
    &&& forall|c: Dots| #[trigger] removals_of(v.deferred, op->Up_key).contains(c) ==> !(c.contains_key(op->Up_actor)
        && c[op->Up_actor] >= op->Up_counter)
}

/// The register of the item `key`, empty where the map does not hold it.
pub open spec fn item_register(v: GroceryView, key: Seq<char>) -> Register {
    if v.entries.contains_key(key) {
        v.entries[key].1
    } else {
        Seq::empty()
    }
}

/// A write that supersedes what its item holds leaves the item holding its
/// value alone.
pub proof fn lemma_write_reads_back(v: GroceryView, op: OpView)
    requires
        write_supersedes(v, op),
    ensures
        apply_step(v, op).entries.contains_key(op->Up_key),
        register_vals(apply_step(v, op).entries[op->Up_key].1) == seq![op->Up_val],
{
    let (actor, counter, key, clock, val) = (op->Up_actor, op->Up_counter, op->Up_key, op->Up_clock, op->Up_val);
    let e0: Entry = if v.entries.contains_key(key) {
        v.entries[key]
    } else {
        (Map::empty(), Seq::empty())
    };
    let pred = |p: (Dots, bool)| p.0 != clock && !dots_lt(p.0, clock);
    let reg = item_register(v, key);
    assert(e0.1 == reg);
    assert forall|i: int| 0 <= i < e0.1.len() implies !pred(#[trigger] e0.1[i]) by {
        assert(dots_lt(reg[i].0, clock));
    }
    lemma_filter_none(e0.1, pred);
    assert(clock != Map::<Actor, u64>::empty()) by {
        assert(clock.dom().contains(actor));
    }
    let kept = e0.1.filter(pred);
    assert(kept.len() == 0);
    let reg1 = register_put(e0.1, clock, val);
    assert(reg1 =~= seq![(clock, val)]);
    let ec1 = dots_apply(e0.0, actor, counter);
    assert(ec1.contains_key(actor) && ec1[actor] >= counter);
    let e1: Entry = (ec1, reg1);
    let es = v.entries.insert(key, e1);
    assert(es[key] == e1);
    let cs = removals_of(v.deferred, key);
    let out = entry_after_removals(e1, cs);
    if cs != Set::<Dots>::empty() {
        let ec = dots_reset_all(ec1, cs);
        assert(ec.contains_key(actor)) by {
            if exists|c: Dots| #[trigger] cs.contains(c) && c.contains_key(actor) && c[actor] >= ec1[actor] {
                let c = choose|c: Dots| #[trigger] cs.contains(c) && c.contains_key(actor) && c[actor] >= ec1[actor];
                assert(false);
            }
        }
        assert(ec != Map::<Actor, u64>::empty()) by {
            assert(ec.dom().contains(actor));
        }
        let rc = dots_reset_all(clock, cs);
        assert(rc.contains_key(actor)) by {
            if exists|c: Dots| #[trigger] cs.contains(c) && c.contains_key(actor) && c[actor] >= clock[actor] {
                let c = choose|c: Dots| #[trigger] cs.contains(c) && c.contains_key(actor) && c[actor] >= clock[actor];
                assert(false);
            }
        }
        assert(rc != Map::<Actor, u64>::empty()) by {
            assert(rc.dom().contains(actor));
        }
        let mapped = reg1.map_values(|p: (Dots, bool)| (dots_reset_all(p.0, cs), p.1));
        assert(mapped =~= seq![(rc, val)]);
        lemma_filter_one((rc, val), |p: (Dots, bool)| p.0 != Map::<Actor, u64>::empty());
        assert(out == Some((ec, seq![(rc, val)])));
        assert(register_vals(seq![(rc, val)]) =~= seq![val]);
    } else {
        assert(register_vals(reg1) =~= seq![val]);
    }
    assert(apply_step(v, op).entries == entries_after_removals(es, v.deferred));
}


/// Every value of the item `key` has a clock within the map's clock.
pub open spec fn item_values_within(v: GroceryView, key: Seq<char>) -> bool {
    forall|i: int| 0 <= i < item_register(v, key).len() ==> covers(v.clock, #[trigger] item_register(v, key)[i].0)
}

/// The map keeps no removal of the item `key` for later.
pub open spec fn no_pending_removal(v: GroceryView, key: Seq<char>) -> bool {
    removals_of(v.deferred, key) == Set::<Dots>::empty()
}

/// A peer's own next write, made with its map's clock advanced by one dot,
/// supersedes an item whose values' clocks are within the map's clock and of
/// which no removal is pending.
pub proof fn lemma_own_write_supersedes(v: GroceryView, op: OpView)
    requires
        op is Up,
        op->Up_counter == counter_of(v.clock, op->Up_actor) + 1,
        op->Up_clock == v.clock.insert(op->Up_actor, op->Up_counter),
        item_values_within(v, op->Up_key),
        no_pending_removal(v, op->Up_key),
    ensures
        write_supersedes(v, op),
{
    let (actor, n, c) = (op->Up_actor, op->Up_counter, op->Up_clock);
    let reg = item_register(v, op->Up_key);
    assert forall|i: int| 0 <= i < reg.len() implies dots_lt(#[trigger] reg[i].0, c) by {
        let vc = reg[i].0;
        assert(covers(v.clock, vc));
        assert forall|a: Actor| #[trigger] counter_of(c, a) >= counter_of(vc, a) by {
            assert(counter_of(v.clock, a) >= counter_of(vc, a));
        }
        assert(counter_of(v.clock, actor) >= counter_of(vc, actor));
        assert(counter_of(c, actor) > counter_of(vc, actor));
        assert(!covers(vc, c));
    }
    assert forall|cl: Dots| #[trigger] removals_of(v.deferred, op->Up_key).contains(cl) implies !(cl.contains_key(actor)
        && cl[actor] >= n) by {
        assert(!Set::<Dots>::empty().contains(cl));
    }
}


/// The counter of an actor after `VClock::merge` is the larger of its two
/// counters.
pub proof fn lemma_dots_merge_counter(x: Dots, y: Dots, a: Actor)
    ensures
        counter_of(dots_merge(x, y), a) == if counter_of(x, a) >= counter_of(y, a) {
            counter_of(x, a)
        } else {
            counter_of(y, a)
        },
{
}

/// Resetting an item keeps a part of its clock.
proof fn lemma_reset_all_within(x: Dots, cs: Set<Dots>, c: Dots)
    requires
        dots_within(x, c),
    ensures
        dots_within(dots_reset_all(x, cs), c),
{
}

/// The items after removals keep parts of the clocks they had.
proof fn lemma_removals_within(es: Map<Seq<char>, Entry>, d: Map<Dots, Set<Seq<char>>>, c: Dots)
    requires
        forall|k: Seq<char>| #[trigger] es.contains_key(k) ==> dots_within(es[k].0, c),
    ensures
        forall|k: Seq<char>|
            #[trigger] entries_after_removals(es, d).contains_key(k) ==> dots_within(entries_after_removals(es, d)[k].0, c),
{
    assert forall|k: Seq<char>| #[trigger] entries_after_removals(es, d).contains_key(k) implies dots_within(
        entries_after_removals(es, d)[k].0,
        c,
    ) by {
        let cs = removals_of(d, k);
        if cs != Set::<Dots>::empty() {
            lemma_reset_all_within(es[k].0, cs, c);
        }
    }
}

/// Dots within a clock are within a clock that covers it.
proof fn lemma_within_larger(x: Dots, c1: Dots, c2: Dots)
    requires
        dots_within(x, c1),
        covers(c2, c1),
    ensures
        dots_within(x, c2),
{
    assert forall|a: Actor| #[trigger] x.contains_key(a) implies 0 < x[a] && x[a] <= counter_of(c2, a) by {
        assert(counter_of(c2, a) >= counter_of(c1, a));
    }
}

/// What `applied` and the `entries_within` preservation say follows from
/// `apply_step`.
pub proof fn lemma_apply_facts(m0: Groceries, m1: Groceries, op: OpView)
    requires
        grocery_view(m1) == apply_step(grocery_view(m0), op),
    ensures
        applied(m0, m1, op),
        entries_within(m0) ==> entries_within(m1),
{
    let v = grocery_view(m0);
    let w = grocery_view(m1);
    match op {
        OpView::Up { actor, counter, key, clock, val } => {
            if counter_of(v.clock, actor) >= counter {
                assert(grocery_values(m1) =~= grocery_values(m0));
                assert(grocery_entry_clocks(m1) =~= grocery_entry_clocks(m0));
            } else {
                if entries_within(m0) {
                    let e0: Entry = if v.entries.contains_key(key) {
                        v.entries[key]
                    } else {
                        (Map::empty(), Seq::empty())
                    };
                    let e1: Entry = (dots_apply(e0.0, actor, counter), register_put(e0.1, clock, val));
                    let es = v.entries.insert(key, e1);
                    assert(covers(w.clock, v.clock)) by {
                        assert forall|a: Actor| #[trigger] counter_of(w.clock, a) >= counter_of(v.clock, a) by {}
                    }
                    assert forall|k: Seq<char>| #[trigger] es.contains_key(k) implies dots_within(es[k].0, w.clock) by {
                        if k == key {
                            if v.entries.contains_key(key) {
                                assert(grocery_values(m0).contains_key(key));
                                assert(dots_within(grocery_entry_clocks(m0)[key], v.clock));
                                lemma_within_larger(e0.0, v.clock, w.clock);
                            }
                            assert forall|a: Actor| #[trigger] e1.0.contains_key(a) implies 0 < e1.0[a] && e1.0[a]
                                <= counter_of(w.clock, a) by {
                                if a != actor || !(counter_of(e0.0, actor) < counter) {
                                    assert(e0.0.contains_key(a));
                                }
                            }
                        } else {
                            assert(grocery_values(m0).contains_key(k));
                            assert(dots_within(grocery_entry_clocks(m0)[k], v.clock));
                            lemma_within_larger(es[k].0, v.clock, w.clock);
                        }
                    }
                    lemma_removals_within(es, v.deferred, w.clock);
                    assert forall|k: Seq<char>| #[trigger] grocery_values(m1).contains_key(k) implies dots_within(
                        grocery_entry_clocks(m1)[k],
                        grocery_clock(m1),
                    ) by {
                        assert(w.entries.contains_key(k));
                    }
                }
            }
        },
        OpView::Rm { clock, keyset } => {
            let d = map![clock => keyset];
            assert forall|k: Seq<char>| #[trigger] grocery_values(m1).contains_key(k) implies grocery_values(
                m0,
            ).contains_key(k) by {
                assert(w.entries.contains_key(k));
            }
            assert forall|k: Seq<char>|
                !keyset.contains(k) && #[trigger] grocery_values(m0).contains_key(k) implies grocery_values(
                    m1,
                ).contains_key(k) && grocery_values(m1)[k] == grocery_values(m0)[k] by {
                assert(removals_of(d, k) =~= Set::<Dots>::empty());
                assert(v.entries.contains_key(k));
            }
            assert forall|k: Seq<char>|
                keyset.contains(k) && #[trigger] grocery_values(m0).contains_key(k) && removes_all(
                    grocery_entry_clocks(m0)[k],
                    clock,
                ) implies !grocery_values(m1).contains_key(k) by {
                let cs = removals_of(d, k);
                assert(cs.contains(clock));
                let e = v.entries[k];
                assert(e.0 == grocery_entry_clocks(m0)[k]);
                assert(dots_reset_all(e.0, cs) =~= Map::<Actor, u64>::empty()) by {
                    assert forall|a: Actor| e.0.contains_key(a) implies (exists|c: Dots|
                        #[trigger] cs.contains(c) && c.contains_key(a) && c[a] >= e.0[a]) by {
                        assert(cs.contains(clock) && clock.contains_key(a) && clock[a] >= e.0[a]);
                    }
                }
                assert(!w.entries.contains_key(k));
            }
            if entries_within(m0) {
                assert forall|k: Seq<char>| #[trigger] v.entries.contains_key(k) implies dots_within(v.entries[k].0, v.clock) by {
                    assert(grocery_values(m0).contains_key(k));
                }
                lemma_removals_within(v.entries, d, v.clock);
                assert forall|k: Seq<char>| #[trigger] grocery_values(m1).contains_key(k) implies dots_within(
                    grocery_entry_clocks(m1)[k],
                    grocery_clock(m1),
                ) by {
                    assert(w.entries.contains_key(k));
                }
            }
        },
    }
}


/// The merge of two sets of dots within a clock is within it.
proof fn lemma_merge_within(x: Dots, y: Dots, c: Dots)
    requires
        dots_within(x, c),
        dots_within(y, c),
    ensures
        dots_within(dots_merge(x, y), c),
{
}

/// Part of a set of dots within a clock is within it.
proof fn lemma_part_within(x: Dots, part: Set<Actor>, c: Dots)
    requires
        dots_within(x, c),
    ensures
        dots_within(x.restrict(part), c),
{
}

/// What the clock and `entries_within` clauses of a merge say follows from
/// `merge_step`.
pub proof fn lemma_merge_facts(m0: Groceries, other: Groceries, m1: Groceries)
    requires
        grocery_view(m1) == merge_step(grocery_view(m0), grocery_view(other)),
    ensures
        forall|a: Actor| #[trigger]
            counter_of(grocery_clock(m1), a) == if counter_of(grocery_clock(m0), a) >= counter_of(grocery_clock(other), a) {
                counter_of(grocery_clock(m0), a)
            } else {
                counter_of(grocery_clock(other), a)
            },
        entries_within(m0) && entries_within(other) ==> entries_within(m1),
{
    let s = grocery_view(m0);
    let o = grocery_view(other);
    let c4 = dots_merge(s.clock, o.clock);
    assert forall|a: Actor| #[trigger] counter_of(grocery_clock(m1), a) == if counter_of(grocery_clock(m0), a)
        >= counter_of(grocery_clock(other), a) {
        counter_of(grocery_clock(m0), a)
    } else {
        counter_of(grocery_clock(other), a)
    } by {
        lemma_dots_merge_counter(s.clock, o.clock, a);
    }
    if entries_within(m0) && entries_within(other) {
        assert(covers(c4, s.clock)) by {
            assert forall|a: Actor| #[trigger] counter_of(c4, a) >= counter_of(s.clock, a) by {
                lemma_dots_merge_counter(s.clock, o.clock, a);
            }
        }
        assert(covers(c4, o.clock)) by {
            assert forall|a: Actor| #[trigger] counter_of(c4, a) >= counter_of(o.clock, a) by {
                lemma_dots_merge_counter(s.clock, o.clock, a);
            }
        }
        assert forall|k: Seq<char>| #[trigger] s.entries.contains_key(k) implies dots_within(s.entries[k].0, c4) by {
            assert(grocery_values(m0).contains_key(k));
            assert(dots_within(grocery_entry_clocks(m0)[k], s.clock));
            lemma_within_larger(s.entries[k].0, s.clock, c4);
        }
        assert forall|k: Seq<char>| #[trigger] o.entries.contains_key(k) implies dots_within(o.entries[k].0, c4) by {
            assert(grocery_values(other).contains_key(k));
            assert(dots_within(grocery_entry_clocks(other)[k], o.clock));
            lemma_within_larger(o.entries[k].0, o.clock, c4);
        }
        let merged = Map::new(
            |k: Seq<char>| merged_entry(s, o, k) is Some,
            |k: Seq<char>| merged_entry(s, o, k)->Some_0,
        );
        assert forall|k: Seq<char>| #[trigger] merged.contains_key(k) implies dots_within(merged[k].0, c4) by {
            if s.entries.contains_key(k) && o.entries.contains_key(k) {
                let se = s.entries[k];
                let oe = o.entries[k];
                lemma_part_within(oe.0, Set::new(|a: Actor| counter_of(se.0, a) == oe.0[a]), c4);
                lemma_part_within(oe.0, Set::new(|a: Actor| !(s.clock.contains_key(a) && s.clock[a] >= oe.0[a])), c4);
                lemma_part_within(se.0, Set::new(|a: Actor| !(o.clock.contains_key(a) && o.clock[a] >= se.0[a])), c4);
                lemma_merge_within(dots_common(oe.0, se.0), dots_reset(oe.0, s.clock), c4);
                lemma_merge_within(
                    dots_merge(dots_common(oe.0, se.0), dots_reset(oe.0, s.clock)),
                    dots_reset(se.0, o.clock),
                    c4,
                );
            } else if s.entries.contains_key(k) {
                let se = s.entries[k];
                lemma_part_within(se.0, Set::new(|a: Actor| !(o.clock.contains_key(a) && o.clock[a] >= se.0[a])), c4);
            } else {
                let oe = o.entries[k];
                lemma_part_within(oe.0, Set::new(|a: Actor| !(s.clock.contains_key(a) && s.clock[a] >= oe.0[a])), c4);
            }
        }
        lemma_removals_within(merged, o.deferred, c4);
        let e3 = entries_after_removals(merged, o.deferred);
        let d3 = removals_join(s.deferred, uncovered(o.deferred, s.clock));
        lemma_removals_within(e3, d3, c4);
        let w = grocery_view(m1);
        assert forall|k: Seq<char>| #[trigger] grocery_values(m1).contains_key(k) implies dots_within(
            grocery_entry_clocks(m1)[k],
            grocery_clock(m1),
        ) by {
            assert(w.entries.contains_key(k));
        }
    }
}

} // verus!
