//! Vector clocks of the `crdts` crate, and the actors that they count.
use vstd::prelude::*;

verus! {

broadcast use vstd::array::group_array_axioms;

/// An actor is a peer, identified by the 32 bytes of its public key.
pub type Actor = [u8; 32];

/// The vector clock type of the `crdts` crate.
pub type Clock = crdts::VClock<Actor>;

#[verifier::external_type_specification]
#[verifier::external_body]
#[verifier::reject_recursive_types(A)]
pub struct ExVClock<A: Ord>(crdts::VClock<A>);

/// The counters that a vector clock holds, by actor.
pub uninterp spec fn clock_dots(c: crdts::VClock<[u8; 32]>) -> Map<[u8; 32], u64>;

/// The counter of `a` among the counters `m`: actors that are absent count 0.
pub open spec fn counter_of(m: Map<Actor, u64>, a: Actor) -> nat {
    if m.contains_key(a) {
        m[a] as nat
    } else {
        0
    }
}

/// The counter of `a` in `c`.
pub open spec fn clock_at(c: Clock, a: Actor) -> nat {
    counter_of(clock_dots(c), a)
}

/// The counters `x` are at least the counters `y`, actor by actor.
pub open spec fn covers(x: Map<Actor, u64>, y: Map<Actor, u64>) -> bool {
    forall|a: Actor| #[trigger] counter_of(x, a) >= counter_of(y, a)
}

/// `x` has seen everything that `y` has seen.
pub open spec fn dominates(x: Clock, y: Clock) -> bool {
    covers(clock_dots(x), clock_dots(y))
}

/// The counters `x` are strictly behind the counters `y`: `y` covers `x`, and
/// `x` does not cover `y`.
pub open spec fn behind(x: Map<Actor, u64>, y: Map<Actor, u64>) -> bool {
    covers(y, x) && !covers(x, y)
}

/// `x` is strictly behind `y`.
pub open spec fn strictly_behind(x: Clock, y: Clock) -> bool {
    behind(clock_dots(x), clock_dots(y))
}

/// `VClock::new`: a clock that holds no actor.
#[verifier::external_body]
pub(crate) fn clock_new() -> (fresh: Clock)
    ensures
        clock_dots(fresh).is_empty(),
{
    crdts::VClock::new()
}

/// `VClock::clone` (derived): the copy holds the same counters.
#[verifier::external_body]
pub(crate) fn clock_clone(c: &Clock) -> (r: Clock)
    ensures
        clock_dots(r) == clock_dots(*c),
{
    c.clone()
}

/// `VClock::get`: the counter of an actor, 0 where the clock does not hold it.
#[verifier::external_body]
pub(crate) fn clock_get(c: &Clock, a: &Actor) -> (n: u64)
    ensures
        n == clock_at(*c, *a),
{
    c.get(a)
}

/// `VClock::inc`: the dot that follows the actor's counter, as (actor, counter + 1);
/// the clock itself is not changed. The addition overflows at `u64::MAX`, which is
/// left out.
#[verifier::external_body]
pub(crate) fn clock_inc(c: &Clock, a: Actor) -> (d: (Actor, u64))
    requires
        clock_at(*c, a) < u64::MAX,
    ensures
        d.0 == a,
        d.1 == clock_at(*c, a) + 1,
{
    let dot = c.inc(a);
    (dot.actor, dot.counter)
}

/// `VClock::apply` of the dot (actor, counter): the counter is stored where it is
/// larger than the actor's current one, and nothing changes otherwise.
#[verifier::external_body]
pub(crate) fn clock_apply(c: &mut Clock, actor: Actor, counter: u64)
    ensures
        clock_dots(*final(c)) == (if clock_at(*old(c), actor) < counter {
            clock_dots(*old(c)).insert(actor, counter)
        } else {
            clock_dots(*old(c))
        }),
{
    crdts::CmRDT::apply(c, crdts::Dot { actor, counter })
}

/// `VClock::merge`: each actor ends with the larger of its two counters.
#[verifier::external_body]
pub(crate) fn clock_merge(c: &mut Clock, other: Clock)
    ensures
        forall|a: Actor| #[trigger]
            clock_at(*final(c), a) == if clock_at(*old(c), a) >= clock_at(other, a) {
                clock_at(*old(c), a)
            } else {
                clock_at(other, a)
            },
{
    crdts::CvRDT::merge(c, other)
}

/// `VClock >= VClock` (through `partial_cmp`): true exactly when the left clock
/// has every counter of the right one.
#[verifier::external_body]
pub(crate) fn clock_ge(x: &Clock, y: &Clock) -> (r: bool)
    ensures
        r == dominates(*x, *y),
{
    x >= y
}

/// `VClock < VClock` (through `partial_cmp`): true exactly when the right clock
/// has every counter of the left one and the left one lacks some counter of the
/// right one.
#[verifier::external_body]
pub(crate) fn clock_lt(x: &Clock, y: &Clock) -> (r: bool)
    ensures
        r == strictly_behind(*x, *y),
{
    x < y
}

/// Byte-wise equality of two actors.
pub fn actors_equal(a: &Actor, b: &Actor) -> (r: bool)
    ensures
        r == (*a == *b),
{
    let mut i: usize = 0;
    while i < 32
        invariant
            0 <= i <= 32,
            forall|j: int| 0 <= j < i ==> a@[j] == b@[j],
        decreases 32 - i,
    {
        if a[i] != b[i] {
            return false;
        }
        i = i + 1;
    }
    proof {
        assert(a@ =~= b@);
        vstd::array::axiom_array_ext_equal(*a, *b);
    }
    true
}

} // verus!
