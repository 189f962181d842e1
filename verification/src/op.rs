//! Operations on the grocery map, held as plain values.
use crate::clock::{clock_clone, clock_dots, Actor, Clock};
use std::collections::BTreeSet;
use vstd::prelude::*;

verus! {

/// An operation on the grocery map: the removal of a set of keys, seen under a
/// clock, or the write of a value to one key, made at a dot (actor, counter) with
/// the clock of the writer's context.
pub enum GroceryOp {
    Rm { clock: Clock, keyset: BTreeSet<String> },
    Up { actor: Actor, counter: u64, key: String, clock: Clock, val: bool },
}

/// What an operation holds.
pub ghost enum OpView {
    Rm { clock: Map<Actor, u64>, keyset: Set<Seq<char>> },
    Up { actor: Actor, counter: u64, key: Seq<char>, clock: Map<Actor, u64>, val: bool },
}

impl View for GroceryOp {
    type V = OpView;

    open spec fn view(&self) -> OpView {
        match self {
            GroceryOp::Rm { clock, keyset } => OpView::Rm {
                clock: clock_dots(*clock),
                keyset: keyset@.map(|k: String| k@),
            },
            GroceryOp::Up { actor, counter, key, clock, val } => OpView::Up {
                actor: *actor,
                counter: *counter,
                key: key@,
                clock: clock_dots(*clock),
                val: *val,
            },
        }
    }
}

impl GroceryOp {
    /// A copy of the operation.
    pub fn copy(&self) -> (r: GroceryOp)
        ensures
            r@ == self@,
    {
        match self {
            GroceryOp::Rm { clock, keyset } => {
                let ks = keyset.clone();
                GroceryOp::Rm { clock: clock_clone(clock), keyset: ks }
            },
            GroceryOp::Up { actor, counter, key, clock, val } => GroceryOp::Up {
                actor: *actor,
                counter: *counter,
                key: key.clone(),
                clock: clock_clone(clock),
                val: *val,
            },
        }
    }

    /// Whether the operation is a removal.
    pub fn is_rm(&self) -> (r: bool)
        ensures
            r == (self@ is Rm),
    {
        match self {
            GroceryOp::Rm { .. } => true,
            GroceryOp::Up { .. } => false,
        }
    }
}

} // verus!
