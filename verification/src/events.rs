//! Contact transitions.  The physics step returns, for one tick, the set of
//! contacts that began and the set that ended, each naming the two
//! participant ids; nothing is coalesced across ticks.

use vstd::prelude::*;
use crate::store::EntityId;

verus! {

#[derive(Clone, Copy, PartialEq, Eq, Structural, Debug)]
pub enum ContactKind {
    Started,
    Stopped,
}

/// Two colliders started or stopped overlapping during this tick's step.
#[derive(Clone, Copy, PartialEq, Eq, Structural, Debug)]
pub struct ContactEvent {
    pub kind: ContactKind,
    pub a: EntityId,
    pub b: EntityId,
}

/// How many times one event hits the entity `id` on separation: a
/// contact-end event hits each of the two ids it names once (twice, were
/// both the same), and a contact-begin event hits nothing.
pub open spec fn event_hits(ev: ContactEvent, id: EntityId) -> int {
    if ev.kind is Stopped {
        (if ev.a == id {
            1int
        } else {
            0int
        }) + (if ev.b == id {
            1int
        } else {
            0int
        })
    } else {
        0
    }
}

/// Total separation hits an event list lands on `id`.
pub open spec fn end_hits(evs: Seq<ContactEvent>, id: EntityId) -> int
    decreases evs.len(),
{
    if evs.len() == 0 {
        0
    } else {
        end_hits(evs.drop_last(), id) + event_hits(evs.last(), id)
    }
}

pub proof fn lemma_end_hits_nonneg(evs: Seq<ContactEvent>, id: EntityId)
    ensures
        end_hits(evs, id) >= 0,
    decreases evs.len(),
{
    if evs.len() > 0 {
        lemma_end_hits_nonneg(evs.drop_last(), id);
    }
}

} // verus!
