//! The collision resolver: one pass over this tick's contact events.
//! Contact-begin events carry no game-state effect; a contact-end event
//! takes one health point from each brick it names (health bottoms out at
//! zero).  After the pass, every brick out of health is marked for
//! destruction.

use vstd::prelude::*;
use crate::store::{Entity, EntityId, EntityKind, Slot, Store, slot_wf};
use crate::events::{ContactEvent, ContactKind, end_hits, event_hits, lemma_end_hits_nonneg};

verus! {

/// Health after taking `n` points of damage, clamped at zero.
pub open spec fn damaged(h: int, n: int) -> int {
    if n <= 0 {
        h
    } else if h >= n {
        h - n
    } else {
        0
    }
}

/// Taking damage never raises health and never drives it negative.
pub proof fn lemma_damaged_monotonic(h: int, n: int)
    requires
        h >= 0,
        n >= 0,
    ensures
        0 <= damaged(h, n) <= h,
{
}

pub open spec fn slots_alive(slots: Seq<Slot>, id: EntityId) -> bool {
    &&& (id.index as int) < slots.len()
    &&& slots[id.index as int].generation == id.generation
    &&& slots[id.index as int].entity is Some
}

/// The id a slot's current occupant answers to.
pub open spec fn slot_id(slots: Seq<Slot>, i: int) -> EntityId {
    EntityId { index: i as usize, generation: slots[i].generation }
}

/// One separation hit on `id`: a live brick loses one health point; any
/// other id is left alone.
pub open spec fn hit_one(slots: Seq<Slot>, id: EntityId) -> Seq<Slot> {
    if slots_alive(slots, id) && slots[id.index as int].entity->Some_0.kind is Brick {
        let e = slots[id.index as int].entity->Some_0;
        slots.update(
            id.index as int,
            Slot {
                generation: id.generation,
                entity: Some(Entity { health: damaged(e.health as int, 1) as i64, ..e }),
            },
        )
    } else {
        slots
    }
}

/// The effect of one contact event: an end event hits both named ids, a
/// begin event does nothing.
pub open spec fn apply_event(slots: Seq<Slot>, ev: ContactEvent) -> Seq<Slot> {
    if ev.kind is Stopped {
        hit_one(hit_one(slots, ev.a), ev.b)
    } else {
        slots
    }
}

/// The effect of a whole tick's event list, applied in order.
pub open spec fn apply_events(slots: Seq<Slot>, evs: Seq<ContactEvent>) -> Seq<Slot>
    decreases evs.len(),
{
    if evs.len() == 0 {
        slots
    } else {
        apply_event(apply_events(slots, evs.drop_last()), evs.last())
    }
}

/// Resolving a tick's events touches nothing but brick health: slot
/// generations, liveness, and every non-health component survive, and a
/// live brick ends with exactly its old health minus its separation hits,
/// clamped at zero.
pub proof fn lemma_apply_events_frame(slots: Seq<Slot>, evs: Seq<ContactEvent>, i: int)
    requires
        0 <= i < slots.len(),
        slots.len() <= usize::MAX,
    ensures
        apply_events(slots, evs).len() == slots.len(),
        apply_events(slots, evs)[i].generation == slots[i].generation,
        apply_events(slots, evs)[i].entity is Some <==> slots[i].entity is Some,
        slots[i].entity is Some ==> {
            let e0 = slots[i].entity->Some_0;
            let e1 = apply_events(slots, evs)[i].entity->Some_0;
            &&& e1.kind == e0.kind
            &&& e1.pos == e0.pos
            &&& e1.vel == e0.vel
            &&& e1.shape == e0.shape
            &&& e1.speed == e0.speed
            &&& e1.health as int == (if e0.kind is Brick {
                damaged(e0.health as int, end_hits(evs, slot_id(slots, i)))
            } else {
                e0.health as int
            })
        },
    decreases evs.len(),
{
    if evs.len() > 0 {
        let prefix = evs.drop_last();
        let ev = evs.last();
        lemma_apply_events_frame(slots, prefix, i);
        let mid = apply_events(slots, prefix);
        lemma_end_hits_nonneg(prefix, slot_id(slots, i));
        assert(apply_events(slots, evs) == apply_event(mid, ev));
        if ev.kind is Stopped {
            let once = hit_one(mid, ev.a);
            lemma_hit_one_at(mid, ev.a, i);
            lemma_hit_one_at(once, ev.b, i);
            if slots[i].entity is Some {
                let e0 = slots[i].entity->Some_0;
                if e0.kind is Brick {
                    let id = slot_id(slots, i);
                    assert(slot_id(mid, i) == id);
                    assert(slot_id(once, i) == id);
                    let h0 = e0.health as int;
                    let n0 = end_hits(prefix, id);
                    let ha = (if ev.a == id {
                        1int
                    } else {
                        0int
                    });
                    let hb = (if ev.b == id {
                        1int
                    } else {
                        0int
                    });
                    assert(damaged(damaged(h0, n0), ha) == damaged(h0, n0 + ha));
                    assert(damaged(damaged(h0, n0 + ha), hb) == damaged(h0, n0 + ha + hb));
                }
            }
        }
    }
}

/// Resolving events never grows or shrinks the store.
pub proof fn lemma_apply_events_len(slots: Seq<Slot>, evs: Seq<ContactEvent>)
    ensures
        apply_events(slots, evs).len() == slots.len(),
    decreases evs.len(),
{
    if evs.len() > 0 {
        lemma_apply_events_len(slots, evs.drop_last());
    }
}

/// One hit touches at most the slot that `id` names, and there only the
/// health of a live brick.
pub proof fn lemma_hit_one_at(slots: Seq<Slot>, id: EntityId, i: int)
    requires
        0 <= i < slots.len(),
        slots.len() <= usize::MAX,
    ensures
        hit_one(slots, id).len() == slots.len(),
        hit_one(slots, id)[i].generation == slots[i].generation,
        hit_one(slots, id)[i].entity is Some <==> slots[i].entity is Some,
        slots[i].entity is Some ==> {
            let e0 = slots[i].entity->Some_0;
            let e1 = hit_one(slots, id)[i].entity->Some_0;
            &&& e1.kind == e0.kind
            &&& e1.pos == e0.pos
            &&& e1.vel == e0.vel
            &&& e1.shape == e0.shape
            &&& e1.speed == e0.speed
            &&& e1.health as int == (if e0.kind is Brick && id == slot_id(slots, i) {
                damaged(e0.health as int, 1)
            } else {
                e0.health as int
            })
        },
{
    if slots_alive(slots, id) && slots[id.index as int].entity->Some_0.kind is Brick {
        let e = slots[id.index as int].entity->Some_0;
        let h1 = damaged(e.health as int, 1);
        assert(0 <= h1 <= i64::MAX as int || h1 <= e.health as int);
        assert(h1 as i64 as int == h1);
        if id.index as int == i {
            assert(id == slot_id(slots, i));
        }
    }
}

/// Applies this tick's contact events to the store.  Only brick health
/// changes, only on contact-end events, and only for the ids those events
/// name — see `lemma_apply_events_frame` for what that leaves of each slot.
pub fn apply_contact_events(store: &mut Store, events: &Vec<ContactEvent>)
    requires
        old(store).wf(),
    ensures
        final(store).wf(),
        final(store).slots@ == apply_events(old(store).slots@, events@),
{
    let ghost slots0 = old(store).slots@;
    let n = events.len();
    let mut k: usize = 0;
    while k < n
        invariant
            store.wf(),
            n == events@.len(),
            k <= n,
            store.slots@ == apply_events(slots0, events@.take(k as int)),
        decreases n - k,
    {
        let ev = events[k];
        proof {
            assert(events@.take(k as int + 1).drop_last() =~= events@.take(k as int));
            assert(events@.take(k as int + 1).last() == events@[k as int]);
        }
        match ev.kind {
            ContactKind::Stopped => {
                apply_end_hit(store, ev.a);
                apply_end_hit(store, ev.b);
            },
            ContactKind::Started => {},
        }
        k += 1;
    }
    proof {
        assert(events@.take(n as int) =~= events@);
    }
}

/// One separation hit, as executed against the store.
fn apply_end_hit(store: &mut Store, id: EntityId)
    requires
        old(store).wf(),
    ensures
        final(store).wf(),
        final(store).slots@ == hit_one(old(store).slots@, id),
{
    if id.index < store.slots.len() {
        let slot = store.slots[id.index];
        if slot.generation == id.generation {
            if let Some(e) = slot.entity {
                match e.kind {
                    EntityKind::Brick => {
                        proof {
                            assert(slot_wf(store.slots@[id.index as int]));
                        }
                        let nh = if e.health >= 1 {
                            e.health - 1
                        } else {
                            0
                        };
                        store.slots[id.index] = Slot {
                            generation: id.generation,
                            entity: Some(Entity { health: nh, ..e }),
                        };
                    },
                    _ => {},
                }
            }
        }
    }
    proof {
        assert(final(store).slots@ =~= hit_one(old(store).slots@, id));
    }
}

pub open spec fn zero_brick_at(slots: Seq<Slot>, i: int) -> bool {
    &&& 0 <= i < slots.len()
    &&& slots[i].entity is Some
    &&& slots[i].entity->Some_0.kind is Brick
    &&& slots[i].entity->Some_0.health <= 0
}

/// Scans the store and returns every live brick whose health has reached
/// zero, ready for the end-of-tick sweep.
pub fn collect_destroyed(store: &Store) -> (marked: Vec<EntityId>)
    ensures
        forall|m: int|
            0 <= m < marked@.len() ==> {
                let id = #[trigger] marked@[m];
                &&& store.alive(id)
                &&& store.ent(id).kind is Brick
                &&& store.ent(id).health <= 0
            },
        forall|i: int|
            zero_brick_at(store.slots@, i) ==> marked@.contains(slot_id(store.slots@, i)),
{
    let mut marked: Vec<EntityId> = Vec::new();
    let n = store.slots.len();
    let mut i: usize = 0;
    while i < n
        invariant
            i <= n,
            n == store.slots@.len(),
            forall|m: int|
                0 <= m < marked@.len() ==> {
                    let id = #[trigger] marked@[m];
                    &&& store.alive(id)
                    &&& store.ent(id).kind is Brick
                    &&& store.ent(id).health <= 0
                },
            forall|j: int|
                0 <= j < i && zero_brick_at(store.slots@, j) ==> marked@.contains(
                    slot_id(store.slots@, j),
                ),
        decreases n - i,
    {
        let slot = store.slots[i];
        if let Some(e) = slot.entity {
            match e.kind {
                EntityKind::Brick => {
                    if e.health <= 0 {
                        let id = EntityId { index: i, generation: slot.generation };
                        let ghost before = marked@;
                        marked.push(id);
                        proof {
                            assert forall|j: int|
                                0 <= j < i + 1 && zero_brick_at(store.slots@, j) implies marked@
                                .contains(slot_id(store.slots@, j)) by {
                                if j < i {
                                    let w = choose|w: int|
                                        0 <= w < before.len() && before[w] == slot_id(
                                            store.slots@,
                                            j,
                                        );
                                    assert(marked@[w] == slot_id(store.slots@, j));
                                } else {
                                    assert(marked@[marked@.len() - 1] == slot_id(store.slots@, j));
                                }
                            }
                        }
                    }
                },
                _ => {},
            }
        }
        i += 1;
    }
    marked
}

} // verus!
