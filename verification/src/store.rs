//! The entity store: an arena of component slots keyed by a
//! generation-checked index.  It is the single mutation authority for all
//! component data; destroying an id retires it for good, and freed slots are
//! reused only under a fresh generation, so a stale id can never come back
//! to life.

use vstd::prelude::*;
use crate::geom::{Shape, Vec2i, WORLD_LIMIT, shape_in_range, vec2_in_range};

verus! {

/// A brick starts with this much health and loses one point per separation.
pub const INITIAL_BRICK_HEALTH: i64 = 2;

#[derive(Clone, Copy, PartialEq, Eq, Structural, Debug)]
pub enum EntityKind {
    Ball,
    Paddle,
    Brick,
    Wall,
}

/// One entity's components.  `health` matters only for bricks and `speed`
/// only for the paddle; both stay in range for every kind.
#[derive(Clone, Copy, PartialEq, Eq, Structural, Debug)]
pub struct Entity {
    pub kind: EntityKind,
    pub pos: Vec2i,
    pub vel: Vec2i,
    pub shape: Shape,
    pub health: i64,
    pub speed: i64,
}

/// A handle into the store.  The id is live only while the slot it names
/// still carries the generation it was created under.
#[derive(Clone, Copy, PartialEq, Eq, Structural, Debug)]
pub struct EntityId {
    pub index: usize,
    pub generation: u64,
}

#[derive(Clone, Copy, PartialEq, Debug)]
pub struct Slot {
    pub generation: u64,
    pub entity: Option<Entity>,
}

#[derive(Clone, PartialEq, Debug)]
pub struct Store {
    pub slots: Vec<Slot>,
}

pub open spec fn ent_wf(e: Entity) -> bool {
    &&& vec2_in_range(e.pos)
    &&& vec2_in_range(e.vel)
    &&& shape_in_range(e.shape)
    &&& 0 <= e.health <= INITIAL_BRICK_HEALTH
    &&& 0 <= e.speed <= WORLD_LIMIT
}

pub open spec fn slot_wf(s: Slot) -> bool {
    &&& s.generation == u64::MAX ==> s.entity is None
    &&& s.entity is Some ==> ent_wf(s.entity->Some_0)
}

impl Store {
    pub open spec fn wf(self) -> bool {
        forall|i: int| 0 <= i < self.slots@.len() ==> slot_wf(#[trigger] self.slots@[i])
    }

    /// The id names a slot that still carries its generation and an entity.
    pub open spec fn alive(self, id: EntityId) -> bool {
        &&& (id.index as int) < self.slots@.len()
        &&& self.slots@[id.index as int].generation == id.generation
        &&& self.slots@[id.index as int].entity is Some
    }

    pub open spec fn ent(self, id: EntityId) -> Entity {
        self.slots@[id.index as int].entity->Some_0
    }

    /// The id's slot has moved past its generation: the id can never be
    /// live again.  (A slot whose generation has reached the maximum is
    /// never refilled, so ids of such a slot are retired as well.)
    pub open spec fn retired(self, id: EntityId) -> bool {
        &&& (id.index as int) < self.slots@.len()
        &&& (self.slots@[id.index as int].generation > id.generation
            || self.slots@[id.index as int].generation == u64::MAX)
    }

    /// Places an entity in a freed slot if one exists (under that slot's
    /// current generation), otherwise appends a fresh slot.  The returned id
    /// is live, was not live before the call, and no retired id is revived.
    pub fn create(&mut self, e: Entity) -> (id: EntityId)
        requires
            old(self).wf(),
            ent_wf(e),
        ensures
            final(self).wf(),
            final(self).alive(id),
            final(self).ent(id) == e,
            !old(self).alive(id),
            final(self).slots@.len() >= old(self).slots@.len(),
            forall|j: EntityId| #[trigger] old(self).alive(j) ==> final(self).alive(j)
                && final(self).ent(j) == old(self).ent(j),
            forall|j: EntityId|
                !old(self).alive(j) && j != id ==> !(#[trigger] final(self).alive(j)),
            forall|j: EntityId| #[trigger] old(self).retired(j) ==> final(self).retired(j),
            (id.index as int) < old(self).slots@.len() ==> old(self).slots@[id.index as int].entity
                is None && id.generation == old(self).slots@[id.index as int].generation && final(self).slots@ == old(self).slots@.update(
                id.index as int,
                Slot { generation: id.generation, entity: Some(e) },
            ),
            (id.index as int) >= old(self).slots@.len() ==> id.index as int == old(self).slots@.len() && id.generation == 0 && final(self).slots@ == old(self).slots@.push(
                Slot { generation: 0, entity: Some(e) },
            ),
    {
        let n = self.slots.len();
        let mut i: usize = 0;
        while i < n
            invariant
                *self == *old(self),
                i <= n,
                n == self.slots@.len(),
                old(self).wf(),
                ent_wf(e),
            decreases n - i,
        {
            let slot = self.slots[i];
            if slot.entity.is_none() && slot.generation < u64::MAX {
                let gen = slot.generation;
                self.slots[i] = Slot { generation: gen, entity: Some(e) };
                let id = EntityId { index: i, generation: gen };
                return id;
            }
            i += 1;
        }
        self.slots.push(Slot { generation: 0, entity: Some(e) });
        EntityId { index: n, generation: 0 }
    }

    /// Reads the components of a live id; a destroyed or stale id yields
    /// `None` rather than an error.
    pub fn get(&self, id: EntityId) -> (r: Option<Entity>)
        ensures
            match r {
                Some(e) => self.alive(id) && e == self.ent(id),
                None => !self.alive(id),
            },
    {
        if id.index < self.slots.len() {
            let slot = self.slots[id.index];
            if slot.generation == id.generation {
                slot.entity
            } else {
                None
            }
        } else {
            None
        }
    }

    /// Overwrites the components of a live id, leaving every other slot as
    /// it was.
    pub fn set(&mut self, id: EntityId, e: Entity)
        requires
            old(self).wf(),
            old(self).alive(id),
            ent_wf(e),
        ensures
            final(self).wf(),
            final(self).slots@ == old(self).slots@.update(
                id.index as int,
                Slot { generation: id.generation, entity: Some(e) },
            ),
            final(self).alive(id),
            final(self).ent(id) == e,
            final(self).slots@.len() == old(self).slots@.len(),
            forall|j: EntityId| #[trigger] old(self).alive(j) <==> final(self).alive(j),
            forall|j: EntityId|
                old(self).alive(j) && j != id ==> final(self).ent(j) == old(self).ent(j),
            forall|j: EntityId| #[trigger] old(self).retired(j) <==> final(self).retired(j),
    {
        proof {
            assert(slot_wf(self.slots@[id.index as int]));
        }
        self.slots[id.index] = Slot { generation: id.generation, entity: Some(e) };
        proof {
            assert forall|j: EntityId| old(self).alive(j) implies final(self).alive(j) by {
                if j.index == id.index {
                    assert(j.generation == id.generation);
                }
            }
        }
    }

    /// Removes the entity behind a live id and retires the id by advancing
    /// the slot's generation.  On a destroyed or stale id the call is a
    /// no-op, never an error, so destroying twice equals destroying once.
    pub fn destroy(&mut self, id: EntityId)
        requires
            old(self).wf(),
        ensures
            final(self).wf(),
            final(self).slots@ == destroy_slots(old(self).slots@, id),
            !final(self).alive(id),
            old(self).alive(id) ==> final(self).retired(id),
            !old(self).alive(id) ==> *final(self) == *old(self),
            final(self).slots@.len() == old(self).slots@.len(),
            forall|j: EntityId|
                old(self).alive(j) && j != id ==> #[trigger] final(self).alive(j)
                    && final(self).ent(j) == old(self).ent(j),
            forall|j: EntityId| !old(self).alive(j) ==> !(#[trigger] final(self).alive(j)),
            forall|j: EntityId| #[trigger] old(self).retired(j) ==> final(self).retired(j),
    {
        if id.index < self.slots.len() {
            let slot = self.slots[id.index];
            if slot.generation == id.generation && slot.entity.is_some() {
                proof {
                    assert(slot_wf(self.slots@[id.index as int]));
                }
                self.slots[id.index] = Slot { generation: id.generation + 1, entity: None };
            }
        }
        proof {
            assert(final(self).slots@ =~= destroy_slots(old(self).slots@, id));
        }
    }
}

/// What `destroy` does to the slot sequence, as a function of the old
/// contents alone.
pub open spec fn destroy_slots(slots: Seq<Slot>, id: EntityId) -> Seq<Slot> {
    if (id.index as int) < slots.len() && slots[id.index as int].generation == id.generation
        && slots[id.index as int].entity is Some {
        slots.update(
            id.index as int,
            Slot { generation: (id.generation + 1) as u64, entity: None },
        )
    } else {
        slots
    }
}

/// A retired id is never live.
pub proof fn lemma_retired_not_alive(s: Store, id: EntityId)
    requires
        s.wf(),
        s.retired(id),
    ensures
        !s.alive(id),
{
    assert(slot_wf(s.slots@[id.index as int]));
}

/// Destroying an id a second time leaves the store exactly as the first
/// call left it: destruction is idempotent.
pub proof fn lemma_destroy_idempotent(slots: Seq<Slot>, id: EntityId)
    ensures
        destroy_slots(destroy_slots(slots, id), id) == destroy_slots(slots, id),
{
    let once = destroy_slots(slots, id);
    if (id.index as int) < slots.len() && slots[id.index as int].generation == id.generation
        && slots[id.index as int].entity is Some {
        assert(once[id.index as int].entity is None);
    }
}

} // verus!
