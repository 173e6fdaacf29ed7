//! The simulation: entity store, physics state and the fixed-timestep tick.
//!
//! Each tick runs strictly in order: the input displacement moves the
//! paddle (blocked by the fixed walls), the physics step integrates the
//! ball and reports contact transitions, the resolver drains those events
//! into brick health, and the sweep removes every brick that ran out of
//! health — all before the next tick may begin.

use vstd::prelude::*;
use crate::geom::{
    Vec2i, WORLD_LIMIT, abs_i64, abs_int, boxes_overlap, clip_add, clip_spec, half_h_of,
    half_w_of, in_range, lemma_square_of_abs, overlap, shape_half_h, shape_half_w, spans_overlap,
    vec2_in_range,
};
use crate::store::{Entity, EntityId, EntityKind, Slot, Store, destroy_slots, slot_wf};
use crate::events::{ContactEvent, ContactKind, end_hits, lemma_end_hits_nonneg};
use crate::input::{LogicalInput, displacement_spec, resolve};
use crate::resolver::{
    apply_contact_events, apply_events, collect_destroyed, damaged, lemma_apply_events_frame,
    slot_id, zero_brick_at,
};

verus! {

/// The whole simulation state: the store owns every entity; `ball` and
/// `paddle` are the two singleton handles fixed at setup; `contacts` is the
/// set of entities the ball currently overlaps; `last_dx` is the paddle's
/// most recent kinematic move, which high paddle friction turns into
/// lateral influence on a paddle bounce.
pub struct Sim {
    pub store: Store,
    pub ball: EntityId,
    pub paddle: EntityId,
    pub contacts: Vec<EntityId>,
    pub last_dx: i64,
}

impl Sim {
    pub open spec fn wf(self) -> bool {
        &&& self.store.wf()
        &&& self.store.alive(self.ball)
        &&& self.store.ent(self.ball).kind is Ball
        &&& self.store.alive(self.paddle)
        &&& self.store.ent(self.paddle).kind is Paddle
        // exactly one ball and one paddle exist: any live entity of either
        // kind is the designated one
        &&& forall|j: EntityId|
            #[trigger] self.store.alive(j) && self.store.ent(j).kind is Ball ==> j == self.ball
        &&& forall|j: EntityId|
            #[trigger] self.store.alive(j) && self.store.ent(j).kind is Paddle ==> j
                == self.paddle
        &&& in_range(self.last_dx as int)
        &&& forall|k: int|
            0 <= k < self.contacts@.len() ==> self.store.alive(#[trigger] self.contacts@[k])
                && self.contacts@[k].index != self.ball.index
        &&& forall|k1: int, k2: int|
            0 <= k1 < k2 < self.contacts@.len() ==> (#[trigger] self.contacts@[k1]).index != (
            #[trigger] self.contacts@[k2]).index
    }

    /// Whether the ball is currently in contact with `id`.
    pub fn contacts_contains(&self, id: EntityId) -> (r: bool)
        ensures
            r == self.contacts@.contains(id),
    {
        let n = self.contacts.len();
        let mut k: usize = 0;
        while k < n
            invariant
                k <= n,
                n == self.contacts@.len(),
                forall|m: int| 0 <= m < k ==> self.contacts@[m] != id,
            decreases n - k,
        {
            if self.contacts[k] == id {
                proof {
                    assert(self.contacts@[k as int] == id);
                }
                return true;
            }
            k += 1;
        }
        false
    }

    /// Destroys one entity: removes it from the store (retiring its id)
    /// and deregisters it from the collision space.  Only bricks are ever
    /// destroyed; on an already-dead id the call is a no-op.
    pub fn destroy_entity(&mut self, id: EntityId)
        requires
            old(self).wf(),
            old(self).store.alive(id) ==> old(self).store.ent(id).kind is Brick,
        ensures
            final(self).wf(),
            final(self).ball == old(self).ball,
            final(self).paddle == old(self).paddle,
            final(self).last_dx == old(self).last_dx,
            final(self).store.slots@ == destroy_slots(old(self).store.slots@, id),
            final(self).store.slots@.len() == old(self).store.slots@.len(),
            !final(self).store.alive(id),
            old(self).store.alive(id) ==> final(self).store.retired(id),
            forall|j: EntityId|
                old(self).store.alive(j) && j != id ==> #[trigger] final(self).store.alive(j)
                    && final(self).store.ent(j) == old(self).store.ent(j),
            forall|j: EntityId|
                !old(self).store.alive(j) ==> !(#[trigger] final(self).store.alive(j)),
            forall|j: EntityId|
                #[trigger] old(self).store.retired(j) ==> final(self).store.retired(j),
            forall|c: EntityId|
                #[trigger] final(self).contacts@.contains(c) <==> old(self).contacts@.contains(c)
                    && c != id,
    {
        self.store.destroy(id);
        let ghost olds = *old(self);
        let n = self.contacts.len();
        let mut kept: Vec<EntityId> = Vec::new();
        let mut m: usize = 0;
        while m < n
            invariant
                m <= n,
                olds.wf(),
                n == olds.contacts@.len(),
                self.contacts@ == olds.contacts@,
                forall|k: int|
                    0 <= k < kept@.len() ==> exists|j: int|
                        0 <= j < m && olds.contacts@[j] == #[trigger] kept@[k],
                forall|k: int| 0 <= k < kept@.len() ==> #[trigger] kept@[k] != id,
                forall|k1: int, k2: int|
                    0 <= k1 < k2 < kept@.len() ==> (#[trigger] kept@[k1]).index != (
                    #[trigger] kept@[k2]).index,
                forall|j: int|
                    0 <= j < m && olds.contacts@[j] != id ==> kept@.contains(
                        #[trigger] olds.contacts@[j],
                    ),
            decreases n - m,
        {
            let c = self.contacts[m];
            if !(c == id) {
                let ghost before = kept@;
                kept.push(c);
                proof {
                    assert(kept@[kept@.len() - 1] == olds.contacts@[m as int]);
                    assert forall|k: int| 0 <= k < kept@.len() implies exists|j: int|
                        0 <= j < m + 1 && olds.contacts@[j] == #[trigger] kept@[k] by {
                        if k < before.len() {
                            assert(kept@[k] == before[k]);
                            let j = choose|j: int| 0 <= j < m && olds.contacts@[j] == before[k];
                            assert(0 <= j < m + 1 && olds.contacts@[j] == kept@[k]);
                        } else {
                            assert(olds.contacts@[m as int] == kept@[k]);
                        }
                    }
                    assert forall|k1: int, k2: int|
                        0 <= k1 < k2 < kept@.len() implies (#[trigger] kept@[k1]).index != (
                    #[trigger] kept@[k2]).index by {
                        if k2 == kept@.len() - 1 && k1 < before.len() {
                            assert(kept@[k1] == before[k1]);
                            let j = choose|j: int|
                                0 <= j < m && olds.contacts@[j] == before[k1];
                            assert(olds.contacts@[j].index != olds.contacts@[m as int].index);
                        }
                    }
                    assert forall|j: int|
                        0 <= j < m + 1 && olds.contacts@[j] != id implies kept@.contains(
                        olds.contacts@[j],
                    ) by {
                        if j < m {
                            let k = choose|k: int|
                                0 <= k < before.len() && before[k] == olds.contacts@[j];
                            assert(kept@[k] == olds.contacts@[j]);
                        } else {
                            assert(kept@[kept@.len() - 1] == olds.contacts@[j]);
                        }
                    }
                }
            }
            m += 1;
        }
        self.contacts = kept;
        proof {
            assert forall|c: EntityId| #[trigger]
                final(self).contacts@.contains(c) implies olds.contacts@.contains(c) && c
                != id by {
                let k = choose|k: int|
                    0 <= k < final(self).contacts@.len() && final(self).contacts@[k] == c;
                let j = choose|j: int|
                    0 <= j < n && olds.contacts@[j] == final(self).contacts@[k];
                assert(olds.contacts@[j] == c);
            }
            assert forall|c: EntityId|
                olds.contacts@.contains(c) && c != id implies #[trigger] final(self).contacts@.contains(c) by {
                let j = choose|j: int| 0 <= j < olds.contacts@.len() && olds.contacts@[j] == c;
            }
            assert forall|k: int| 0 <= k < final(self).contacts@.len() implies final(self).store.alive(#[trigger] final(self).contacts@[k]) && final(self).contacts@[k].index != final(self).ball.index by {
                let c = final(self).contacts@[k];
                assert(final(self).contacts@.contains(c));
                assert(olds.contacts@.contains(c) && c != id);
                let j = choose|j: int| 0 <= j < olds.contacts@.len() && olds.contacts@[j] == c;
                assert(olds.store.alive(c));
            }
        }
    }

    /// The end-of-tick sweep: destroys every marked entity.  Destroying an
    /// already-destroyed id is a no-op, so duplicates in the marked list
    /// are harmless, and an empty list leaves the simulation untouched.
    #[verifier::rlimit(40)]
    pub fn sweep(&mut self, marked: &Vec<EntityId>)
        requires
            old(self).wf(),
            forall|m: int|
                0 <= m < marked@.len() ==> (old(self).store.alive(#[trigger] marked@[m])
                    ==> old(self).store.ent(marked@[m]).kind is Brick),
        ensures
            final(self).wf(),
            final(self).ball == old(self).ball,
            final(self).paddle == old(self).paddle,
            final(self).last_dx == old(self).last_dx,
            final(self).store.slots@.len() == old(self).store.slots@.len(),
            forall|m: int|
                0 <= m < marked@.len() ==> !final(self).store.alive(#[trigger] marked@[m]),
            forall|m: int|
                0 <= m < marked@.len() && old(self).store.alive(#[trigger] marked@[m]) ==> final(self).store.retired(marked@[m]),
            forall|j: EntityId|
                old(self).store.alive(j) && !marked@.contains(j) ==> #[trigger] final(self).store.alive(j) && final(self).store.ent(j) == old(self).store.ent(j),
            forall|j: EntityId|
                !old(self).store.alive(j) ==> !(#[trigger] final(self).store.alive(j)),
            forall|j: EntityId|
                #[trigger] old(self).store.retired(j) ==> final(self).store.retired(j),
            forall|c: EntityId|
                #[trigger] final(self).contacts@.contains(c) <==> old(self).contacts@.contains(c)
                    && !marked@.contains(c),
    {
        let ghost olds = *old(self);
        let n = marked.len();
        let mut m: usize = 0;
        while m < n
            invariant
                m <= n,
                n == marked@.len(),
                self.wf(),
                olds.wf(),
                self.ball == olds.ball,
                self.paddle == olds.paddle,
                self.last_dx == olds.last_dx,
                self.store.slots@.len() == olds.store.slots@.len(),
                forall|k: int|
                    0 <= k < marked@.len() ==> (olds.store.alive(#[trigger] marked@[k])
                        ==> olds.store.ent(marked@[k]).kind is Brick),
                forall|k: int| 0 <= k < m ==> !self.store.alive(#[trigger] marked@[k]),
                forall|k: int|
                    0 <= k < m && olds.store.alive(#[trigger] marked@[k])
                        ==> self.store.retired(marked@[k]),
                forall|j: EntityId|
                    olds.store.alive(j) && !marked@.take(m as int).contains(j)
                        ==> #[trigger] self.store.alive(j) && self.store.ent(j)
                        == olds.store.ent(j),
                forall|j: EntityId| !olds.store.alive(j) ==> !(#[trigger] self.store.alive(j)),
                forall|j: EntityId|
                    #[trigger] olds.store.retired(j) ==> self.store.retired(j),
                forall|c: EntityId|
                    #[trigger] self.contacts@.contains(c) <==> olds.contacts@.contains(c)
                        && !marked@.take(m as int).contains(c),
            decreases n - m,
        {
            let id = marked[m];
            proof {
                if self.store.alive(id) {
                    assert(!marked@.take(m as int).contains(id));
                    assert(olds.store.alive(id));
                }
            }
            let ghost mid = *self;
            self.destroy_entity(id);
            proof {
                assert(marked@.take(m as int + 1).drop_last() =~= marked@.take(m as int));
                assert(marked@.take(m as int + 1).last() == marked@[m as int]);
                assert forall|c: EntityId| #[trigger]
                    marked@.take(m as int + 1).contains(c) implies marked@.take(
                    m as int,
                ).contains(c) || c == marked@[m as int] by {
                    let w = choose|w: int|
                        0 <= w < marked@.take(m as int + 1).len() && (#[trigger] marked@.take(
                            m as int + 1,
                        )[w]) == c;
                    if w < m as int {
                        assert(marked@.take(m as int)[w] == c);
                    }
                }
                assert forall|c: EntityId|
                    marked@.take(m as int).contains(c) implies #[trigger] marked@.take(
                    m as int + 1,
                ).contains(c) by {
                    let w = choose|w: int|
                        0 <= w < marked@.take(m as int).len() && marked@.take(m as int)[w] == c;
                    assert(marked@.take(m as int + 1)[w] == c);
                }
                assert(marked@.take(m as int + 1).contains(marked@[m as int]));
                assert forall|j: EntityId|
                    olds.store.alive(j) && !marked@.take(m as int + 1).contains(
                        j,
                    ) implies #[trigger] self.store.alive(j) by {
                    assert(!marked@.take(m as int).contains(j));
                    assert(j != marked@[m as int]);
                    assert(mid.store.alive(j));
                }
                assert forall|j: EntityId|
                    olds.store.alive(j) && !marked@.take(m as int + 1).contains(
                        j,
                    ) implies self.store.ent(j) == olds.store.ent(j) by {
                    assert(!marked@.take(m as int).contains(j));
                    assert(j != marked@[m as int]);
                    assert(mid.store.alive(j));
                    assert(mid.store.ent(j) == olds.store.ent(j));
                }
                if olds.store.alive(id) && !mid.store.alive(id) {
                    assert(marked@.take(m as int).contains(id));
                    let w = choose|w: int|
                        0 <= w < m && marked@.take(m as int)[w] == id;
                    assert(marked@[w] == id);
                    assert(mid.store.retired(id));
                }
            }
            m += 1;
        }
        proof {
            assert(marked@.take(n as int) =~= marked@);
        }
    }
}

impl Sim {
    /// Moves a kinematic body (the paddle or a brick) by an offset before
    /// the physics step.  The horizontal move stops at the nearest blocking
    /// wall, so the body cannot tunnel through a wall collider; on a
    /// destroyed id, or on a body that is not kinematic, the call is a
    /// no-op rather than an error.  A paddle move is remembered as the
    /// lateral influence for a later paddle bounce.
    pub fn apply_kinematic_delta(&mut self, id: EntityId, delta: Vec2i)
        requires
            old(self).wf(),
            vec2_in_range(delta),
        ensures
            final(self).wf(),
            final(self).ball == old(self).ball,
            final(self).paddle == old(self).paddle,
            final(self).contacts@ == old(self).contacts@,
            !(old(self).store.alive(id) && (old(self).store.ent(id).kind is Paddle || old(self).store.ent(id).kind is Brick)) ==> *final(self) == *old(self),
            forall|j: EntityId| #[trigger]
                final(self).store.alive(j) <==> old(self).store.alive(j),
            forall|j: EntityId|
                old(self).store.alive(j) && j != id ==> final(self).store.ent(j) == old(self).store.ent(j),
            forall|j: EntityId| #[trigger] old(self).store.retired(j) ==> final(self).store.retired(j),
            (old(self).store.alive(id) && (old(self).store.ent(id).kind is Paddle || old(self).store.ent(id).kind is Brick)) ==> {
                let e0 = old(self).store.ent(id);
                let e1 = final(self).store.ent(id);
                &&& e1.kind == e0.kind
                &&& e1.vel == e0.vel
                &&& e1.shape == e0.shape
                &&& e1.health == e0.health
                &&& e1.speed == e0.speed
                &&& e1.pos.x as int == kin_target_x(
                    old(self).store.slots@,
                    e0.pos.x as int,
                    clip_spec(e0.pos.y + delta.y),
                    half_w_of(e0.shape),
                    half_h_of(e0.shape),
                    delta.x as int,
                )
                &&& e1.pos.y as int == clip_spec(e0.pos.y + delta.y)
                &&& final(self).store.slots@ == old(self).store.slots@.update(
                    id.index as int,
                    Slot { generation: id.generation, entity: Some(e1) },
                )
                &&& final(self).last_dx as int == (if id == old(self).paddle {
                    e1.pos.x - e0.pos.x
                } else {
                    old(self).last_dx as int
                })
            },
            !(old(self).store.alive(id) && (old(self).store.ent(id).kind is Paddle || old(self).store.ent(id).kind is Brick) && id == old(self).paddle) ==> final(self).last_dx
                == old(self).last_dx,
    {
        let eopt = self.store.get(id);
        if let Some(e) = eopt {
            let is_kin = match e.kind {
                EntityKind::Paddle => true,
                EntityKind::Brick => true,
                _ => false,
            };
            if is_kin {
                let px = e.pos.x;
                let pw = shape_half_w(&e.shape);
                let ph = shape_half_h(&e.shape);
                let ny = clip_add(e.pos.y, delta.y);
                let nx = if delta.x > 0 {
                    clamp_right(&self.store, px, ny, pw, ph, delta.x)
                } else if delta.x < 0 {
                    clamp_left(&self.store, px, ny, pw, ph, delta.x)
                } else {
                    px
                };
                let e1 = Entity { pos: Vec2i { x: nx, y: ny }, ..e };
                self.store.set(id, e1);
                if id == self.paddle {
                    self.last_dx = nx - px;
                }
                proof {
                    assert forall|j: EntityId| #[trigger]
                        self.store.alive(j) && self.store.ent(j).kind is Ball implies j == self.ball by {
                        assert(old(self).store.alive(j));
                        if j != id {
                            assert(self.store.ent(j) == old(self).store.ent(j));
                        } else {
                            assert(self.store.ent(j).kind == e.kind);
                        }
                    }
                    assert forall|j: EntityId| #[trigger]
                        self.store.alive(j) && self.store.ent(j).kind is Paddle implies j
                        == self.paddle by {
                        assert(old(self).store.alive(j));
                        if j != id {
                            assert(self.store.ent(j) == old(self).store.ent(j));
                        } else {
                            assert(self.store.ent(j).kind == e.kind);
                        }
                    }
                }
            }
        }
    }
}

pub open spec fn slot_alive_at(slots: Seq<Slot>, id: EntityId) -> bool {
    &&& (id.index as int) < slots.len()
    &&& slots[id.index as int].generation == id.generation
    &&& slots[id.index as int].entity is Some
}

/// The ball's position once one step's integration is applied to `slots`.
pub open spec fn ball_pos_after_at(slots: Seq<Slot>, ball: EntityId) -> Vec2i {
    let b = slots[ball.index as int].entity->Some_0;
    Vec2i {
        x: clip_spec(b.pos.x + b.vel.x) as i64,
        y: clip_spec(b.pos.y + b.vel.y) as i64,
    }
}

/// After one step's integration over `slots`, the ball overlaps `id`.
pub open spec fn touches_after_at(slots: Seq<Slot>, ball: EntityId, id: EntityId) -> bool {
    &&& slot_alive_at(slots, id)
    &&& id.index != ball.index
    &&& boxes_overlap(
        ball_pos_after_at(slots, ball),
        slots[ball.index as int].entity->Some_0.shape,
        slots[id.index as int].entity->Some_0.pos,
        slots[id.index as int].entity->Some_0.shape,
    )
}

/// A step over `slots` begins a contact with `id`: they overlap after
/// integration and `id` is not among the current contacts.
pub open spec fn starts_at(
    slots: Seq<Slot>,
    ball: EntityId,
    contacts: Seq<EntityId>,
    id: EntityId,
) -> bool {
    touches_after_at(slots, ball, id) && !contacts.contains(id)
}

/// A step over `slots` ends a contact with `id`: it is among the current
/// contacts and no longer overlaps after integration.
pub open spec fn stops_at(
    slots: Seq<Slot>,
    ball: EntityId,
    contacts: Seq<EntityId>,
    id: EntityId,
) -> bool {
    contacts.contains(id) && !touches_after_at(slots, ball, id)
}

/// The ball's position once this step's integration is applied.
pub open spec fn ball_pos_after(sim: Sim) -> Vec2i {
    ball_pos_after_at(sim.store.slots@, sim.ball)
}

/// After this step's integration the ball overlaps the entity `id`.
pub open spec fn touches_after(sim: Sim, id: EntityId) -> bool {
    touches_after_at(sim.store.slots@, sim.ball, id)
}

/// This step begins a contact with `id`: they overlap after integration
/// and were not in contact before.
pub open spec fn contact_starts(sim: Sim, id: EntityId) -> bool {
    starts_at(sim.store.slots@, sim.ball, sim.contacts@, id)
}

/// This step ends a contact with `id`: they were in contact before and no
/// longer overlap after integration.
pub open spec fn contact_stops(sim: Sim, id: EntityId) -> bool {
    stops_at(sim.store.slots@, sim.ball, sim.contacts@, id)
}

/// The paddle entity once this tick's input displacement has moved it.
pub open spec fn moved_paddle(sim: Sim, input: LogicalInput) -> Entity {
    let p0 = sim.store.ent(sim.paddle);
    Entity {
        pos: Vec2i {
            x: kin_target_x(
                sim.store.slots@,
                p0.pos.x as int,
                p0.pos.y as int,
                half_w_of(p0.shape),
                half_h_of(p0.shape),
                displacement_spec(input, p0.speed as int),
            ) as i64,
            y: p0.pos.y,
        },
        ..p0
    }
}

/// The slot table against which this tick's contact transitions are
/// judged: the paddle has taken the input move; nothing else has happened
/// yet.
pub open spec fn mid_slots(sim: Sim, input: LogicalInput) -> Seq<Slot> {
    sim.store.slots@.update(
        sim.paddle.index as int,
        Slot { generation: sim.paddle.generation, entity: Some(moved_paddle(sim, input)) },
    )
}

/// No event of this step begins a contact.
pub open spec fn no_start(evs: Seq<ContactEvent>) -> bool {
    forall|k: int| 0 <= k < evs.len() ==> !((#[trigger] evs[k]).kind is Started)
}

/// No event of this step begins a contact with a paddle, judged against
/// the pre-step store.
pub open spec fn no_paddle_start(sim: Sim, evs: Seq<ContactEvent>) -> bool {
    forall|k: int|
        0 <= k < evs.len() ==> ((#[trigger] evs[k]).kind is Started ==> !(sim.store.ent(
            evs[k].b,
        ).kind is Paddle))
}

impl Sim {
    /// One fixed physics step: integrates the ball under zero gravity,
    /// reflects it elastically once per new contact (restitution one: a
    /// sign flip on the axis of least penetration, conserving speed except
    /// for the paddle's frictional lateral influence), and returns exactly
    /// the contact transitions of this step.  Every event names the ball
    /// and a live entity; a destroyed id is never reported.  Transitions
    /// are judged between the previous step's state and this step's
    /// integrated state: the step has no finer sub-step time, so no
    /// contact can begin and end unobserved inside one step, and events
    /// are never coalesced across steps.
    pub fn step(&mut self) -> (events: Vec<ContactEvent>)
        requires
            old(self).wf(),
        ensures
            final(self).wf(),
            final(self).ball == old(self).ball,
            final(self).paddle == old(self).paddle,
            final(self).last_dx == old(self).last_dx,
            forall|j: EntityId| #[trigger]
                final(self).store.alive(j) <==> old(self).store.alive(j),
            forall|j: EntityId|
                old(self).store.alive(j) && j != old(self).ball ==> final(self).store.ent(j)
                    == old(self).store.ent(j),
            forall|j: EntityId| #[trigger] old(self).store.retired(j) ==> final(self).store.retired(j),
            ({
                let b0 = old(self).store.ent(old(self).ball);
                let b1 = final(self).store.ent(old(self).ball);
                &&& b1.kind == b0.kind
                &&& b1.shape == b0.shape
                &&& b1.health == b0.health
                &&& b1.speed == b0.speed
                &&& b1.pos == ball_pos_after(*old(self))
                &&& abs_int(b1.vel.y as int) == abs_int(b0.vel.y as int)
            }),
            no_start(events@) ==> final(self).store.ent(old(self).ball).vel == old(self).store.ent(old(self).ball).vel,
            no_paddle_start(*old(self), events@) ==> {
                let v0 = old(self).store.ent(old(self).ball).vel;
                let v1 = final(self).store.ent(old(self).ball).vel;
                &&& abs_int(v1.x as int) == abs_int(v0.x as int)
                &&& v1.x * v1.x + v1.y * v1.y == v0.x * v0.x + v0.y * v0.y
            },
            forall|k: int|
                0 <= k < events@.len() ==> {
                    let ev = #[trigger] events@[k];
                    &&& ev.a == old(self).ball
                    &&& old(self).store.alive(ev.b)
                    &&& (ev.kind is Started ==> contact_starts(*old(self), ev.b))
                    &&& (ev.kind is Stopped ==> contact_stops(*old(self), ev.b))
                },
            forall|k1: int, k2: int|
                0 <= k1 < k2 < events@.len() ==> (#[trigger] events@[k1]).b.index != (
                #[trigger] events@[k2]).b.index,
            forall|id: EntityId| #[trigger]
                contact_starts(*old(self), id) ==> events@.contains(
                    ContactEvent { kind: ContactKind::Started, a: old(self).ball, b: id },
                ),
            forall|id: EntityId| #[trigger]
                contact_stops(*old(self), id) ==> events@.contains(
                    ContactEvent { kind: ContactKind::Stopped, a: old(self).ball, b: id },
                ),
            forall|id: EntityId| #[trigger]
                final(self).contacts@.contains(id) <==> touches_after(*old(self), id),
    {
        let ghost olds = *old(self);
        let ball_id = self.ball;
        let b = self.store.get(ball_id).unwrap();
        let nbx = clip_add(b.pos.x, b.vel.x);
        let nby = clip_add(b.pos.y, b.vel.y);
        let bw = shape_half_w(&b.shape);
        let bh = shape_half_h(&b.shape);
        self.store.set(ball_id, Entity { pos: Vec2i { x: nbx, y: nby }, ..b });
        let ghost s1 = *self;
        proof {
            assert forall|k: int|
                0 <= k < s1.contacts@.len() implies s1.store.alive(#[trigger] s1.contacts@[k])
                && s1.contacts@[k].index != s1.ball.index by {
                assert(olds.store.alive(olds.contacts@[k]));
            }
            assert(s1.wf());
        }
        let mut vx = b.vel.x;
        let mut vy = b.vel.y;
        let mut events: Vec<ContactEvent> = Vec::new();
        let mut new_contacts: Vec<EntityId> = Vec::new();
        let n = self.store.slots.len();
        let mut i: usize = 0;
        while i < n
            invariant
                i <= n,
                n == self.store.slots@.len(),
                *self == s1,
                olds.wf(),
                s1.wf(),
                s1.ball == olds.ball,
                s1.paddle == olds.paddle,
                s1.last_dx == olds.last_dx,
                s1.contacts@ == olds.contacts@,
                ball_id == olds.ball,
                forall|j: EntityId| #[trigger] s1.store.alive(j) <==> olds.store.alive(j),
                forall|j: EntityId|
                    olds.store.alive(j) && j != olds.ball ==> s1.store.ent(j) == olds.store.ent(
                        j,
                    ),
                b == olds.store.ent(olds.ball),
                s1.store.ent(olds.ball) == (Entity { pos: Vec2i { x: nbx, y: nby }, ..b }),
                nbx as int == clip_spec(b.pos.x + b.vel.x),
                nby as int == clip_spec(b.pos.y + b.vel.y),
                bw as int == half_w_of(b.shape),
                bh as int == half_h_of(b.shape),
                in_range(vx as int),
                in_range(vy as int),
                abs_int(vy as int) == abs_int(b.vel.y as int),
                no_start(events@) ==> vx == b.vel.x && vy == b.vel.y,
                no_paddle_start(olds, events@) ==> abs_int(vx as int) == abs_int(
                    b.vel.x as int,
                ),
                forall|k: int|
                    0 <= k < events@.len() ==> {
                        let ev = #[trigger] events@[k];
                        &&& ev.a == olds.ball
                        &&& olds.store.alive(ev.b)
                        &&& (ev.b.index as int) < i as int
                        &&& (ev.kind is Started ==> contact_starts(olds, ev.b))
                        &&& (ev.kind is Stopped ==> contact_stops(olds, ev.b))
                    },
                forall|k1: int, k2: int|
                    0 <= k1 < k2 < events@.len() ==> (#[trigger] events@[k1]).b.index != (
                    #[trigger] events@[k2]).b.index,
                forall|id: EntityId| #[trigger]
                    contact_starts(olds, id) && (id.index as int) < i as int ==> events@.contains(
                        ContactEvent { kind: ContactKind::Started, a: olds.ball, b: id },
                    ),
                forall|id: EntityId| #[trigger]
                    contact_stops(olds, id) && (id.index as int) < i as int ==> events@.contains(
                        ContactEvent { kind: ContactKind::Stopped, a: olds.ball, b: id },
                    ),
                forall|k: int|
                    0 <= k < new_contacts@.len() ==> touches_after(
                        olds,
                        #[trigger] new_contacts@[k],
                    ) && (new_contacts@[k].index as int) < i as int,
                forall|k1: int, k2: int|
                    0 <= k1 < k2 < new_contacts@.len() ==> (#[trigger] new_contacts@[k1]).index
                        != (#[trigger] new_contacts@[k2]).index,
                forall|id: EntityId| #[trigger]
                    touches_after(olds, id) && (id.index as int) < i as int
                        ==> new_contacts@.contains(id),
            decreases n - i,
        {
            let slot = self.store.slots[i];
            if let Some(e) = slot.entity {
                if !(i == ball_id.index) {
                    let id = EntityId { index: i, generation: slot.generation };
                    proof {
                        assert(s1.store.alive(id));
                        assert(olds.store.alive(id));
                        assert(olds.store.ent(id) == e);
                        assert(slot_wf(s1.store.slots@[i as int]));
                        assert(ball_pos_after(olds) == Vec2i { x: nbx, y: nby });
                    }
                    let pos = Vec2i { x: nbx, y: nby };
                    let ov = overlap(&pos, &b.shape, &e.pos, &e.shape);
                    let was = self.contacts_contains(id);
                    proof {
                        assert(ov == touches_after(olds, id));
                        assert(was == olds.contacts@.contains(id));
                    }
                    let ghost events0 = events@;
                    let ghost contacts0 = new_contacts@;
                    if ov {
                        if !was {
                            events.push(
                                ContactEvent { kind: ContactKind::Started, a: ball_id, b: id },
                            );
                            let ew = shape_half_w(&e.shape);
                            let eh = shape_half_h(&e.shape);
                            let penx = (bw + ew) - abs_i64(nbx - e.pos.x);
                            let peny = (bh + eh) - abs_i64(nby - e.pos.y);
                            if penx < peny {
                                vx = -vx;
                            } else {
                                vy = -vy;
                            }
                            match e.kind {
                                EntityKind::Paddle => {
                                    vx = clip_add(vx, self.last_dx);
                                },
                                _ => {},
                            }
                        }
                        new_contacts.push(id);
                        proof {
                            assert(new_contacts@[new_contacts@.len() - 1] == id);
                            assert forall|cid: EntityId| #[trigger]
                                touches_after(olds, cid) && (cid.index as int) < i as int
                                + 1 implies new_contacts@.contains(cid) by {
                                if (cid.index as int) < i as int {
                                    let w = choose|w: int|
                                        0 <= w < contacts0.len() && contacts0[w] == cid;
                                    assert(new_contacts@[w] == cid);
                                } else {
                                    assert(cid.index == id.index);
                                    assert(cid == id);
                                    assert(new_contacts@[new_contacts@.len() - 1] == cid);
                                }
                            }
                        }
                    } else {
                        if was {
                            events.push(
                                ContactEvent { kind: ContactKind::Stopped, a: ball_id, b: id },
                            );
                        }
                        proof {
                            assert forall|cid: EntityId| #[trigger]
                                touches_after(olds, cid) && (cid.index as int) < i as int
                                + 1 implies new_contacts@.contains(cid) by {
                                if (cid.index as int) < i as int {
                                    let w = choose|w: int|
                                        0 <= w < contacts0.len() && contacts0[w] == cid;
                                    assert(new_contacts@[w] == cid);
                                } else {
                                    assert(cid.index == id.index);
                                    assert(cid == id);
                                    assert(touches_after(olds, id) == ov);
                                }
                            }
                        }
                    }
                    proof {
                        if events@.len() > events0.len() {
                            assert(events@[events@.len() - 1].b == id);
                        }
                        assert forall|sid: EntityId| #[trigger]
                            contact_starts(olds, sid) && (sid.index as int) < i as int
                            + 1 implies events@.contains(
                            ContactEvent { kind: ContactKind::Started, a: olds.ball, b: sid },
                        ) by {
                            if (sid.index as int) < i as int {
                                let w = choose|w: int|
                                    0 <= w < events0.len() && events0[w] == ContactEvent {
                                        kind: ContactKind::Started,
                                        a: olds.ball,
                                        b: sid,
                                    };
                                assert(events@[w] == ContactEvent {
                                    kind: ContactKind::Started,
                                    a: olds.ball,
                                    b: sid,
                                });
                            } else {
                                assert(sid.index == id.index);
                                assert(sid == id);
                                assert(ov && !was);
                                assert(events@[events@.len() - 1] == ContactEvent {
                                    kind: ContactKind::Started,
                                    a: olds.ball,
                                    b: sid,
                                });
                            }
                        }
                        assert forall|sid: EntityId| #[trigger]
                            contact_stops(olds, sid) && (sid.index as int) < i as int
                            + 1 implies events@.contains(
                            ContactEvent { kind: ContactKind::Stopped, a: olds.ball, b: sid },
                        ) by {
                            if (sid.index as int) < i as int {
                                let w = choose|w: int|
                                    0 <= w < events0.len() && events0[w] == ContactEvent {
                                        kind: ContactKind::Stopped,
                                        a: olds.ball,
                                        b: sid,
                                    };
                                assert(events@[w] == ContactEvent {
                                    kind: ContactKind::Stopped,
                                    a: olds.ball,
                                    b: sid,
                                });
                            } else {
                                assert(sid.index == id.index);
                                assert(sid == id);
                                assert(was && !ov);
                                assert(events@[events@.len() - 1] == ContactEvent {
                                    kind: ContactKind::Stopped,
                                    a: olds.ball,
                                    b: sid,
                                });
                            }
                        }
                    }
                } else {
                    proof {
                        assert forall|cid: EntityId| #[trigger]
                            touches_after(olds, cid) && (cid.index as int) < i as int
                            + 1 implies new_contacts@.contains(cid) by {
                            if (cid.index as int) >= i as int {
                                assert(cid.index == olds.ball.index);
                            }
                        }
                        assert forall|sid: EntityId| #[trigger]
                            contact_starts(olds, sid) && (sid.index as int) < i as int
                            + 1 implies events@.contains(
                            ContactEvent { kind: ContactKind::Started, a: olds.ball, b: sid },
                        ) by {
                            if (sid.index as int) >= i as int {
                                assert(sid.index == olds.ball.index);
                            }
                        }
                        assert forall|sid: EntityId| #[trigger]
                            contact_stops(olds, sid) && (sid.index as int) < i as int
                            + 1 implies events@.contains(
                            ContactEvent { kind: ContactKind::Stopped, a: olds.ball, b: sid },
                        ) by {
                            if (sid.index as int) >= i as int {
                                assert(sid.index == olds.ball.index);
                                let w = choose|w: int|
                                    0 <= w < olds.contacts@.len() && olds.contacts@[w] == sid;
                                assert(olds.contacts@[w].index != olds.ball.index);
                            }
                        }
                    }
                }
            } else {
                proof {
                    assert forall|cid: EntityId| #[trigger]
                        touches_after(olds, cid) && (cid.index as int) < i as int
                        + 1 implies new_contacts@.contains(cid) by {
                        if (cid.index as int) >= i as int {
                            assert(olds.store.alive(cid));
                            assert(s1.store.alive(cid));
                        }
                    }
                    assert forall|sid: EntityId| #[trigger]
                        contact_starts(olds, sid) && (sid.index as int) < i as int
                        + 1 implies events@.contains(
                        ContactEvent { kind: ContactKind::Started, a: olds.ball, b: sid },
                    ) by {
                        if (sid.index as int) >= i as int {
                            assert(olds.store.alive(sid));
                            assert(s1.store.alive(sid));
                        }
                    }
                    assert forall|sid: EntityId| #[trigger]
                        contact_stops(olds, sid) && (sid.index as int) < i as int
                        + 1 implies events@.contains(
                        ContactEvent { kind: ContactKind::Stopped, a: olds.ball, b: sid },
                    ) by {
                        if (sid.index as int) >= i as int {
                            let w = choose|w: int|
                                0 <= w < olds.contacts@.len() && olds.contacts@[w] == sid;
                            assert(olds.store.alive(olds.contacts@[w]));
                            assert(s1.store.alive(sid));
                        }
                    }
                }
            }
            i += 1;
        }
        let b2 = self.store.get(ball_id).unwrap();
        self.store.set(ball_id, Entity { vel: Vec2i { x: vx, y: vy }, ..b2 });
        self.contacts = new_contacts;
        proof {
            assert forall|id: EntityId| #[trigger]
                final(self).contacts@.contains(id) implies touches_after(olds, id) by {
                let w = choose|w: int|
                    0 <= w < final(self).contacts@.len() && final(self).contacts@[w] == id;
            }
            assert forall|id: EntityId| #[trigger]
                touches_after(olds, id) implies final(self).contacts@.contains(id) by {
                assert((id.index as int) < n as int);
            }
            assert forall|k: int|
                0 <= k < final(self).contacts@.len() implies final(self).store.alive(
                #[trigger] final(self).contacts@[k]) && final(self).contacts@[k].index != final(self).ball.index by {
                assert(touches_after(olds, final(self).contacts@[k]));
            }
            assert(final(self).wf());
            if no_paddle_start(olds, events@) {
                let v0 = olds.store.ent(olds.ball).vel;
                lemma_square_of_abs(vx as int, v0.x as int);
                lemma_square_of_abs(vy as int, v0.y as int);
            }
        }
        events
    }
}

impl Sim {
    /// One full simulation tick, strictly in order: the input displacement
    /// moves the paddle (stopped by walls), the physics step integrates the
    /// ball and reports this tick's contact transitions, the resolver
    /// drains them into brick health — one point per separation, none on
    /// touch — and the sweep destroys every brick that reached zero.  The
    /// returned events are this tick's transitions, fully applied before
    /// the call returns.
    ///
    /// The contract carries the library's laws: the returned events are
    /// exactly the contact transitions of the post-input-move state, and
    /// the surviving contact set exactly what the moved ball overlaps;
    /// brick health moves exactly by the separation hits of this tick's
    /// events and never below zero; a brick is live afterwards exactly
    /// when health remains, and nothing else is destroyed or born;
    /// destroyed ids stay retired and are never named by the events; and
    /// a tick whose new contacts avoid the paddle conserves the ball's
    /// speed.
    #[verifier::rlimit(60)]
    pub fn tick(&mut self, input: LogicalInput) -> (events: Vec<ContactEvent>)
        requires
            old(self).wf(),
        ensures
            final(self).wf(),
            final(self).ball == old(self).ball,
            final(self).paddle == old(self).paddle,
            // bricks: exact damage accounting, and life exactly while health remains
            forall|j: EntityId|
                old(self).store.alive(j) && (#[trigger] old(self).store.ent(j)).kind is Brick
                    ==> {
                    let e0 = old(self).store.ent(j);
                    let h1 = damaged(e0.health as int, end_hits(events@, j));
                    &&& (final(self).store.alive(j) <==> h1 > 0)
                    &&& (final(self).store.alive(j) ==> final(self).store.ent(j) == (Entity {
                        health: h1 as i64,
                        ..e0
                    }))
                },
            // nothing but a brick is ever destroyed, and nothing is born
            forall|j: EntityId|
                old(self).store.alive(j) && !((#[trigger] old(self).store.ent(j)).kind
                    is Brick) ==> final(self).store.alive(j),
            forall|j: EntityId|
                !old(self).store.alive(j) ==> !(#[trigger] final(self).store.alive(j)),
            // the returned events are exactly the contact transitions of the
            // post-input-move state, and the new contact set is exactly what
            // the moved ball overlaps (less what this tick destroyed)
            forall|k: int|
                0 <= k < events@.len() ==> {
                    let ev = #[trigger] events@[k];
                    &&& ev.a == old(self).ball
                    &&& (ev.kind is Started ==> starts_at(
                        mid_slots(*old(self), input),
                        old(self).ball,
                        old(self).contacts@,
                        ev.b,
                    ))
                    &&& (ev.kind is Stopped ==> stops_at(
                        mid_slots(*old(self), input),
                        old(self).ball,
                        old(self).contacts@,
                        ev.b,
                    ))
                },
            forall|k1: int, k2: int|
                0 <= k1 < k2 < events@.len() ==> (#[trigger] events@[k1]).b.index != (
                #[trigger] events@[k2]).b.index,
            forall|id: EntityId| #[trigger]
                starts_at(mid_slots(*old(self), input), old(self).ball, old(self).contacts@, id)
                    ==> events@.contains(
                    ContactEvent { kind: ContactKind::Started, a: old(self).ball, b: id },
                ),
            forall|id: EntityId| #[trigger]
                stops_at(mid_slots(*old(self), input), old(self).ball, old(self).contacts@, id)
                    ==> events@.contains(
                    ContactEvent { kind: ContactKind::Stopped, a: old(self).ball, b: id },
                ),
            forall|id: EntityId| #[trigger]
                final(self).contacts@.contains(id) <==> touches_after_at(
                    mid_slots(*old(self), input),
                    old(self).ball,
                    id,
                ) && final(self).store.alive(id),
            // walls never move
            forall|j: EntityId|
                old(self).store.alive(j) && (#[trigger] old(self).store.ent(j)).kind is Wall
                    ==> final(self).store.ent(j) == old(self).store.ent(j),
            // destruction is final, and dead ids are never reported again
            forall|j: EntityId| #[trigger] old(self).store.retired(j) ==> final(self).store.retired(j),
            forall|k: int|
                0 <= k < events@.len() ==> old(self).store.alive((#[trigger] events@[k]).a)
                    && old(self).store.alive(events@[k].b),
            forall|j: EntityId, k: int|
                #![trigger old(self).store.retired(j), events@[k]]
                old(self).store.retired(j) && 0 <= k < events@.len() ==> events@[k].a != j
                    && events@[k].b != j,
            // the ball: integrated by its velocity, bounded by the world
            ({
                let b0 = old(self).store.ent(old(self).ball);
                let b1 = final(self).store.ent(old(self).ball);
                &&& b1.kind == b0.kind
                &&& b1.shape == b0.shape
                &&& b1.health == b0.health
                &&& b1.speed == b0.speed
                &&& b1.pos == ball_pos_after(*old(self))
                &&& abs_int(b1.vel.y as int) == abs_int(b0.vel.y as int)
            }),
            // elastic bounces off walls and bricks conserve speed
            (forall|k: int|
                0 <= k < events@.len() ==> ((#[trigger] events@[k]).kind is Started ==> !(old(self).store.ent(events@[k].b).kind is Paddle))) ==> {
                let v0 = old(self).store.ent(old(self).ball).vel;
                let v1 = final(self).store.ent(old(self).ball).vel;
                &&& abs_int(v1.x as int) == abs_int(v0.x as int)
                &&& v1.x * v1.x + v1.y * v1.y == v0.x * v0.x + v0.y * v0.y
            },
            // the paddle: moved by the input displacement, stopped by walls
            ({
                let p0 = old(self).store.ent(old(self).paddle);
                let p1 = final(self).store.ent(old(self).paddle);
                &&& p1.kind == p0.kind
                &&& p1.vel == p0.vel
                &&& p1.shape == p0.shape
                &&& p1.health == p0.health
                &&& p1.speed == p0.speed
                &&& p1.pos.y == p0.pos.y
                &&& p1.pos.x as int == kin_target_x(
                    old(self).store.slots@,
                    p0.pos.x as int,
                    p0.pos.y as int,
                    half_w_of(p0.shape),
                    half_h_of(p0.shape),
                    displacement_spec(input, p0.speed as int),
                )
                &&& final(self).last_dx as int == p1.pos.x - p0.pos.x
            }),
    {
        let ghost olds = *old(self);
        let paddle_id = self.paddle;
        let p = self.store.get(paddle_id).unwrap();
        let d = resolve(input, p.speed);
        self.apply_kinematic_delta(paddle_id, d);
        let ghost s1 = *self;
        proof {
            assert(clip_spec(p.pos.y + 0) == p.pos.y as int);
            assert(s1.store.ent(olds.paddle) == moved_paddle(olds, input));
            assert(s1.store.slots@ == mid_slots(olds, input));
        }
        let events = self.step();
        let ghost s2 = *self;
        let _nslots = self.store.slots.len();
        proof {
            assert(s2.store.slots@.len() <= usize::MAX);
        }
        apply_contact_events(&mut self.store, &events);
        let ghost s3 = *self;
        proof {
            assert(s3.store.slots@ == apply_events(s2.store.slots@, events@));
            crate::resolver::lemma_apply_events_len(s2.store.slots@, events@);
            assert forall|j: EntityId| #[trigger]
                s2.store.alive(j) implies s3.store.alive(j) && s3.store.ent(j).kind
                == s2.store.ent(j).kind by {
                lemma_apply_events_frame(s2.store.slots@, events@, j.index as int);
            }
            assert forall|j: EntityId| !s2.store.alive(j) implies !(#[trigger] s3.store.alive(
                j,
            )) by {
                if (j.index as int) < s2.store.slots@.len() {
                    lemma_apply_events_frame(s2.store.slots@, events@, j.index as int);
                }
            }
            assert forall|j: EntityId| #[trigger]
                s2.store.retired(j) implies s3.store.retired(j) by {
                lemma_apply_events_frame(s2.store.slots@, events@, j.index as int);
            }
            assert forall|k: int|
                0 <= k < s3.contacts@.len() implies s3.store.alive(
                #[trigger] s3.contacts@[k]) && s3.contacts@[k].index != s3.ball.index by {
                assert(s2.store.alive(s2.contacts@[k]));
            }
            assert(s3.wf());
        }
        let marked = collect_destroyed(&self.store);
        self.sweep(&marked);
        proof {
            // bricks: exact damage and exact survival
            assert forall|j: EntityId|
                olds.store.alive(j) && (#[trigger] olds.store.ent(j)).kind is Brick implies {
                let e0 = olds.store.ent(j);
                let h1 = damaged(e0.health as int, end_hits(events@, j));
                &&& (self.store.alive(j) <==> h1 > 0)
                &&& (self.store.alive(j) ==> self.store.ent(j) == (Entity { health: h1 as i64, ..e0 }))
            } by {
                let e0 = olds.store.ent(j);
                assert(j != olds.paddle && j != olds.ball);
                assert(s1.store.alive(j) && s1.store.ent(j) == e0);
                assert(s2.store.alive(j) && s2.store.ent(j) == e0);
                lemma_apply_events_frame(s2.store.slots@, events@, j.index as int);
                assert(slot_id(s2.store.slots@, j.index as int) == j);
                let h1 = damaged(e0.health as int, end_hits(events@, j));
                assert(slot_wf(olds.store.slots@[j.index as int]));
                lemma_end_hits_nonneg(events@, j);
                assert(0 <= h1 <= e0.health as int);
                assert(s3.store.alive(j));
                assert(s3.store.ent(j) == (Entity { health: h1 as i64, ..e0 }));
                if h1 > 0 {
                    assert(!marked@.contains(j)) by {
                        if marked@.contains(j) {
                            let w = choose|w: int|
                                0 <= w < marked@.len() && marked@[w] == j;
                            assert(s3.store.ent(j).health <= 0);
                        }
                    }
                    assert(self.store.alive(j));
                    assert(self.store.ent(j) == s3.store.ent(j));
                } else {
                    assert(zero_brick_at(s3.store.slots@, j.index as int));
                    assert(marked@.contains(slot_id(s3.store.slots@, j.index as int)));
                    assert(slot_id(s3.store.slots@, j.index as int) == j);
                    let w = choose|w: int| 0 <= w < marked@.len() && marked@[w] == j;
                    assert(!self.store.alive(j));
                }
            }
            // non-bricks survive; walls are untouched
            assert forall|j: EntityId|
                olds.store.alive(j) && !((#[trigger] olds.store.ent(j)).kind
                    is Brick) implies self.store.alive(j) by {
                assert(s2.store.alive(j));
                lemma_apply_events_frame(s2.store.slots@, events@, j.index as int);
                assert(s3.store.alive(j) && s3.store.ent(j).kind == s2.store.ent(j).kind);
                assert(!marked@.contains(j)) by {
                    if marked@.contains(j) {
                        let w = choose|w: int| 0 <= w < marked@.len() && marked@[w] == j;
                        assert(s3.store.ent(j).kind is Brick);
                        assert(s2.store.ent(j).kind == olds.store.ent(j).kind);
                    }
                }
            }
            assert forall|j: EntityId|
                olds.store.alive(j) && (#[trigger] olds.store.ent(j)).kind
                    is Wall implies self.store.ent(j) == olds.store.ent(j) by {
                assert(j != olds.paddle && j != olds.ball);
                assert(s2.store.alive(j) && s2.store.ent(j) == olds.store.ent(j));
                lemma_apply_events_frame(s2.store.slots@, events@, j.index as int);
                assert(s3.store.ent(j) == s2.store.ent(j));
                assert(!marked@.contains(j)) by {
                    if marked@.contains(j) {
                        let w = choose|w: int| 0 <= w < marked@.len() && marked@[w] == j;
                    }
                }
            }
            // destruction finality
            assert forall|j: EntityId| #[trigger]
                olds.store.retired(j) implies self.store.retired(j) by {
                assert(s2.store.retired(j));
                assert(s3.store.retired(j));
            }
            assert forall|k: int|
                0 <= k < events@.len() implies olds.store.alive((#[trigger] events@[k]).a)
                && olds.store.alive(events@[k].b) by {
                assert(s1.store.alive(events@[k].a) || events@[k].a == s1.ball);
                assert(s1.store.alive(events@[k].b));
            }
            assert forall|j: EntityId, k: int|
                #![trigger olds.store.retired(j), events@[k]]
                olds.store.retired(j) && 0 <= k < events@.len() implies events@[k].a != j
                && events@[k].b != j by {
                crate::store::lemma_retired_not_alive(olds.store, j);
                assert(olds.store.alive(events@[k].a) && olds.store.alive(events@[k].b));
            }
            // the ball through the tail of the tick
            let bid = olds.ball;
            assert(s1.store.ent(bid) == olds.store.ent(bid));
            assert(ball_pos_after(s1) == ball_pos_after(olds));
            lemma_apply_events_frame(s2.store.slots@, events@, bid.index as int);
            assert(s3.store.ent(bid) == s2.store.ent(bid));
            assert(!marked@.contains(bid)) by {
                if marked@.contains(bid) {
                    let w = choose|w: int| 0 <= w < marked@.len() && marked@[w] == bid;
                }
            }
            assert(self.store.ent(bid) == s2.store.ent(bid));
            // speed conservation condition carries from the mid-state
            if forall|k: int|
                0 <= k < events@.len() ==> ((#[trigger] events@[k]).kind is Started ==> !(
                olds.store.ent(events@[k].b).kind is Paddle)) {
                assert(no_paddle_start(s1, events@)) by {
                    assert forall|k: int|
                        0 <= k < events@.len() implies ((#[trigger] events@[k]).kind is Started
                        ==> !(s1.store.ent(events@[k].b).kind is Paddle)) by {
                        if events@[k].kind is Started {
                            let jb = events@[k].b;
                            assert(olds.store.alive(jb));
                            if jb == olds.paddle {
                                assert(s1.store.ent(jb).kind == olds.store.ent(jb).kind);
                            } else {
                                assert(s1.store.ent(jb) == olds.store.ent(jb));
                            }
                        }
                    }
                }
            }
            // the paddle through the tail of the tick
            let pid = olds.paddle;
            assert(s2.store.ent(pid) == s1.store.ent(pid));
            lemma_apply_events_frame(s2.store.slots@, events@, pid.index as int);
            assert(s3.store.ent(pid) == s2.store.ent(pid));
            assert(!marked@.contains(pid)) by {
                if marked@.contains(pid) {
                    let w = choose|w: int| 0 <= w < marked@.len() && marked@[w] == pid;
                }
            }
            assert(self.store.ent(pid) == s1.store.ent(pid));
            // nothing comes alive during a tick
            assert forall|j: EntityId| !olds.store.alive(j) implies !(#[trigger] self.store.alive(
                j,
            )) by {
                assert(!s1.store.alive(j));
                assert(!s2.store.alive(j));
                assert(!s3.store.alive(j));
            }
            // the events and the new contact set, judged against the
            // post-input-move state
            let mid = mid_slots(olds, input);
            assert forall|k: int| 0 <= k < events@.len() implies {
                let ev = #[trigger] events@[k];
                &&& ev.a == olds.ball
                &&& (ev.kind is Started ==> starts_at(mid, olds.ball, olds.contacts@, ev.b))
                &&& (ev.kind is Stopped ==> stops_at(mid, olds.ball, olds.contacts@, ev.b))
            } by {
                let ev = events@[k];
                if ev.kind is Started {
                    assert(contact_starts(s1, ev.b));
                }
                if ev.kind is Stopped {
                    assert(contact_stops(s1, ev.b));
                }
            }
            assert forall|id: EntityId| #[trigger]
                starts_at(mid, olds.ball, olds.contacts@, id) implies events@.contains(
                ContactEvent { kind: ContactKind::Started, a: olds.ball, b: id },
            ) by {
                assert(contact_starts(s1, id));
            }
            assert forall|id: EntityId| #[trigger]
                stops_at(mid, olds.ball, olds.contacts@, id) implies events@.contains(
                ContactEvent { kind: ContactKind::Stopped, a: olds.ball, b: id },
            ) by {
                assert(contact_stops(s1, id));
            }
            assert forall|id: EntityId| #[trigger]
                self.contacts@.contains(id) implies touches_after_at(mid, olds.ball, id)
                && self.store.alive(id) by {
                assert(s3.contacts@.contains(id) && !marked@.contains(id));
                assert(touches_after(s1, id));
                assert(s2.store.alive(id));
                assert(s3.store.alive(id));
            }
            assert forall|id: EntityId|
                touches_after_at(mid, olds.ball, id) && self.store.alive(id) implies #[trigger]
                self.contacts@.contains(id) by {
                assert(touches_after(s1, id));
                assert(s2.contacts@.contains(id));
                assert(s3.contacts@.contains(id));
                if marked@.contains(id) {
                    let w = choose|w: int| 0 <= w < marked@.len() && marked@[w] == id;
                    assert(!self.store.alive(id));
                }
            }
        }
        events
    }
}

/// Whether the wall `w` stands in the way of a rightward move of a body at
/// `(px, py)` with half-extents `(pw, ph)`.
pub open spec fn wall_blocks_right(w: Entity, px: int, py: int, pw: int, ph: int) -> bool {
    &&& w.kind is Wall
    &&& spans_overlap(py, ph, w.pos.y as int, half_h_of(w.shape))
    &&& w.pos.x as int - half_w_of(w.shape) >= px + pw
}

pub open spec fn wall_blocks_left(w: Entity, px: int, py: int, pw: int, ph: int) -> bool {
    &&& w.kind is Wall
    &&& spans_overlap(py, ph, w.pos.y as int, half_h_of(w.shape))
    &&& w.pos.x as int + half_w_of(w.shape) <= px - pw
}

/// The rightmost x a kinematic body can reach before touching a wall ahead
/// of it, among the first `n` slots; `None` when no wall is in the way.
pub open spec fn right_cap(slots: Seq<Slot>, n: int, px: int, py: int, pw: int, ph: int) -> Option<
    int,
>
    decreases n,
{
    if n <= 0 {
        None
    } else {
        let prev = right_cap(slots, n - 1, px, py, pw, ph);
        if slots[n - 1].entity is Some && wall_blocks_right(
            slots[n - 1].entity->Some_0,
            px,
            py,
            pw,
            ph,
        ) {
            let w = slots[n - 1].entity->Some_0;
            let c = w.pos.x as int - half_w_of(w.shape) - pw;
            match prev {
                None => Some(c),
                Some(p) => Some(
                    if c < p {
                        c
                    } else {
                        p
                    },
                ),
            }
        } else {
            prev
        }
    }
}

/// The leftmost reachable x, symmetrically.
pub open spec fn left_cap(slots: Seq<Slot>, n: int, px: int, py: int, pw: int, ph: int) -> Option<
    int,
>
    decreases n,
{
    if n <= 0 {
        None
    } else {
        let prev = left_cap(slots, n - 1, px, py, pw, ph);
        if slots[n - 1].entity is Some && wall_blocks_left(
            slots[n - 1].entity->Some_0,
            px,
            py,
            pw,
            ph,
        ) {
            let w = slots[n - 1].entity->Some_0;
            let c = w.pos.x as int + half_w_of(w.shape) + pw;
            match prev {
                None => Some(c),
                Some(p) => Some(
                    if c > p {
                        c
                    } else {
                        p
                    },
                ),
            }
        } else {
            prev
        }
    }
}

/// Where a kinematic move by `dx` actually lands: the requested clipped
/// target, stopped short at the nearest blocking wall, so the body never
/// tunnels past a wall collider.
pub open spec fn kin_target_x(
    slots: Seq<Slot>,
    px: int,
    py: int,
    pw: int,
    ph: int,
    dx: int,
) -> int {
    if dx > 0 {
        match right_cap(slots, slots.len() as int, px, py, pw, ph) {
            None => clip_spec(px + dx),
            Some(c) => if clip_spec(px + dx) < c {
                clip_spec(px + dx)
            } else {
                c
            },
        }
    } else if dx < 0 {
        match left_cap(slots, slots.len() as int, px, py, pw, ph) {
            None => clip_spec(px + dx),
            Some(c) => if clip_spec(px + dx) > c {
                clip_spec(px + dx)
            } else {
                c
            },
        }
    } else {
        px
    }
}

/// Every right cap lies at or beyond the body's current position.
pub proof fn lemma_right_cap_ge(slots: Seq<Slot>, n: int, px: int, py: int, pw: int, ph: int)
    ensures
        right_cap(slots, n, px, py, pw, ph) is Some ==> right_cap(
            slots,
            n,
            px,
            py,
            pw,
            ph,
        )->Some_0 >= px,
    decreases n,
{
    if n > 0 {
        lemma_right_cap_ge(slots, n - 1, px, py, pw, ph);
    }
}

/// Every left cap lies at or before the body's current position.
pub proof fn lemma_left_cap_le(slots: Seq<Slot>, n: int, px: int, py: int, pw: int, ph: int)
    ensures
        left_cap(slots, n, px, py, pw, ph) is Some ==> left_cap(
            slots,
            n,
            px,
            py,
            pw,
            ph,
        )->Some_0 <= px,
    decreases n,
{
    if n > 0 {
        lemma_left_cap_le(slots, n - 1, px, py, pw, ph);
    }
}

proof fn lemma_right_cap_member(
    slots: Seq<Slot>,
    n: int,
    px: int,
    py: int,
    pw: int,
    ph: int,
    i: int,
)
    requires
        0 <= i < n <= slots.len(),
        slots[i].entity is Some,
        wall_blocks_right(slots[i].entity->Some_0, px, py, pw, ph),
    ensures
        right_cap(slots, n, px, py, pw, ph) is Some,
        right_cap(slots, n, px, py, pw, ph)->Some_0 <= slots[i].entity->Some_0.pos.x - half_w_of(
            slots[i].entity->Some_0.shape,
        ) - pw,
    decreases n,
{
    if i < n - 1 {
        lemma_right_cap_member(slots, n - 1, px, py, pw, ph, i);
    }
}

proof fn lemma_left_cap_member(
    slots: Seq<Slot>,
    n: int,
    px: int,
    py: int,
    pw: int,
    ph: int,
    i: int,
)
    requires
        0 <= i < n <= slots.len(),
        slots[i].entity is Some,
        wall_blocks_left(slots[i].entity->Some_0, px, py, pw, ph),
    ensures
        left_cap(slots, n, px, py, pw, ph) is Some,
        left_cap(slots, n, px, py, pw, ph)->Some_0 >= slots[i].entity->Some_0.pos.x + half_w_of(
            slots[i].entity->Some_0.shape,
        ) + pw,
    decreases n,
{
    if i < n - 1 {
        lemma_left_cap_member(slots, n - 1, px, py, pw, ph, i);
    }
}

/// A rightward kinematic move never tunnels: whatever the requested
/// displacement, the landing x stays at or before the touching position of
/// every wall that stood in the way.
pub proof fn lemma_no_tunnel_right(
    slots: Seq<Slot>,
    px: int,
    py: int,
    pw: int,
    ph: int,
    dx: int,
    i: int,
)
    requires
        0 <= i < slots.len(),
        slots[i].entity is Some,
        wall_blocks_right(slots[i].entity->Some_0, px, py, pw, ph),
        dx > 0,
    ensures
        kin_target_x(slots, px, py, pw, ph, dx) <= slots[i].entity->Some_0.pos.x - half_w_of(
            slots[i].entity->Some_0.shape,
        ) - pw,
{
    lemma_right_cap_member(slots, slots.len() as int, px, py, pw, ph, i);
}

/// A leftward kinematic move never tunnels, symmetrically.
pub proof fn lemma_no_tunnel_left(
    slots: Seq<Slot>,
    px: int,
    py: int,
    pw: int,
    ph: int,
    dx: int,
    i: int,
)
    requires
        0 <= i < slots.len(),
        slots[i].entity is Some,
        wall_blocks_left(slots[i].entity->Some_0, px, py, pw, ph),
        dx < 0,
    ensures
        kin_target_x(slots, px, py, pw, ph, dx) >= slots[i].entity->Some_0.pos.x + half_w_of(
            slots[i].entity->Some_0.shape,
        ) + pw,
{
    lemma_left_cap_member(slots, slots.len() as int, px, py, pw, ph, i);
}

/// Scans the walls and returns the landing x of a rightward move.
fn clamp_right(store: &Store, px: i64, py: i64, pw: i64, ph: i64, dx: i64) -> (r: i64)
    requires
        store.wf(),
        in_range(px as int),
        in_range(py as int),
        0 <= pw <= WORLD_LIMIT,
        0 <= ph <= WORLD_LIMIT,
        0 < dx <= WORLD_LIMIT,
    ensures
        r as int == kin_target_x(store.slots@, px as int, py as int, pw as int, ph as int, dx as int),
        px <= r,
        r as int <= clip_spec(px + dx),
{
    let n = store.slots.len();
    let mut tx = clip_add(px, dx);
    let mut i: usize = 0;
    proof {
        lemma_right_cap_ge(store.slots@, n as int, px as int, py as int, pw as int, ph as int);
    }
    while i < n
        invariant
            i <= n,
            n == store.slots@.len(),
            store.wf(),
            in_range(px as int),
            in_range(py as int),
            0 <= pw <= WORLD_LIMIT,
            0 <= ph <= WORLD_LIMIT,
            0 < dx <= WORLD_LIMIT,
            px <= tx,
            tx as int <= clip_spec(px + dx),
            tx as int == (match right_cap(
                store.slots@,
                i as int,
                px as int,
                py as int,
                pw as int,
                ph as int,
            ) {
                None => clip_spec(px + dx),
                Some(c) => if clip_spec(px + dx) < c {
                    clip_spec(px + dx)
                } else {
                    c
                },
            }),
        decreases n - i,
    {
        let slot = store.slots[i];
        proof {
            assert(slot_wf(store.slots@[i as int]));
        }
        if let Some(w) = slot.entity {
            match w.kind {
                EntityKind::Wall => {
                    let ww = shape_half_w(&w.shape);
                    let wh = shape_half_h(&w.shape);
                    if py - w.pos.y < ph + wh && w.pos.y - py < ph + wh && w.pos.x - ww >= px
                        + pw {
                        let c = w.pos.x - ww - pw;
                        if c < tx {
                            tx = c;
                        }
                    }
                },
                _ => {},
            }
        }
        i += 1;
    }
    tx
}

/// Scans the walls and returns the landing x of a leftward move.
fn clamp_left(store: &Store, px: i64, py: i64, pw: i64, ph: i64, dx: i64) -> (r: i64)
    requires
        store.wf(),
        in_range(px as int),
        in_range(py as int),
        0 <= pw <= WORLD_LIMIT,
        0 <= ph <= WORLD_LIMIT,
        -WORLD_LIMIT <= dx < 0,
    ensures
        r as int == kin_target_x(store.slots@, px as int, py as int, pw as int, ph as int, dx as int),
        r <= px,
        r as int >= clip_spec(px + dx),
{
    let n = store.slots.len();
    let mut tx = clip_add(px, dx);
    let mut i: usize = 0;
    proof {
        lemma_left_cap_le(store.slots@, n as int, px as int, py as int, pw as int, ph as int);
    }
    while i < n
        invariant
            i <= n,
            n == store.slots@.len(),
            store.wf(),
            in_range(px as int),
            in_range(py as int),
            0 <= pw <= WORLD_LIMIT,
            0 <= ph <= WORLD_LIMIT,
            -WORLD_LIMIT <= dx < 0,
            tx <= px,
            tx as int >= clip_spec(px + dx),
            tx as int == (match left_cap(
                store.slots@,
                i as int,
                px as int,
                py as int,
                pw as int,
                ph as int,
            ) {
                None => clip_spec(px + dx),
                Some(c) => if clip_spec(px + dx) > c {
                    clip_spec(px + dx)
                } else {
                    c
                },
            }),
        decreases n - i,
    {
        let slot = store.slots[i];
        proof {
            assert(slot_wf(store.slots@[i as int]));
        }
        if let Some(w) = slot.entity {
            match w.kind {
                EntityKind::Wall => {
                    let ww = shape_half_w(&w.shape);
                    let wh = shape_half_h(&w.shape);
                    if py - w.pos.y < ph + wh && w.pos.y - py < ph + wh && w.pos.x + ww <= px
                        - pw {
                        let c = w.pos.x + ww + pw;
                        if c > tx {
                            tx = c;
                        }
                    }
                },
                _ => {},
            }
        }
        i += 1;
    }
    tx
}

} // verus!
