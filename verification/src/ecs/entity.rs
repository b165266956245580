//! Entities and the pool that hands them out and recycles their indices.
//!
//! An entity is an index together with a generation. Despawning an entity
//! bumps the generation of its slot, so every handle that still carries the
//! old generation is recognised as dead.

use vstd::prelude::*;

verus! {

/// A handle to an entity of the world: a slot index and the generation of
/// that slot at the time the entity was spawned.
#[derive(Copy, Clone, PartialEq, Eq, Structural, Hash, Debug)]
pub struct Entity {
    pub index: u32,
    pub generation: u32,
}

impl Entity {
    pub fn new(index: u32, generation: u32) -> (e: Self)
        ensures
            e.index == index,
            e.generation == generation,
    {
        Self { index, generation }
    }
}

/// The generation that follows `g`: one more, wrapping to 0 after `u32::MAX`.
pub open spec fn next_generation(g: u32) -> u32 {
    if g == u32::MAX {
        0
    } else {
        (g + 1) as u32
    }
}

/// One slot of the pool: the generation it is at and whether its entity lives.
#[derive(Copy, Clone, PartialEq, Eq, Structural, Debug)]
pub struct EntitySlot {
    pub generation: u32,
    pub alive: bool,
}

/// The mathematical state of a pool: its slots and its stack of free indices.
pub struct PoolModel {
    pub slots: Seq<EntitySlot>,
    pub free: Seq<u32>,
}

impl PoolModel {
    /// The handle `e` names a living entity.
    pub open spec fn alive(self, e: Entity) -> bool {
        &&& e.index < self.slots.len()
        &&& self.slots[e.index as int].alive
        &&& self.slots[e.index as int].generation == e.generation
    }

    /// The pool state and the entity after one spawn: the most recently freed
    /// index is reused with its current generation, otherwise a new slot is
    /// appended at generation 0.
    pub open spec fn spawn(self) -> (PoolModel, Entity) {
        if self.free.len() > 0 {
            let index = self.free.last();
            let slot = self.slots[index as int];
            (
                PoolModel {
                    slots: self.slots.update(index as int, EntitySlot { generation: slot.generation, alive: true }),
                    free: self.free.drop_last(),
                },
                Entity { index, generation: slot.generation },
            )
        } else {
            (
                PoolModel {
                    slots: self.slots.push(EntitySlot { generation: 0, alive: true }),
                    free: self.free,
                },
                Entity { index: self.slots.len() as u32, generation: 0 },
            )
        }
    }

    /// The pool state after despawning `e`, and whether `e` was alive.
    /// A living entity's slot is marked dead, its generation is bumped
    /// (wrapping) and its index is pushed on the free stack.
    pub open spec fn despawn(self, e: Entity) -> (PoolModel, bool) {
        if self.alive(e) {
            let slot = self.slots[e.index as int];
            (
                PoolModel {
                    slots: self.slots.update(
                        e.index as int,
                        EntitySlot { generation: next_generation(slot.generation), alive: false },
                    ),
                    free: self.free.push(e.index),
                },
                true,
            )
        } else {
            (self, false)
        }
    }

    /// The pool after `n` successive spawns.
    pub open spec fn spawn_n(self, n: nat) -> PoolModel
        decreases n,
    {
        if n == 0 {
            self
        } else {
            self.spawn().0.spawn_n((n - 1) as nat)
        }
    }

    /// Well-formedness: the free stack holds, without repetition, exactly the
    /// dead slots whose index fits in a `u32`.
    pub open spec fn wf(self) -> bool {
        &&& forall|k: int| 0 <= k < self.free.len() ==> (#[trigger] self.free[k]) < self.slots.len()
        &&& forall|k: int| 0 <= k < self.free.len() ==> !self.slots[#[trigger] self.free[k] as int].alive
        &&& forall|k1: int, k2: int|
            0 <= k1 < k2 < self.free.len() ==> #[trigger] self.free[k1] != #[trigger] self.free[k2]
        &&& forall|i: int|
            0 <= i < self.slots.len() && i <= u32::MAX && !(#[trigger] self.slots[i]).alive
                ==> self.free.contains(i as u32)
    }

    /// A spawn is owed a fresh handle: either an index is free, or the next
    /// slot index still fits in a `u32`.
    pub open spec fn has_room(self) -> bool {
        self.free.len() > 0 || self.slots.len() <= u32::MAX
    }
}

/// A pool of entities that recycles the indices of despawned entities.
pub struct EntityPool {
    slots: Vec<EntitySlot>,
    free: Vec<u32>,
}

impl View for EntityPool {
    type V = PoolModel;

    closed spec fn view(&self) -> PoolModel {
        PoolModel { slots: self.slots@, free: self.free@ }
    }
}

impl EntityPool {
    pub fn new() -> (pool: Self)
        ensures
            pool@.slots == Seq::<EntitySlot>::empty(),
            pool@.free == Seq::<u32>::empty(),
            pool@.wf(),
    {
        Self { slots: Vec::new(), free: Vec::new() }
    }

    /// Spawns an entity, reusing the most recently freed index if there is one.
    pub fn spawn(&mut self) -> (e: Entity)
        requires
            old(self)@.wf(),
        ensures
            final(self)@ == old(self)@.spawn().0,
            e == old(self)@.spawn().1,
            final(self)@.wf(),
            old(self)@.has_room() ==> !old(self)@.alive(e) && final(self)@.alive(e),
            forall|other: Entity|
                other.index != e.index ==> final(self)@.alive(other) == old(self)@.alive(other),
    {
        if let Some(index) = self.free.pop() {
            let generation = self.slots[index as usize].generation;
            self.slots.set(index as usize, EntitySlot { generation, alive: true });
            proof {
                assert(self.free@ =~= old(self)@.free.drop_last());
                lemma_spawn_preserves_wf(old(self)@);
            }
            Entity::new(index, generation)
        } else {
            let index = #[verifier::truncate] (self.slots.len() as u32);
            self.slots.push(EntitySlot { generation: 0, alive: true });
            proof {
                lemma_spawn_preserves_wf(old(self)@);
            }
            Entity::new(index, 0)
        }
    }

    /// Despawns `entity`; returns whether it was alive.
    pub fn despawn(&mut self, entity: Entity) -> (r: bool)
        requires
            old(self)@.wf(),
        ensures
            final(self)@ == old(self)@.despawn(entity).0,
            r == old(self)@.despawn(entity).1,
            r == old(self)@.alive(entity),
            r ==> final(self)@.slots[entity.index as int].generation as int == (entity.generation as int + 1)
                % 0x1_0000_0000,
            r ==> !final(self)@.slots[entity.index as int].alive,
            final(self)@.slots.len() == old(self)@.slots.len(),
            forall|i: int| 0 <= i < old(self)@.slots.len() && i != entity.index ==> #[trigger] final(self)@.slots[i] == old(self)@.slots[i],
            final(self)@.wf(),
            !final(self)@.alive(entity),
            forall|other: Entity|
                other.index != entity.index ==> final(self)@.alive(other) == old(self)@.alive(other),
    {
        let i = entity.index as usize;
        if i >= self.slots.len() {
            return false;
        }
        let slot = self.slots[i];
        if !slot.alive || slot.generation != entity.generation {
            return false;
        }
        self.slots.set(i, EntitySlot { generation: slot.generation.wrapping_add(1), alive: false });
        self.free.push(entity.index);
        proof {
            lemma_despawn_preserves_wf(old(self)@, entity);
        }
        proof {
            lemma_despawn_bumps_generation(old(self)@, entity);
        }
        true
    }

    /// Whether `entity` names a living entity of this pool.
    pub fn is_alive(&self, entity: Entity) -> (r: bool)
        ensures
            r == self@.alive(entity),
    {
        let i = entity.index as usize;
        if i < self.slots.len() {
            let slot = &self.slots[i];
            slot.alive && slot.generation == entity.generation
        } else {
            false
        }
    }
}

/// Spawning keeps the pool well formed.
pub proof fn lemma_spawn_preserves_wf(o: PoolModel)
    requires
        o.wf(),
    ensures
        o.spawn().0.wf(),
{
    let n = o.spawn().0;
    if o.free.len() > 0 {
        let last = o.free.len() - 1;
        let index = o.free[last];
        assert forall|k: int| 0 <= k < n.free.len() implies !n.slots[#[trigger] n.free[k] as int].alive by {
            assert(o.free[k] != o.free[last]);
        }
        assert forall|j: int|
            0 <= j < n.slots.len() && j <= u32::MAX && !(#[trigger] n.slots[j]).alive
            implies n.free.contains(j as u32) by {
            assert(j != index);
            assert(o.free.contains(j as u32));
            let k = choose|k: int| 0 <= k < o.free.len() && o.free[k] == j as u32;
            assert(k != last);
            assert(n.free[k] == j as u32);
        }
    } else {
        assert forall|j: int|
            0 <= j < n.slots.len() && j <= u32::MAX && !(#[trigger] n.slots[j]).alive
            implies n.free.contains(j as u32) by {
            assert(j < o.slots.len());
            assert(o.slots[j] == n.slots[j]);
            assert(o.free.contains(j as u32));
        }
    }
}

/// Despawning keeps the pool well formed.
pub proof fn lemma_despawn_preserves_wf(o: PoolModel, entity: Entity)
    requires
        o.wf(),
    ensures
        o.despawn(entity).0.wf(),
{
    if o.alive(entity) {
        let n = o.despawn(entity).0;
        let i = entity.index as int;
        assert forall|k: int| 0 <= k < n.free.len() implies !n.slots[#[trigger] n.free[k] as int].alive by {
            if k < o.free.len() {
                assert(o.free[k] != entity.index);
            }
        }
        assert forall|k1: int, k2: int|
            0 <= k1 < k2 < n.free.len() implies #[trigger] n.free[k1] != #[trigger] n.free[k2] by {
            if k2 == o.free.len() {
                assert(!o.slots[o.free[k1] as int].alive);
            }
        }
        assert forall|j: int|
            0 <= j < n.slots.len() && j <= u32::MAX && !(#[trigger] n.slots[j]).alive
            implies n.free.contains(j as u32) by {
            if j == i {
                assert(n.free[n.free.len() - 1] == entity.index);
            } else {
                assert(o.free.contains(j as u32));
                let k = choose|k: int| 0 <= k < o.free.len() && o.free[k] == j as u32;
                assert(n.free[k] == j as u32);
            }
        }
    }
}

/// Spawning never changes the generation of an existing slot, and never
/// shrinks the pool.
pub proof fn lemma_spawn_keeps_generations(m: PoolModel, n: nat, i: int)
    requires
        m.wf(),
        0 <= i < m.slots.len(),
    ensures
        m.spawn_n(n).slots.len() >= m.slots.len(),
        m.spawn_n(n).slots[i].generation == m.slots[i].generation,
    decreases n,
{
    if n > 0 {
        let next = m.spawn().0;
        lemma_spawn_preserves_wf(m);
        assert(next.slots.len() >= m.slots.len());
        assert(next.slots[i].generation == m.slots[i].generation);
        lemma_spawn_keeps_generations(next, (n - 1) as nat, i);
    }
}

/// A handle whose entity has been despawned stays dead, whatever number of
/// entities are spawned afterwards: the slot's generation has moved on and
/// only a despawn moves it again.
pub proof fn lemma_despawned_handle_stays_dead(m: PoolModel, e: Entity, n: nat)
    requires
        m.wf(),
        m.despawn(e).1,
    ensures
        !m.despawn(e).0.spawn_n(n).alive(e),
{
    let after = m.despawn(e).0;
    lemma_despawn_preserves_wf(m, e);
    lemma_spawn_keeps_generations(after, n, e.index as int);
    assert(after.slots[e.index as int].generation == next_generation(e.generation));
}

/// Despawning the same handle twice: the second call reports `false`.
pub proof fn lemma_despawn_twice(m: PoolModel, e: Entity)
    requires
        m.despawn(e).1,
    ensures
        !m.despawn(e).0.despawn(e).1,
{
}

/// The next spawn after a despawn reuses the freed index with the next
/// generation, so the new handle differs from the despawned one.
pub proof fn lemma_spawn_recycles_last_freed(m: PoolModel, e: Entity)
    requires
        m.wf(),
        m.despawn(e).1,
    ensures
        m.despawn(e).0.spawn().1 == (Entity { index: e.index, generation: next_generation(e.generation) }),
        m.despawn(e).0.spawn().1 != e,
        m.despawn(e).0.spawn().0.alive(m.despawn(e).0.spawn().1),
{
    let after = m.despawn(e).0;
    assert(after.free.last() == e.index);
}

/// Despawning a living entity moves its slot's generation one step forward,
/// wrapping to 0 only after `u32::MAX`, and marks the slot dead; no other
/// slot changes.
pub proof fn lemma_despawn_bumps_generation(m: PoolModel, e: Entity)
    requires
        m.despawn(e).1,
    ensures
        m.despawn(e).0.slots.len() == m.slots.len(),
        m.despawn(e).0.slots[e.index as int].generation as int == (e.generation as int + 1) % 0x1_0000_0000,
        !m.despawn(e).0.slots[e.index as int].alive,
        forall|i: int| 0 <= i < m.slots.len() && i != e.index ==> #[trigger] m.despawn(e).0.slots[i] == m.slots[i],
{
}

/// The pool and handle after `n` rounds of despawning the handle and
/// spawning again, starting from pool `m` and handle `e`.
pub open spec fn recycle_n(m: PoolModel, e: Entity, n: nat) -> (PoolModel, Entity)
    decreases n,
{
    if n == 0 {
        (m, e)
    } else {
        let next = m.despawn(e).0.spawn();
        recycle_n(next.0, next.1, (n - 1) as nat)
    }
}

/// Despawning a living entity and spawning again, `n` times over, reuses the
/// same slot with a generation `n` steps further (modulo 2^32); the living
/// handle at each round is the one the last spawn returned.
pub proof fn lemma_recycle_generation(m: PoolModel, e: Entity, n: nat)
    requires
        m.wf(),
        m.alive(e),
    ensures
        recycle_n(m, e, n).0.wf(),
        recycle_n(m, e, n).0.alive(recycle_n(m, e, n).1),
        recycle_n(m, e, n).1.index == e.index,
        recycle_n(m, e, n).1.generation as int == (e.generation as int + n) % 0x1_0000_0000,
    decreases n,
{
    if n > 0 {
        let after = m.despawn(e).0;
        lemma_despawn_preserves_wf(m, e);
        lemma_spawn_recycles_last_freed(m, e);
        lemma_spawn_preserves_wf(after);
        let next = after.spawn();
        lemma_despawn_bumps_generation(m, e);
        lemma_recycle_generation(next.0, next.1, (n - 1) as nat);
        let g = e.generation as int;
        let g1 = next.1.generation as int;
        assert(g1 == (g + 1) % 0x1_0000_0000);
        assert(((g1 + (n - 1)) % 0x1_0000_0000) == (g + n) % 0x1_0000_0000) by {
            if g + 1 == 0x1_0000_0000 {
                assert(g1 == 0);
            } else {
                assert(g1 == g + 1);
            }
        }
    }
}

/// A handle that is despawned stays dead through fewer than 2^32 rounds of
/// despawning its slot's entity and spawning again: each round moves the
/// slot's generation forward, and it only comes back after 2^32 rounds.
pub proof fn lemma_recycled_handle_stays_dead(m: PoolModel, e: Entity, n: nat)
    requires
        m.wf(),
        m.alive(e),
        1 <= n < 0x1_0000_0000,
    ensures
        !recycle_n(m, e, n).0.alive(e),
        recycle_n(m, e, n).1 != e,
{
    lemma_recycle_generation(m, e, n);
    let g = e.generation as int;
    assert((g + n) % 0x1_0000_0000 != g) by {
        if g + n < 0x1_0000_0000 {
            assert((g + n) % 0x1_0000_0000 == g + n);
        } else {
            assert((g + n) % 0x1_0000_0000 == g + n - 0x1_0000_0000);
        }
    }
}

} // verus!
