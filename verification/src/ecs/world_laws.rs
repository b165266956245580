//! Laws of the world that relate several of its operations.

use vstd::prelude::*;
use crate::ecs::archetype::{
    lemma_column_index_of_spec, lemma_column_index_of_types, lemma_overwrite_other_row, ArchetypeModel,
    ComponentTypeId,
};
use crate::ecs::entity::Entity;
use crate::ecs::migration::{
    lemma_despawn_rest, lemma_despawn_wf, lemma_detach_row_agree, lemma_detach_row_component, lemma_detach_row_shape,
    lemma_migrate_agree, lemma_migrate_component, lemma_migrate_shape,
};
use crate::ecs::world::{
    archetype_rows, lemma_located_row, lemma_rows_fit, lemma_set_component_reads_back, lemma_set_component_wf,
    lemma_stride_is_write_fits, query_rows, WorldModel,
};

verus! {

/// Overwriting component `t` of `e` changes no other component: not those
/// of other entities, not the other components of `e`.
pub proof fn lemma_set_component_other(
    w: WorldModel,
    e: Entity,
    t: ComponentTypeId,
    bytes: Seq<u8>,
    e2: Entity,
    t2: ComponentTypeId,
)
    requires
        w.wf(),
        w.write_fits(e, t, bytes.len()),
        e2 != e || t2 != t,
    ensures
        w.set_component(e, t, bytes).component(e2, t2) == w.component(e2, t2),
{
    let n = w.set_component(e, t, bytes);
    match w.column_at(e, t) {
        Some((a, c)) => {
            let arch = w.archetypes[a];
            lemma_column_index_of_spec(arch.columns, t);
            lemma_column_index_of_types(arch.columns, n.archetypes[a].columns, t2);
            assert(n.locations == w.locations);
            assert forall|x: int| 0 <= x < w.archetypes.len() && x != a implies n.archetypes[x] == w.archetypes[x] by {}
            if w.locations.contains_key(e2) {
                let x = w.locations[e2].archetype_id as int;
                if x != a {
                    assert(n.archetypes[x] == w.archetypes[x]);
                } else {
                    lemma_column_index_of_types(arch.columns, n.archetypes[a].columns, t2);
                }
            }
            assert(n.column_at(e2, t2) == w.column_at(e2, t2));
            match w.column_at(e2, t2) {
                Some((a2, c2)) => {
                    if a2 != a {
                        assert(n.archetypes[a2] == w.archetypes[a2]);
                    } else if c2 != c {
                        lemma_column_index_of_spec(arch.columns, t2);
                        assert(n.archetypes[a2].columns[c2] == w.archetypes[a2].columns[c2]);
                    } else {
                        lemma_column_index_of_spec(arch.columns, t2);
                        assert(t2 == t);
                        let r = w.locations[e].row;
                        let r2 = w.locations[e2].row;
                        assert(arch.entities[r as int] == e);
                        assert(arch.entities[r2 as int] == e2);
                        assert(arch.wf());
                        lemma_rows_fit(arch, r as nat);
                        lemma_rows_fit(arch, r2 as nat);
                        let col = arch.columns[c];
                        lemma_overwrite_other_row(col.data, col.stride, r as nat, r2 as nat, bytes);
                    }
                },
                None => {},
            }
        },
        None => {},
    }
}

/// Inserting component `t` of `e` and reading it back gives the bytes
/// inserted.
pub proof fn lemma_insert_component_reads_back(w: WorldModel, e: Entity, t: ComponentTypeId, bytes: Seq<u8>)
    requires
        w.wf(),
        w.stride_is(t, bytes.len()),
    ensures
        w.insert_component(e, t, bytes).component(e, t) == Some(bytes),
{
    lemma_stride_is_write_fits(w, e, t, bytes.len());
    if w.column_at(e, t) is Some {
        lemma_set_component_reads_back(w, e, t, bytes);
    } else {
        lemma_migrate_component(w, e, t, bytes, e, t);
        if w.locations.contains_key(e) {
            let loc = w.locations[e];
            lemma_migrate_agree(w, e, t, bytes);
            lemma_detach_row_component(w.migrate(e, t, bytes), loc.archetype_id, loc.row, e, t);
        }
    }
}

/// Inserting component `t` of `e` changes no other component: `e` keeps
/// its other components (they move along with it), and every other entity
/// keeps all of its own.
pub proof fn lemma_insert_component_other(
    w: WorldModel,
    e: Entity,
    t: ComponentTypeId,
    bytes: Seq<u8>,
    e2: Entity,
    t2: ComponentTypeId,
)
    requires
        w.wf(),
        w.stride_is(t, bytes.len()),
        e2 != e || t2 != t,
    ensures
        w.insert_component(e, t, bytes).component(e2, t2) == w.component(e2, t2),
{
    lemma_stride_is_write_fits(w, e, t, bytes.len());
    if w.column_at(e, t) is Some {
        lemma_set_component_other(w, e, t, bytes, e2, t2);
    } else {
        lemma_migrate_component(w, e, t, bytes, e2, t2);
        if w.locations.contains_key(e) {
            let loc = w.locations[e];
            lemma_migrate_agree(w, e, t, bytes);
            lemma_detach_row_component(w.migrate(e, t, bytes), loc.archetype_id, loc.row, e2, t2);
        }
    }
}

/// Inserting a component keeps a world well formed, as long as its counts
/// fit in a `usize` afterwards.
pub proof fn lemma_insert_component_wf(w: WorldModel, e: Entity, t: ComponentTypeId, bytes: Seq<u8>)
    requires
        w.wf(),
        w.stride_is(t, bytes.len()),
        w.insert_component(e, t, bytes).counts_fit(),
    ensures
        w.insert_component(e, t, bytes).wf(),
{
    lemma_stride_is_write_fits(w, e, t, bytes.len());
    if w.column_at(e, t) is Some {
        lemma_set_component_wf(w, e, t, bytes);
    } else {
        let m = w.migrate(e, t, bytes);
        lemma_migrate_agree(w, e, t, bytes);
        if w.locations.contains_key(e) {
            let loc = w.locations[e];
            let a = loc.archetype_id as int;
            let n = m.detach_row(loc.archetype_id, loc.row);
            lemma_located_row(w, e);
            assert(m.archetypes[a] == w.archetypes[a]) by {
                crate::ecs::migration::lemma_migrate_target(w, e, t, bytes);
            }
            assert forall|x: int| 0 <= x < m.archetypes.len() implies (#[trigger] m.archetypes[x]).entities.len()
                <= usize::MAX by {
                if x != a {
                    assert(n.archetypes[x] == m.archetypes[x]);
                } else {
                    assert(w.archetypes[a].entities.len() <= usize::MAX);
                }
            }
            lemma_migrate_shape(w, e, t, bytes);
            lemma_detach_row_shape(m, loc.archetype_id, loc.row);
            lemma_detach_row_agree(m, loc.archetype_id, loc.row);
        } else {
            lemma_migrate_shape(w, e, t, bytes);
        }
    }
}

/// Despawning an entity changes no component of any other entity (the
/// entity moved into the freed row keeps its components).
pub proof fn lemma_despawn_other(w: WorldModel, e: Entity, e2: Entity, t2: ComponentTypeId)
    requires
        w.wf(),
        e2 != e,
    ensures
        w.despawn(e).component(e2, t2) == w.component(e2, t2),
{
    let rest = WorldModel { locations: w.locations.remove(e), ..w };
    if w.locations.contains_key(e) {
        let loc = w.locations[e];
        lemma_located_row(w, e);
        lemma_despawn_rest(w, e);
        assert(rest.component(e2, t2) == w.component(e2, t2));
        lemma_detach_row_component(rest, loc.archetype_id, loc.row, e2, t2);
    } else {
        assert(rest.locations =~= w.locations);
    }
}

/// Spawning changes no component of any entity.
pub proof fn lemma_spawn_other(w: WorldModel, e2: Entity, t2: ComponentTypeId)
    ensures
        (WorldModel { pool: w.pool.spawn().0, ..w }).component(e2, t2) == w.component(e2, t2),
{
}

/// The rows of the first `k` archetypes come first in the rows of more.
proof fn lemma_query_rows_prefix(archs: Seq<ArchetypeModel>, t: ComponentTypeId, k: int, k2: int)
    requires
        0 <= k <= k2 <= archs.len(),
    ensures
        query_rows(archs.take(k), t).len() <= query_rows(archs.take(k2), t).len(),
        forall|i: int|
            0 <= i < query_rows(archs.take(k), t).len() ==> #[trigger] query_rows(archs.take(k2), t)[i] == query_rows(
                archs.take(k),
                t,
            )[i],
    decreases k2 - k,
{
    if k < k2 {
        lemma_query_rows_prefix(archs, t, k, k2 - 1);
        assert(archs.take(k2).drop_last() =~= archs.take(k2 - 1));
    }
}

/// In a well-formed world, every row that a query over `t` lists is the
/// entity's component `t` with its bytes.
proof fn lemma_query_sound_prefix(w: WorldModel, t: ComponentTypeId, k: int)
    requires
        w.wf(),
        0 <= k <= w.archetypes.len(),
    ensures
        forall|i: int|
            0 <= i < query_rows(w.archetypes.take(k), t).len() ==> w.component(
                (#[trigger] query_rows(w.archetypes.take(k), t)[i]).0,
                t,
            ) == Some(query_rows(w.archetypes.take(k), t)[i].1),
    decreases k,
{
    if k > 0 {
        lemma_query_sound_prefix(w, t, k - 1);
        let pre = w.archetypes.take(k);
        assert(pre.drop_last() =~= w.archetypes.take(k - 1));
        let arch = w.archetypes[k - 1];
        assert(pre.last() == arch);
        let front = query_rows(w.archetypes.take(k - 1), t);
        let rows = archetype_rows(arch, t);
        assert(query_rows(pre, t) == front + rows);
        assert forall|i: int| 0 <= i < query_rows(pre, t).len() implies w.component(
            (#[trigger] query_rows(pre, t)[i]).0,
            t,
        ) == Some(query_rows(pre, t)[i].1) by {
            if i < front.len() {
                assert(query_rows(pre, t)[i] == front[i]);
            } else {
                let r = i - front.len();
                assert(query_rows(pre, t)[i] == rows[r]);
                assert(arch.wf());
                let sk = choose|sk: int| 0 <= sk < arch.signature.len() && arch.signature[sk] == t;
                assert(arch.columns[sk].type_id == t);
                lemma_column_index_of_spec(arch.columns, t);
                let e = arch.entities[r];
                assert(w.locations.contains_key(e));
                assert(w.locations[e].archetype_id == k - 1 && w.locations[e].row == r);
            }
        }
    }
}

/// In a well-formed world, a query over component `t` lists exactly the
/// entities that have that component, each with its bytes: a pair is listed
/// if and only if it is the entity's component.
pub proof fn lemma_query_exact(w: WorldModel, t: ComponentTypeId, e: Entity, b: Seq<u8>)
    requires
        w.wf(),
    ensures
        query_rows(w.archetypes, t).contains((e, b)) <==> w.component(e, t) == Some(b),
{
    let q = query_rows(w.archetypes, t);
    let n = w.archetypes.len() as int;
    assert(w.archetypes.take(n) =~= w.archetypes);
    lemma_query_sound_prefix(w, t, n);
    if q.contains((e, b)) {
        let i = choose|i: int| 0 <= i < q.len() && q[i] == (e, b);
        assert(w.component(q[i].0, t) == Some(q[i].1));
    }
    if w.component(e, t) == Some(b) {
        let loc = w.locations[e];
        let a = loc.archetype_id as int;
        let r = loc.row as int;
        let arch = w.archetypes[a];
        lemma_column_index_of_spec(arch.columns, t);
        let c = crate::ecs::archetype::column_index_of(arch.columns, t).unwrap();
        assert(arch.wf());
        assert(arch.signature[c] == t);
        assert(arch.signature.contains(t));
        let pre = w.archetypes.take(a + 1);
        assert(pre.drop_last() =~= w.archetypes.take(a));
        assert(pre.last() == arch);
        let front = query_rows(w.archetypes.take(a), t);
        let rows = archetype_rows(arch, t);
        assert(query_rows(pre, t) == front + rows);
        assert(arch.entities[r] == e);
        assert(rows[r] == (e, b));
        assert(query_rows(pre, t)[front.len() + r] == (e, b));
        lemma_query_rows_prefix(w.archetypes, t, a + 1, n);
        assert(q[front.len() + r] == (e, b));
    }
}

/// In a well-formed world every row that a query over `t` lists among the
/// first `k` archetypes is located in one of them, at its own row.
proof fn lemma_query_located_prefix(w: WorldModel, t: ComponentTypeId, k: int)
    requires
        w.wf(),
        0 <= k <= w.archetypes.len(),
    ensures
        forall|i: int|
            0 <= i < query_rows(w.archetypes.take(k), t).len() ==> {
                let e = (#[trigger] query_rows(w.archetypes.take(k), t)[i]).0;
                &&& w.locations.contains_key(e)
                &&& w.locations[e].archetype_id < k
            },
        forall|i: int, j: int|
            0 <= i < j < query_rows(w.archetypes.take(k), t).len() ==> (#[trigger] query_rows(w.archetypes.take(k), t)[i]).0
                != (#[trigger] query_rows(w.archetypes.take(k), t)[j]).0,
    decreases k,
{
    if k > 0 {
        lemma_query_located_prefix(w, t, k - 1);
        let pre = w.archetypes.take(k);
        assert(pre.drop_last() =~= w.archetypes.take(k - 1));
        let arch = w.archetypes[k - 1];
        assert(pre.last() == arch);
        let front = query_rows(w.archetypes.take(k - 1), t);
        let rows = archetype_rows(arch, t);
        let q = query_rows(pre, t);
        assert(q == front + rows);
        assert forall|r: int| 0 <= r < rows.len() implies {
            let e = (#[trigger] rows[r]).0;
            &&& w.locations.contains_key(e)
            &&& w.locations[e].archetype_id == k - 1
            &&& w.locations[e].row == r
        } by {
            assert(rows[r].0 == arch.entities[r]);
        }
        assert forall|i: int| 0 <= i < q.len() implies {
            let e = (#[trigger] q[i]).0;
            &&& w.locations.contains_key(e)
            &&& w.locations[e].archetype_id < k
        } by {
            if i < front.len() {
                assert(q[i] == front[i]);
            } else {
                assert(q[i] == rows[i - front.len()]);
            }
        }
        assert forall|i: int, j: int| 0 <= i < j < q.len() implies (#[trigger] q[i]).0 != (#[trigger] q[j]).0 by {
            if j < front.len() {
                assert(q[i] == front[i] && q[j] == front[j]);
            } else if i < front.len() {
                assert(q[i] == front[i] && q[j] == rows[j - front.len()]);
            } else {
                assert(q[i] == rows[i - front.len()] && q[j] == rows[j - front.len()]);
            }
        }
    }
}

/// In a well-formed world a query lists each entity at most once.
pub proof fn lemma_query_once(w: WorldModel, t: ComponentTypeId)
    requires
        w.wf(),
    ensures
        forall|i: int, j: int|
            0 <= i < j < query_rows(w.archetypes, t).len() ==> (#[trigger] query_rows(w.archetypes, t)[i]).0
                != (#[trigger] query_rows(w.archetypes, t)[j]).0,
{
    assert(w.archetypes.take(w.archetypes.len() as int) =~= w.archetypes);
    lemma_query_located_prefix(w, t, w.archetypes.len() as int);
}

/// Right after an entity is despawned, no query lists it.
pub proof fn lemma_query_after_despawn(w: WorldModel, e: Entity, t: ComponentTypeId, b: Seq<u8>)
    requires
        w.wf(),
    ensures
        !query_rows(w.despawn(e).archetypes, t).contains((e, b)),
{
    lemma_despawn_wf(w, e);
    lemma_query_exact(w.despawn(e), t, e, b);
}

} // verus!
