//! The world: the registry that owns the entity pool and the archetypes, and
//! knows in which archetype row each entity's components are stored.

use std::collections::HashMap;
use vstd::prelude::*;
use crate::ecs::archetype::{
    column_index_of, insert_pos, lemma_column_index_of_spec, lemma_insert_pos, lemma_column_index_of_types, lemma_overwrite_row,
    overwrite, row_start, strictly_sorted, Archetype, ArchetypeModel, ArchetypeSignature, ColumnModel,
    ComponentTypeId,
};
use crate::ecs::entity::{Entity, EntityPool, EntitySlot, PoolModel};

verus! {

broadcast use vstd::std_specs::hash::group_hash_axioms;

/// Where an entity's components are stored: an archetype and a row of it.
#[derive(Copy, Clone, PartialEq, Eq, Structural, Debug)]
pub struct ArchetypeLocation {
    pub archetype_id: usize,
    pub row: usize,
}

/// The number under which the location of `e` is filed: the index in the
/// high 32 bits, the generation in the low 32 bits.
pub open spec fn entity_key(e: Entity) -> u64 {
    (e.index as int * 0x1_0000_0000 + e.generation as int) as u64
}

proof fn lemma_key_range(e: Entity)
    ensures
        0 <= e.index as int * 0x1_0000_0000 + e.generation as int <= u64::MAX,
{
    assert(e.index as int * 0x1_0000_0000 <= 0xffff_ffff * 0x1_0000_0000) by (nonlinear_arith)
        requires
            e.index <= 0xffff_ffff,
    ;
}

/// Two entities are filed under the same number only if they are equal.
pub proof fn lemma_key_injective(a: Entity, b: Entity)
    ensures
        entity_key(a) == entity_key(b) ==> a == b,
{
    lemma_key_range(a);
    lemma_key_range(b);
    if entity_key(a) == entity_key(b) {
        let ia = a.index as int;
        let ib = b.index as int;
        let ga = a.generation as int;
        let gb = b.generation as int;
        assert(ia * 0x1_0000_0000 + ga == ib * 0x1_0000_0000 + gb);
        assert(ia == ib && ga == gb) by (nonlinear_arith)
            requires
                ia * 0x1_0000_0000 + ga == ib * 0x1_0000_0000 + gb,
                0 <= ga < 0x1_0000_0000,
                0 <= gb < 0x1_0000_0000,
        ;
    }
}

fn key_of(e: Entity) -> (k: u64)
    ensures
        k == entity_key(e),
{
    proof { lemma_key_range(e); }
    (e.index as u64) * 0x1_0000_0000u64 + (e.generation as u64)
}

/// The mathematical state of a world.
pub struct WorldModel {
    pub pool: PoolModel,
    pub archetypes: Seq<ArchetypeModel>,
    pub locations: Map<Entity, ArchetypeLocation>,
}

impl WorldModel {
    /// The archetype and column that hold component `t` of `e`, if any.
    pub open spec fn column_at(self, e: Entity, t: ComponentTypeId) -> Option<(int, int)> {
        if self.locations.contains_key(e) {
            let loc = self.locations[e];
            if loc.archetype_id < self.archetypes.len() {
                match column_index_of(self.archetypes[loc.archetype_id as int].columns, t) {
                    Some(c) => Some((loc.archetype_id as int, c)),
                    None => None,
                }
            } else {
                None
            }
        } else {
            None
        }
    }

    /// The stored bytes of component `t` of `e`, if `e` has such a component.
    pub open spec fn component(self, e: Entity, t: ComponentTypeId) -> Option<Seq<u8>> {
        match self.column_at(e, t) {
            Some((a, c)) => Some(self.archetypes[a].columns[c].row_bytes(self.locations[e].row as nat)),
            None => None,
        }
    }

    /// Writing `n` bytes as component `t` of `e` replaces exactly one element.
    pub open spec fn write_fits(self, e: Entity, t: ComponentTypeId, n: nat) -> bool {
        match self.column_at(e, t) {
            Some((a, c)) => self.archetypes[a].columns[c].stride == n,
            None => true,
        }
    }

    /// The world after writing `bytes` over component `t` of `e`; unchanged
    /// when `e` has no such component.
    pub open spec fn set_component(self, e: Entity, t: ComponentTypeId, bytes: Seq<u8>) -> WorldModel {
        match self.column_at(e, t) {
            Some((a, c)) => {
                let arch = self.archetypes[a];
                let col = arch.columns[c];
                let start = row_start(col.stride, self.locations[e].row as nat);
                WorldModel {
                    archetypes: self.archetypes.update(
                        a,
                        ArchetypeModel {
                            columns: arch.columns.update(c, ColumnModel { data: overwrite(col.data, start, bytes), ..col }),
                            ..arch
                        },
                    ),
                    ..self
                }
            },
            None => self,
        }
    }

    /// The archetype that stores the components of `e`: the one its location
    /// names, or an archetype without component types when it has none.
    pub open spec fn home(self, e: Entity) -> ArchetypeModel {
        if self.locations.contains_key(e) {
            self.archetypes[self.locations[e].archetype_id as int]
        } else {
            ArchetypeModel { signature: Seq::empty(), entities: Seq::empty(), columns: Seq::empty() }
        }
    }

    /// The bytes of each component of `e`, in the column order of its archetype.
    pub open spec fn home_row(self, e: Entity) -> Seq<Seq<u8>> {
        if self.locations.contains_key(e) {
            self.home(e).row(self.locations[e].row as nat)
        } else {
            Seq::empty()
        }
    }

    /// The world with `e` appended to the archetype whose signature is that
    /// of its own archetype with `t` added (created if there is none), its
    /// components carried along and `bytes` as its component `t`, and its
    /// location pointing there. Its old row, if any, is still in place.
    pub open spec fn migrate(self, e: Entity, t: ComponentTypeId, bytes: Seq<u8>) -> WorldModel {
        let src = self.home(e);
        let p = insert_pos(src.signature, t);
        let sig = src.signature.insert(p, t);
        let archs = with_archetype(self.archetypes, sig, src.layout().insert(p, (t, bytes.len())));
        let b = find_archetype(archs, sig).unwrap();
        WorldModel {
            pool: self.pool,
            archetypes: archs.update(b, archs[b].push_row(e, self.home_row(e).insert(p, bytes))),
            locations: self.locations.insert(
                e,
                ArchetypeLocation { archetype_id: b as usize, row: archs[b].entities.len() as usize },
            ),
        }
    }

    /// The world after the swap-remove of row `row` of archetype `a`: the
    /// entity moved into that row, if any, is located there.
    pub open spec fn detach_row(self, a: usize, row: usize) -> WorldModel {
        let arch = self.archetypes[a as int];
        WorldModel {
            pool: self.pool,
            archetypes: self.archetypes.update(a as int, arch.remove_row(row as nat)),
            locations: match arch.moved_by_remove(row as nat) {
                Some(m) => self.locations.insert(m, ArchetypeLocation { archetype_id: a, row }),
                None => self.locations,
            },
        }
    }

    /// The world after inserting component `t` of `e` with `bytes`. When `e`
    /// has the component it is overwritten in place. Otherwise `e` moves to
    /// the archetype of its component types and `t` (created if there is
    /// none), carrying its components along, and its old row is swap-removed.
    pub open spec fn insert_component(self, e: Entity, t: ComponentTypeId, bytes: Seq<u8>) -> WorldModel {
        if self.column_at(e, t) is Some {
            self.set_component(e, t, bytes)
        } else if self.locations.contains_key(e) {
            let loc = self.locations[e];
            self.migrate(e, t, bytes).detach_row(loc.archetype_id, loc.row)
        } else {
            self.migrate(e, t, bytes)
        }
    }

    /// The world after despawning `e`: its location is dropped and its row
    /// swap-removed from its archetype, and its slot is released in the pool.
    pub open spec fn despawn(self, e: Entity) -> WorldModel {
        let rest = WorldModel { locations: self.locations.remove(e), ..self };
        let detached = if self.locations.contains_key(e) {
            rest.detach_row(self.locations[e].archetype_id, self.locations[e].row)
        } else {
            rest
        };
        WorldModel { pool: self.pool.despawn(e).0, ..detached }
    }

    /// Every column of type `t` in the world has elements of `n` bytes.
    pub open spec fn stride_is(self, t: ComponentTypeId, n: nat) -> bool {
        forall|a: int, k: int|
            0 <= a < self.archetypes.len() && 0 <= k < self.archetypes[a].columns.len()
                && (#[trigger] self.archetypes[a].columns[k]).type_id == t ==> self.archetypes[a].columns[k].stride
                == n
    }

    /// Columns of one type id have one stride, in whatever archetype.
    pub open spec fn strides_agree(self) -> bool {
        forall|a: int, k: int, b: int, j: int|
            0 <= a < self.archetypes.len() && 0 <= k < self.archetypes[a].columns.len() && 0 <= b
                < self.archetypes.len() && 0 <= j < self.archetypes[b].columns.len()
                && (#[trigger] self.archetypes[a].columns[k]).type_id == (#[trigger] self.archetypes[b].columns[j]).type_id
                ==> self.archetypes[a].columns[k].stride == self.archetypes[b].columns[j].stride
    }

    /// Locations and rows agree, but for the row `hole` (an archetype and a
    /// row) if one is given: the location of each located entity names a row
    /// that holds it, and the entity of each row is located at that row.
    pub open spec fn rows_agree(self, hole: Option<(int, int)>) -> bool {
        &&& forall|e: Entity|
            #[trigger] self.locations.contains_key(e) ==> {
                let loc = self.locations[e];
                &&& loc.row < self.archetypes[loc.archetype_id as int].entities.len()
                &&& self.archetypes[loc.archetype_id as int].entities[loc.row as int] == e
                &&& hole != Some((loc.archetype_id as int, loc.row as int))
            }
        &&& forall|a: int, r: int|
            0 <= a < self.archetypes.len() && 0 <= r < self.archetypes[a].entities.len() && hole != Some((a, r)) ==> {
                let e = #[trigger] self.archetypes[a].entities[r];
                &&& self.locations.contains_key(e)
                &&& self.locations[e].archetype_id == a
                &&& self.locations[e].row == r
            }
    }

    /// Locations and rows agree everywhere.
    pub open spec fn consistent(self) -> bool {
        self.rows_agree(None)
    }

    /// Every part of well-formedness but the agreement of rows and
    /// locations: the pool is well formed; every archetype is, with a sorted
    /// signature; no two archetypes share a signature; columns of one type
    /// have one stride; every location names an archetype; and the counts fit
    /// in a `usize`.
    pub open spec fn well_shaped(self) -> bool {
        &&& self.pool.wf()
        &&& self.archetypes_ok()
        &&& forall|a: int| 0 <= a < self.archetypes.len() ==> strictly_sorted(#[trigger] self.archetypes[a].signature)
        &&& forall|a: int, b: int|
            0 <= a < b < self.archetypes.len() ==> (#[trigger] self.archetypes[a]).signature
                != (#[trigger] self.archetypes[b]).signature
        &&& self.strides_agree()
        &&& self.counts_fit()
    }

    /// Every archetype is well formed, and every location names one.
    pub open spec fn archetypes_ok(self) -> bool {
        &&& forall|a: int| 0 <= a < self.archetypes.len() ==> (#[trigger] self.archetypes[a]).wf()
        &&& forall|e: Entity|
            #[trigger] self.locations.contains_key(e) ==> self.locations[e].archetype_id < self.archetypes.len()
    }

    /// The number of archetypes, and of rows in each, fit in a `usize`.
    pub open spec fn counts_fit(self) -> bool {
        &&& self.archetypes.len() <= usize::MAX
        &&& forall|a: int| 0 <= a < self.archetypes.len() ==> (#[trigger] self.archetypes[a]).entities.len() <= usize::MAX
    }

    /// Well-formedness: well shaped, and locations and rows agree.
    pub open spec fn wf(self) -> bool {
        &&& self.well_shaped()
        &&& self.consistent()
    }
}

/// The rows of `arch` as `(entity, bytes of component t)` pairs, in row
/// order, when its signature holds `t`; no rows otherwise.
pub open spec fn archetype_rows(arch: ArchetypeModel, t: ComponentTypeId) -> Seq<(Entity, Seq<u8>)> {
    if arch.signature.contains(t) {
        let c = column_index_of(arch.columns, t).unwrap();
        Seq::new(arch.entities.len(), |r: int| (arch.entities[r], arch.columns[c].row_bytes(r as nat)))
    } else {
        Seq::empty()
    }
}

/// The rows of component `t` over all archetypes, archetype by archetype.
pub open spec fn query_rows(archs: Seq<ArchetypeModel>, t: ComponentTypeId) -> Seq<(Entity, Seq<u8>)>
    decreases archs.len(),
{
    if archs.len() == 0 {
        Seq::empty()
    } else {
        query_rows(archs.drop_last(), t) + archetype_rows(archs.last(), t)
    }
}

/// The pairs of `r` are those of `q`: same entities, same bytes.
pub open spec fn rows_match(r: Seq<(Entity, &[u8])>, q: Seq<(Entity, Seq<u8>)>) -> bool {
    &&& r.len() == q.len()
    &&& forall|i: int| 0 <= i < r.len() ==> (#[trigger] r[i]).0 == q[i].0 && r[i].1@ == q[i].1
}

/// The index of the first archetype whose signature is `sig`, if any.
pub open spec fn find_archetype(archs: Seq<ArchetypeModel>, sig: Seq<ComponentTypeId>) -> Option<int>
    decreases archs.len(),
{
    if archs.len() == 0 {
        None
    } else if archs.last().signature == sig && find_archetype(archs.drop_last(), sig) is None {
        Some(archs.len() - 1)
    } else {
        find_archetype(archs.drop_last(), sig)
    }
}

/// What `find_archetype` finds has signature `sig`; when it finds nothing,
/// no archetype has it.
pub proof fn lemma_find_archetype_spec(archs: Seq<ArchetypeModel>, sig: Seq<ComponentTypeId>)
    ensures
        match find_archetype(archs, sig) {
            Some(i) => 0 <= i < archs.len() && archs[i].signature == sig,
            None => forall|k: int| 0 <= k < archs.len() ==> (#[trigger] archs[k]).signature != sig,
        },
    decreases archs.len(),
{
    if archs.len() > 0 {
        let init = archs.drop_last();
        lemma_find_archetype_spec(init, sig);
        assert forall|k: int| 0 <= k < init.len() implies init[k] == archs[k] by {}
    }
}

/// `find_archetype` names the first archetype with signature `sig`.
pub proof fn lemma_find_archetype_first(archs: Seq<ArchetypeModel>, sig: Seq<ComponentTypeId>, i: int)
    requires
        0 <= i < archs.len(),
        archs[i].signature == sig,
        forall|k: int| 0 <= k < i ==> (#[trigger] archs[k]).signature != sig,
    ensures
        find_archetype(archs, sig) == Some(i),
    decreases archs.len(),
{
    if i < archs.len() - 1 {
        lemma_find_archetype_first(archs.drop_last(), sig, i);
    } else {
        lemma_find_archetype_spec(archs.drop_last(), sig);
    }
}

/// An empty archetype of signature `sig`, with one column per `(type id, stride)`.
pub open spec fn empty_archetype(sig: Seq<ComponentTypeId>, strides: Seq<(ComponentTypeId, nat)>) -> ArchetypeModel {
    ArchetypeModel {
        signature: sig,
        entities: Seq::empty(),
        columns: strides.map_values(|p: (ComponentTypeId, nat)| ColumnModel { type_id: p.0, stride: p.1, data: Seq::empty() }),
    }
}

/// `archs` with an archetype of signature `sig` appended if none has it yet.
pub open spec fn with_archetype(
    archs: Seq<ArchetypeModel>,
    sig: Seq<ComponentTypeId>,
    strides: Seq<(ComponentTypeId, nat)>,
) -> Seq<ArchetypeModel> {
    if find_archetype(archs, sig) is Some {
        archs
    } else {
        archs.push(empty_archetype(sig, strides))
    }
}

/// The location of a located entity in a well-formed world names an
/// existing row, which every column of its archetype holds.
pub proof fn lemma_located_row(w: WorldModel, e: Entity)
    requires
        w.wf(),
        w.locations.contains_key(e),
    ensures
        w.locations[e].archetype_id < w.archetypes.len(),
        w.locations[e].row < w.archetypes[w.locations[e].archetype_id as int].entities.len(),
        forall|k: int|
            0 <= k < w.archetypes[w.locations[e].archetype_id as int].columns.len()
                ==> (#[trigger] w.archetypes[w.locations[e].archetype_id as int].columns[k]).holds_row(
                w.locations[e].row as nat,
            ),
{
    let loc = w.locations[e];
    assert(w.archetypes[loc.archetype_id as int].wf());
    lemma_rows_fit(w.archetypes[loc.archetype_id as int], loc.row as nat);
}

/// Overwriting a component keeps the world well formed.
pub proof fn lemma_set_component_wf(w: WorldModel, e: Entity, t: ComponentTypeId, bytes: Seq<u8>)
    requires
        w.wf(),
        w.write_fits(e, t, bytes.len()),
    ensures
        w.set_component(e, t, bytes).wf(),
{
    match w.column_at(e, t) {
        Some((a, c)) => {
            let n = w.set_component(e, t, bytes);
            lemma_column_index_of_spec(w.archetypes[a].columns, t);
            lemma_located_row(w, e);
            assert(w.archetypes[a].wf());
            assert(n.archetypes[a].wf());
            assert forall|x: int, y: int|
                0 <= x < y < n.archetypes.len() implies (#[trigger] n.archetypes[x]).signature
                    != (#[trigger] n.archetypes[y]).signature by {
                assert(w.archetypes[x].signature != w.archetypes[y].signature);
            }
            assert forall|x: int| 0 <= x < n.archetypes.len() implies (#[trigger] n.archetypes[x]).wf()
                && strictly_sorted(n.archetypes[x].signature) && n.archetypes[x].entities.len() <= usize::MAX by {
                assert(w.archetypes[x].wf());
            }
            assert forall|x: int, k: int| 0 <= x < n.archetypes.len() && 0 <= k < n.archetypes[x].columns.len()
                implies #[trigger] n.archetypes[x].columns[k].type_id == w.archetypes[x].columns[k].type_id
                && n.archetypes[x].columns[k].stride == w.archetypes[x].columns[k].stride by {}
            assert forall|x: int| 0 <= x < n.archetypes.len() implies #[trigger] n.archetypes[x].entities
                == w.archetypes[x].entities by {}
        },
        None => {},
    }
}

/// Reading a component back after overwriting it gives the bytes written.
pub proof fn lemma_set_component_reads_back(w: WorldModel, e: Entity, t: ComponentTypeId, bytes: Seq<u8>)
    requires
        w.wf(),
        w.write_fits(e, t, bytes.len()),
        w.column_at(e, t) is Some,
    ensures
        w.set_component(e, t, bytes).component(e, t) == Some(bytes),
{
    let (a, c) = w.column_at(e, t).unwrap();
    let n = w.set_component(e, t, bytes);
    lemma_column_index_of_spec(w.archetypes[a].columns, t);
    lemma_column_index_of_types(w.archetypes[a].columns, n.archetypes[a].columns, t);
    lemma_located_row(w, e);
    assert(n.column_at(e, t) == Some((a, c)));
    let col = w.archetypes[a].columns[c];
    lemma_overwrite_row(col.data, col.stride, w.locations[e].row as nat, bytes);
}

/// Where every column of type `t` has `n`-byte elements, writing `n` bytes
/// as any component of type `t` replaces exactly one element.
pub proof fn lemma_stride_is_write_fits(w: WorldModel, e: Entity, t: ComponentTypeId, n: nat)
    requires
        w.well_shaped(),
        w.stride_is(t, n),
    ensures
        w.write_fits(e, t, n),
{
    match w.column_at(e, t) {
        Some((a, c)) => {
            lemma_column_index_of_spec(w.archetypes[a].columns, t);
        },
        None => {},
    }
}

/// Adding an archetype of sorted signature `sig`, with columns laid out as
/// `lay` in the strides the world already uses, keeps the world well shaped
/// and its rows in agreement. The archetype of signature `sig` is then laid
/// out as `lay`; the archetypes before it are unchanged, and a new one is the
/// last and empty.
pub proof fn lemma_with_archetype(w: WorldModel, sig: Seq<ComponentTypeId>, lay: Seq<(ComponentTypeId, nat)>)
    requires
        w.well_shaped(),
        strictly_sorted(sig),
        lay.len() == sig.len(),
        forall|k: int| 0 <= k < lay.len() ==> (#[trigger] lay[k]).0 == sig[k] && w.stride_is(lay[k].0, lay[k].1),
    ensures
        ({
            let archs = with_archetype(w.archetypes, sig, lay);
            let b = find_archetype(archs, sig).unwrap();
            let n = WorldModel { archetypes: archs, ..w };
            &&& archs.len() <= usize::MAX ==> n.well_shaped()
            &&& forall|hole: Option<(int, int)>| w.rows_agree(hole) ==> #[trigger] n.rows_agree(hole)
            &&& find_archetype(archs, sig) is Some
            &&& 0 <= b < archs.len()
            &&& archs.len() <= w.archetypes.len() + 1
            &&& forall|x: int| 0 <= x < w.archetypes.len() ==> #[trigger] archs[x] == w.archetypes[x]
            &&& archs[b].signature == sig
            &&& archs[b].wf()
            &&& archs[b].layout() == lay
            &&& b >= w.archetypes.len() ==> b == w.archetypes.len() && archs[b].entities.len() == 0
        }),
{
    let archs = with_archetype(w.archetypes, sig, lay);
    let n = WorldModel { archetypes: archs, ..w };
    lemma_find_archetype_spec(w.archetypes, sig);
    match find_archetype(w.archetypes, sig) {
        Some(b) => {
            assert(archs == w.archetypes);
            let arch = w.archetypes[b];
            assert(arch.wf());
            assert(arch.layout() =~= lay) by {
                assert forall|k: int| 0 <= k < lay.len() implies #[trigger] arch.layout()[k] == lay[k] by {
                    assert(arch.columns[k].type_id == sig[k]);
                    assert(w.stride_is(lay[k].0, lay[k].1));
                }
            }
        },
        None => {
            let fresh = empty_archetype(sig, lay);
            let b = w.archetypes.len() as int;
            assert(archs == w.archetypes.push(fresh));
            lemma_find_archetype_first(archs, sig, b);
            assert(fresh.layout() =~= lay);
            assert(fresh.wf());
            assert forall|x: int| 0 <= x < archs.len() implies (#[trigger] archs[x]).wf() && strictly_sorted(
                archs[x].signature,
            ) && archs[x].entities.len() <= usize::MAX by {
                if x < b {
                    assert(w.archetypes[x] == archs[x]);
                }
            }
            assert forall|x: int, y: int| 0 <= x < y < archs.len() implies (#[trigger] archs[x]).signature
                != (#[trigger] archs[y]).signature by {
                if y < b {
                    assert(w.archetypes[x].signature != w.archetypes[y].signature);
                } else {
                    assert(w.archetypes[x].signature != sig);
                }
            }
            assert forall|x: int, k: int, y: int, j: int|
                0 <= x < archs.len() && 0 <= k < archs[x].columns.len() && 0 <= y < archs.len() && 0 <= j
                    < archs[y].columns.len() && (#[trigger] archs[x].columns[k]).type_id
                    == (#[trigger] archs[y].columns[j]).type_id implies archs[x].columns[k].stride
                == archs[y].columns[j].stride by {
                if x == b {
                    assert(w.stride_is(lay[k].0, lay[k].1));
                    if y == b {
                        assert(lay[k].0 == sig[k] && lay[j].0 == sig[j]);
                        if k < j {
                            assert(sig[k].0 < sig[j].0);
                        } else if j < k {
                            assert(sig[j].0 < sig[k].0);
                        }
                    }
                } else if y == b {
                    assert(w.stride_is(lay[j].0, lay[j].1));
                }
            }
            assert forall|hole: Option<(int, int)>| w.rows_agree(hole) implies #[trigger] n.rows_agree(hole) by {
                assert forall|e: Entity| #[trigger] n.locations.contains_key(e) implies {
                    let loc = n.locations[e];
                    &&& loc.row < n.archetypes[loc.archetype_id as int].entities.len()
                    &&& n.archetypes[loc.archetype_id as int].entities[loc.row as int] == e
                    &&& hole != Some((loc.archetype_id as int, loc.row as int))
                } by {
                    assert(w.locations[e].archetype_id < b);
                }
                assert forall|x: int, r: int|
                    0 <= x < n.archetypes.len() && 0 <= r < n.archetypes[x].entities.len() && hole != Some((x, r)) implies {
                    let e = #[trigger] n.archetypes[x].entities[r];
                    &&& n.locations.contains_key(e)
                    &&& n.locations[e].archetype_id == x
                    &&& n.locations[e].row == r
                } by {
                    assert(x < b);
                    assert(w.archetypes[x] == archs[x]);
                }
            }
        },
    }
}

/// The place of `t` in the sorted type ids `types`: after every smaller id.
fn place_in_signature(types: &Vec<ComponentTypeId>, t: ComponentTypeId) -> (p: usize)
    requires
        strictly_sorted(types@),
    ensures
        p == insert_pos(types@, t),
        p <= types@.len(),
{
    proof {
        lemma_insert_pos(types@, t);
    }
    let mut p: usize = 0;
    while p < types.len() && types[p].0 < t.0
        invariant
            p <= types@.len(),
            forall|j: int| 0 <= j < p ==> (#[trigger] types@[j]).0 < t.0,
        decreases types@.len() - p,
    {
        p = p + 1;
    }
    proof {
        let ip = insert_pos(types@, t);
        if (p as int) < ip {
            assert(types@[p as int].0 < t.0);
        } else if (p as int) > ip {
            assert(types@[ip].0 < t.0);
        }
    }
    p
}

/// The type ids of two signatures are equal.
fn same_types(a: &ArchetypeSignature, b: &ArchetypeSignature) -> (r: bool)
    ensures
        r == (a.0@ == b.0@),
{
    if a.0.len() != b.0.len() {
        return false;
    }
    let mut i: usize = 0;
    while i < a.0.len()
        invariant
            a.0@.len() == b.0@.len(),
            i <= a.0@.len(),
            forall|k: int| 0 <= k < i ==> a.0@[k] == b.0@[k],
        decreases a.0@.len() - i,
    {
        if a.0[i].0 != b.0[i].0 {
            return false;
        }
        i = i + 1;
    }
    assert(a.0@ =~= b.0@);
    true
}

/// In a well-formed archetype every column holds each existing row.
pub proof fn lemma_rows_fit(arch: ArchetypeModel, row: nat)
    requires
        arch.wf(),
        row < arch.entities.len(),
    ensures
        forall|k: int| 0 <= k < arch.columns.len() ==> (#[trigger] arch.columns[k]).holds_row(row),
{
    assert forall|k: int| 0 <= k < arch.columns.len() implies (#[trigger] arch.columns[k]).holds_row(row) by {
        let s = arch.columns[k].stride;
        let n = arch.entities.len();
        assert(arch.columns[k].data.len() == n * s);
        assert(row * s + s <= n * s) by (nonlinear_arith)
            requires
                row < n,
        ;
    }
}

/// Removing an existing row keeps an archetype well formed.
pub proof fn lemma_remove_row_wf(arch: ArchetypeModel, row: nat)
    requires
        arch.wf(),
        row < arch.entities.len(),
    ensures
        arch.remove_row(row).wf(),
        arch.remove_row(row).entities.len() == arch.entities.len() - 1,
{
    let r = arch.remove_row(row);
    assert forall|k: int| 0 <= k < r.columns.len() implies (#[trigger] r.columns[k]).data.len() == r.entities.len()
        * r.columns[k].stride by {
        let s = arch.columns[k].stride;
        let n = arch.entities.len();
        assert(arch.columns[k].data.len() == n * s);
        assert(n * s - s == (n - 1) * s) by (nonlinear_arith)
            requires
                n >= 1,
        ;
        assert(n * s >= s) by (nonlinear_arith)
            requires
                n >= 1,
        ;
    }
}

/// The registry of entities and of the archetypes that hold their components.
pub struct World {
    entities: EntityPool,
    archetypes: Vec<Archetype>,
    entity_locations: HashMap<u64, ArchetypeLocation>,
}

impl View for World {
    type V = WorldModel;

    closed spec fn view(&self) -> WorldModel {
        WorldModel {
            pool: self.entities@,
            archetypes: self.archetypes@.map_values(|a: Archetype| a@),
            locations: Map::new(
                |e: Entity| self.entity_locations@.contains_key(entity_key(e)),
                |e: Entity| self.entity_locations@[entity_key(e)],
            ),
        }
    }
}

impl World {
    pub fn new() -> (w: Self)
        ensures
            w@.wf(),
            w@.pool.slots == Seq::<EntitySlot>::empty(),
            w@.pool.free == Seq::<u32>::empty(),
            w@.archetypes == Seq::<ArchetypeModel>::empty(),
            w@.locations == Map::<Entity, ArchetypeLocation>::empty(),
    {
        let w = Self { entities: EntityPool::new(), archetypes: Vec::new(), entity_locations: HashMap::new() };
        assert(w@.locations =~= Map::<Entity, ArchetypeLocation>::empty());
        assert(w@.archetypes =~= Seq::<ArchetypeModel>::empty());
        w
    }

    /// Spawns a new entity (its components are added separately).
    pub fn spawn(&mut self) -> (e: Entity)
        requires
            old(self)@.wf(),
        ensures
            final(self)@ == (WorldModel { pool: old(self)@.pool.spawn().0, ..old(self)@ }),
            e == old(self)@.pool.spawn().1,
            final(self)@.wf(),
            old(self)@.pool.has_room() ==> final(self)@.pool.alive(e),
    {
        let e = self.entities.spawn();
        assert(self@.locations =~= old(self)@.locations);
        assert(self@.archetypes =~= old(self)@.archetypes);
        e
    }

    /// Overwrites the bytes of component `type_id` of `entity`; returns
    /// `false`, changing nothing, when the entity has no such component.
    pub fn set_component_bytes(&mut self, entity: Entity, type_id: ComponentTypeId, bytes: &[u8]) -> (r: bool)
        requires
            old(self)@.wf(),
            old(self)@.write_fits(entity, type_id, bytes@.len()),
        ensures
            r == old(self)@.column_at(entity, type_id) is Some,
            final(self)@ == old(self)@.set_component(entity, type_id, bytes@),
            final(self)@.wf(),
            r ==> final(self)@.component(entity, type_id) == Some(bytes@),
    {
        let ghost old_world = old(self)@;
        proof {
            lemma_set_component_wf(old_world, entity, type_id, bytes@);
        }
        let key = key_of(entity);
        let loc = match self.entity_locations.get(&key) {
            Some(l) => *l,
            None => {
                proof { assert(!old_world.locations.contains_key(entity)); }
                return false;
            },
        };
        proof {
            assert(old_world.locations.contains_key(entity));
            assert(old_world.locations[entity] == loc);
            lemma_located_row(old_world, entity);
        }
        let a = loc.archetype_id;
        let col_idx = match self.archetypes[a].column_index(type_id) {
            Some(i) => i,
            None => return false,
        };
        let ghost c = col_idx as int;
        proof {
            lemma_column_index_of_spec(old_world.archetypes[a as int].columns, type_id);
            assert(self.archetypes@[a as int]@ == old_world.archetypes[a as int]);
            assert(self.archetypes@[a as int].columns@[c]@ == old_world.archetypes[a as int].columns[c]);
        }
        self.archetypes[a].columns[col_idx].set_bytes(loc.row, bytes);
        proof {
            let target = old_world.set_component(entity, type_id, bytes@);
            assert(self@.archetypes[a as int].columns =~= target.archetypes[a as int].columns);
            assert(self@.archetypes =~= target.archetypes);
            assert(self@.locations =~= target.locations);
            lemma_set_component_reads_back(old_world, entity, type_id, bytes@);
        }
        true
    }

    /// The index of the archetype of signature `sig`, created (empty, with
    /// one column per `(type id, stride)`) if there is none yet.
    fn get_or_create_archetype(&mut self, sig: ArchetypeSignature, strides: Vec<(ComponentTypeId, usize)>) -> (id: usize)
        requires
            old(self)@.well_shaped(),
            strictly_sorted(sig.0@),
            strides@.len() == sig.0@.len(),
            forall|k: int|
                0 <= k < strides@.len() ==> (#[trigger] strides@[k]).0 == sig.0@[k] && old(self)@.stride_is(
                    strides@[k].0,
                    strides@[k].1 as nat,
                ),
        ensures
            final(self)@ == (WorldModel {
                archetypes: with_archetype(
                    old(self)@.archetypes,
                    sig.0@,
                    strides@.map_values(|p: (ComponentTypeId, usize)| (p.0, p.1 as nat)),
                ),
                ..old(self)@
            }),
            final(self)@.well_shaped(),
            Some(id as int) == find_archetype(final(self)@.archetypes, sig.0@),
    {
        let ghost old_world = self@;
        let ghost lay = strides@.map_values(|p: (ComponentTypeId, usize)| (p.0, p.1 as nat));
        proof {
            lemma_with_archetype(old_world, sig.0@, lay);
        }
        let mut i: usize = 0;
        while i < self.archetypes.len()
            invariant
                self@ == old_world,
                old_world.well_shaped(),
                i <= self.archetypes@.len(),
                forall|k: int| 0 <= k < i ==> (#[trigger] old_world.archetypes[k]).signature != sig.0@,
            decreases self.archetypes@.len() - i,
        {
            if same_types(&self.archetypes[i].signature, &sig) {
                proof { lemma_find_archetype_first(old_world.archetypes, sig.0@, i as int); }
                return i;
            }
            i = i + 1;
        }
        proof { lemma_find_archetype_spec(old_world.archetypes, sig.0@); }
        let id = self.archetypes.len();
        let ghost sig_seq = sig.0@;
        let arch = Archetype::new(sig, strides);
        self.archetypes.push(arch);
        proof {
            let target = empty_archetype(sig_seq, lay);
            assert(arch@.columns =~= target.columns);
            assert(self@.archetypes =~= old_world.archetypes.push(target));
            assert(self@.locations =~= old_world.locations);
            vstd::std_specs::vec::axiom_spec_len(&self.archetypes);
            lemma_find_archetype_first(self@.archetypes, sig_seq, id as int);
        }
        id
    }

    /// Swap-removes row `row` of archetype `a` and locates the entity moved
    /// into that row, if any, there.
    fn detach_row(&mut self, arch_id: usize, row: usize)
        requires
            old(self)@.archetypes.len() > arch_id,
            old(self)@.archetypes[arch_id as int].wf(),
            old(self)@.archetypes[arch_id as int].entities.len() > row,
        ensures
            final(self)@ == old(self)@.detach_row(arch_id, row),
    {
        let ghost old_world = self@;
        proof {
            assert(self.archetypes@[arch_id as int]@ == old_world.archetypes[arch_id as int]);
            lemma_rows_fit(old_world.archetypes[arch_id as int], row as nat);
        }
        let moved = self.archetypes[arch_id].remove_row(row);
        proof {
            assert(self@.archetypes =~= old_world.archetypes.update(
                arch_id as int,
                old_world.archetypes[arch_id as int].remove_row(row as nat),
            ));
        }
        if let Some(m) = moved {
            self.entity_locations.insert(key_of(m), ArchetypeLocation { archetype_id: arch_id, row });
            proof {
                let target = old_world.locations.insert(m, ArchetypeLocation { archetype_id: arch_id, row });
                assert forall|e: Entity| self@.locations.contains_key(e) == target.contains_key(e) by {
                    lemma_key_injective(e, m);
                }
                assert forall|e: Entity| #[trigger] self@.locations.contains_key(e) implies self@.locations[e]
                    == target[e] by {
                    lemma_key_injective(e, m);
                }
                assert(self@.locations =~= target);
            }
        } else {
            proof {
                assert(self@.locations =~= old_world.locations);
            }
        }
    }

    /// Inserts component `type_id` of `entity` with `bytes`. When the entity
    /// has that component it is overwritten in place. Otherwise the entity
    /// moves to the archetype of its component types and `type_id` (created
    /// if there is none): its components are carried along, `bytes` is added
    /// as the new one, and its old row is swap-removed.
    pub fn insert_component(&mut self, entity: Entity, type_id: ComponentTypeId, bytes: &[u8])
        requires
            old(self)@.wf(),
            old(self)@.stride_is(type_id, bytes@.len()),
        ensures
            final(self)@ == old(self)@.insert_component(entity, type_id, bytes@),
            final(self)@.wf(),
            final(self)@.pool == old(self)@.pool,
            final(self)@.component(entity, type_id) == Some(bytes@),
            forall|e: Entity, t: ComponentTypeId|
                e != entity || t != type_id ==> #[trigger] final(self)@.component(e, t) == old(self)@.component(e, t),
    {
        let ghost old_world = self@;
        proof {
            lemma_stride_is_write_fits(old_world, entity, type_id, bytes@.len());
            assert forall|e: Entity, t: ComponentTypeId| e != entity || t != type_id implies #[trigger] old_world.insert_component(
                entity,
                type_id,
                bytes@,
            ).component(e, t) == old_world.component(e, t) by {
                crate::ecs::world_laws::lemma_insert_component_other(old_world, entity, type_id, bytes@, e, t);
            }
            crate::ecs::world_laws::lemma_insert_component_reads_back(old_world, entity, type_id, bytes@);
        }
        if self.set_component_bytes(entity, type_id, bytes) {
            return;
        }
        let key = key_of(entity);
        let src = match self.entity_locations.get(&key) {
            Some(l) => Some(*l),
            None => None,
        };
        proof {
            assert(self@ == old_world);
            crate::ecs::migration::lemma_home(old_world, entity);
            match src {
                Some(l) => {
                    assert(old_world.locations.contains_key(entity));
                    assert(old_world.locations[entity] == l);
                    lemma_located_row(old_world, entity);
                },
                None => {
                    assert(!old_world.locations.contains_key(entity));
                },
            }
        }
        let ghost home = old_world.home(entity);
        // The signature, the layout and the row of the archetype the entity
        // leaves, column by column.
        let mut types: Vec<ComponentTypeId> = Vec::new();
        let mut strides: Vec<(ComponentTypeId, usize)> = Vec::new();
        let mut rows: Vec<Vec<u8>> = Vec::new();
        if let Some(loc) = src {
            let arch = &self.archetypes[loc.archetype_id];
            let mut k: usize = 0;
            while k < arch.columns.len()
                invariant
                    arch@ == home,
                    home.wf(),
                    forall|j: int| 0 <= j < home.columns.len() ==> (#[trigger] home.columns[j]).holds_row(loc.row as nat),
                    k <= arch.columns@.len(),
                    types@.len() == k,
                    strides@.len() == k,
                    rows@.len() == k,
                    forall|j: int|
                        0 <= j < k ==> {
                            &&& #[trigger] types@[j] == home.signature[j]
                            &&& strides@[j].0 == home.columns[j].type_id
                            &&& strides@[j].1 == home.columns[j].stride
                            &&& rows@[j]@ == home.columns[j].row_bytes(loc.row as nat)
                        },
                decreases arch.columns@.len() - k,
            {
                let col = &arch.columns[k];
                proof {
                    assert(col@ == home.columns[k as int]);
                }
                types.push(col.type_id);
                strides.push((col.type_id, col.stride));
                rows.push(vstd::slice::slice_to_vec(col.get_bytes(loc.row)));
                k = k + 1;
            }
        }
        proof {
            assert(types@ =~= home.signature);
            assert(strides@.map_values(|p: (ComponentTypeId, usize)| (p.0, p.1 as nat)) =~= home.layout());
            assert(rows@.map_values(|v: Vec<u8>| v@) =~= old_world.home_row(entity));
        }
        let p = place_in_signature(&types, type_id);
        let ghost strides0 = strides@;
        let ghost rows0 = rows@;
        types.insert(p, type_id);
        strides.insert(p, (type_id, bytes.len()));
        rows.insert(p, vstd::slice::slice_to_vec(bytes));
        let ghost lay = home.layout().insert(p as int, (type_id, bytes@.len()));
        proof {
            crate::ecs::migration::lemma_migrate_target(old_world, entity, type_id, bytes@);
            strides0.insert_ensures(p as int, (type_id, bytes.len()));
            home.layout().insert_ensures(p as int, (type_id, bytes@.len()));
            assert(strides@.map_values(|q: (ComponentTypeId, usize)| (q.0, q.1 as nat)) =~= lay);
            rows0.insert_ensures(p as int, rows@[p as int]);
            old_world.home_row(entity).insert_ensures(p as int, bytes@);
            assert(rows@.map_values(|v: Vec<u8>| v@) =~= old_world.home_row(entity).insert(p as int, bytes@));
            assert forall|k: int| 0 <= k < strides@.len() implies (#[trigger] strides@[k]).0 == types@[k]
                && old_world.stride_is(strides@[k].0, strides@[k].1 as nat) by {
                assert(lay[k] == (strides@[k].0, strides@[k].1 as nat));
            }
        }
        let b = self.get_or_create_archetype(ArchetypeSignature(types), strides);
        let row = self.archetypes[b].len();
        self.archetypes[b].push_row(entity, &rows);
        self.entity_locations.insert(key, ArchetypeLocation { archetype_id: b, row });
        proof {
            let target = old_world.migrate(entity, type_id, bytes@);
            assert forall|e: Entity| self@.locations.contains_key(e) == target.locations.contains_key(e) by {
                lemma_key_injective(e, entity);
            }
            assert forall|e: Entity| #[trigger] self@.locations.contains_key(e) implies self@.locations[e]
                == target.locations[e] by {
                lemma_key_injective(e, entity);
            }
            assert(self@.locations =~= target.locations);
            assert(self@.archetypes =~= target.archetypes);
            assert(self@ == target);
        }
        if let Some(loc) = src {
            self.detach_row(loc.archetype_id, loc.row);
        }
        proof {
            assert(self@ == old_world.insert_component(entity, type_id, bytes@));
            vstd::std_specs::vec::axiom_spec_len(&self.archetypes);
            assert forall|x: int| 0 <= x < self@.archetypes.len() implies (#[trigger] self@.archetypes[x]).entities.len()
                <= usize::MAX by {
                vstd::std_specs::vec::axiom_spec_len(&self.archetypes@[x].entities);
            }
            crate::ecs::world_laws::lemma_insert_component_wf(old_world, entity, type_id, bytes@);
        }
    }

    /// The bytes of component `type_id` of `entity`, if it has one.
    pub fn get_component_bytes(&self, entity: Entity, type_id: ComponentTypeId) -> (r: Option<&[u8]>)
        requires
            self@.wf(),
        ensures
            match r {
                Some(b) => self@.component(entity, type_id) == Some(b@),
                None => self@.component(entity, type_id) is None,
            },
    {
        let key = key_of(entity);
        let loc = match self.entity_locations.get(&key) {
            Some(l) => *l,
            None => return None,
        };
        proof {
            assert(self@.locations.contains_key(entity));
            lemma_located_row(self@, entity);
        }
        let archetype = &self.archetypes[loc.archetype_id];
        let col_idx = match archetype.column_index(type_id) {
            Some(i) => i,
            None => return None,
        };
        proof {
            lemma_column_index_of_spec(self@.archetypes[loc.archetype_id as int].columns, type_id);
        }
        Some(archetype.columns[col_idx].get_bytes(loc.row))
    }

    /// The bytes of component `type_id` of `entity`, if it has one and it is
    /// `size` bytes long.
    pub fn get_component(&self, entity: Entity, type_id: ComponentTypeId, size: usize) -> (r: Option<&[u8]>)
        requires
            self@.wf(),
        ensures
            match r {
                Some(b) => self@.component(entity, type_id) == Some(b@) && b@.len() == size,
                None => match self@.component(entity, type_id) {
                    Some(b) => b.len() != size,
                    None => true,
                },
            },
    {
        let bytes = self.get_component_bytes(entity, type_id)?;
        if bytes.len() != size {
            return None;
        }
        Some(bytes)
    }

    /// Despawns `entity`: removes its row from its archetype, if it has one,
    /// and releases its slot so that its handle is dead from now on.
    pub fn despawn(&mut self, entity: Entity)
        requires
            old(self)@.wf(),
        ensures
            final(self)@ == old(self)@.despawn(entity),
            final(self)@.wf(),
            !final(self)@.pool.alive(entity),
            !final(self)@.locations.contains_key(entity),
            forall|t: ComponentTypeId| #[trigger] final(self)@.component(entity, t) is None,
    {
        let ghost old_world = self@;
        let key = key_of(entity);
        let removed = self.entity_locations.remove(&key);
        proof {
            assert forall|e: Entity| self@.locations.contains_key(e) == old_world.locations.remove(entity).contains_key(e) by {
                lemma_key_injective(e, entity);
            }
            assert(self@.locations =~= old_world.locations.remove(entity));
        }
        if let Some(loc) = removed {
            proof {
                assert(old_world.locations.contains_key(entity));
                assert(old_world.locations[entity] == loc);
                lemma_located_row(old_world, entity);
            }
            self.detach_row(loc.archetype_id, loc.row);
        }
        self.entities.despawn(entity);
        proof {
            assert(self@.pool == old_world.pool.despawn(entity).0);
            let target = old_world.despawn(entity);
            assert(self@.locations =~= target.locations);
            assert(self@.archetypes =~= target.archetypes);
            crate::ecs::migration::lemma_despawn_wf(old_world, entity);
        }
    }

    /// Every entity stored with component `type_id`, with the bytes of that
    /// component, archetype by archetype and row by row.
    pub fn query_raw(&self, type_id: ComponentTypeId) -> (r: Vec<(Entity, &[u8])>)
        requires
            self@.wf(),
        ensures
            rows_match(r@, query_rows(self@.archetypes, type_id)),
    {
        let mut out: Vec<(Entity, &[u8])> = Vec::new();
        let mut a: usize = 0;
        while a < self.archetypes.len()
            invariant
                self@.wf(),
                a <= self.archetypes@.len(),
                rows_match(out@, query_rows(self@.archetypes.subrange(0, a as int), type_id)),
            decreases self.archetypes@.len() - a,
        {
            let arch = &self.archetypes[a];
            let ghost am = self@.archetypes[a as int];
            let ghost before = query_rows(self@.archetypes.subrange(0, a as int), type_id);
            proof {
                let pre = self@.archetypes.subrange(0, a as int);
                let pre1 = self@.archetypes.subrange(0, a + 1);
                assert(pre1.drop_last() =~= pre);
                assert(pre1.last() == am);
                assert(arch@ == am);
                assert(am.wf());
            }
            if arch.signature.contains(&type_id) {
                let found = arch.column_index(type_id);
                proof {
                    lemma_column_index_of_spec(am.columns, type_id);
                    let k = choose|k: int| 0 <= k < am.signature.len() && am.signature[k] == type_id;
                    assert(am.columns[k].type_id == type_id);
                }
                let col_idx = found.unwrap();
                let col = &arch.columns[col_idx];
                let ghost rows = archetype_rows(am, type_id);
                let mut row: usize = 0;
                while row < arch.entities.len()
                    invariant
                        self@.wf(),
                        arch@ == am,
                        am.wf(),
                        col_idx < am.columns.len(),
                        col@ == am.columns[col_idx as int],
                        column_index_of(am.columns, type_id) == Some(col_idx as int),
                        am.signature.contains(type_id),
                        row <= am.entities.len(),
                        rows == archetype_rows(am, type_id),
                        rows_match(out@, before + rows.subrange(0, row as int)),
                    decreases am.entities.len() - row,
                {
                    proof {
                        lemma_rows_fit(am, row as nat);
                    }
                    let bytes = col.get_bytes(row);
                    out.push((arch.entities[row], bytes));
                    proof {
                        let q = before + rows.subrange(0, row + 1);
                        assert forall|i: int| 0 <= i < out@.len() implies (#[trigger] out@[i]).0 == q[i].0 && out@[i].1@
                            == q[i].1 by {
                            if i < out@.len() - 1 {
                                assert(q[i] == (before + rows.subrange(0, row as int))[i]);
                            }
                        }
                    }
                    row = row + 1;
                }
                proof {
                    assert(rows.subrange(0, row as int) =~= rows);
                    assert(query_rows(self@.archetypes.subrange(0, a + 1), type_id) == before + archetype_rows(am, type_id));
                }
            } else {
                proof {
                    assert(archetype_rows(am, type_id) =~= Seq::<(Entity, Seq<u8>)>::empty());
                    assert(before + archetype_rows(am, type_id) =~= before);
                    assert(query_rows(self@.archetypes.subrange(0, a + 1), type_id) == before + archetype_rows(am, type_id));
                }
            }
            a = a + 1;
        }
        proof {
            assert(self@.archetypes.subrange(0, a as int) =~= self@.archetypes);
        }
        out
    }

    /// Whether every column of type `type_id` has elements of `n` bytes.
    pub fn stride_is(&self, type_id: ComponentTypeId, n: usize) -> (r: bool)
        ensures
            r == self@.stride_is(type_id, n as nat),
    {
        let mut a: usize = 0;
        while a < self.archetypes.len()
            invariant
                a <= self.archetypes@.len(),
                forall|x: int, k: int|
                    0 <= x < a && 0 <= k < self@.archetypes[x].columns.len()
                        && (#[trigger] self@.archetypes[x].columns[k]).type_id == type_id ==> self@.archetypes[x].columns[k].stride
                        == n,
            decreases self.archetypes@.len() - a,
        {
            let arch = &self.archetypes[a];
            let mut k: usize = 0;
            while k < arch.columns.len()
                invariant
                    a < self.archetypes@.len(),
                    arch@ == self@.archetypes[a as int],
                    k <= arch.columns@.len(),
                    forall|x: int, j: int|
                        0 <= x < a && 0 <= j < self@.archetypes[x].columns.len()
                            && (#[trigger] self@.archetypes[x].columns[j]).type_id == type_id ==> self@.archetypes[x].columns[j].stride
                            == n,
                    forall|j: int|
                        0 <= j < k && (#[trigger] self@.archetypes[a as int].columns[j]).type_id == type_id
                            ==> self@.archetypes[a as int].columns[j].stride == n,
                decreases arch.columns@.len() - k,
            {
                let col = &arch.columns[k];
                if col.type_id.0 == type_id.0 && col.stride != n {
                    proof {
                        assert(self@.archetypes[a as int].columns[k as int] == col@);
                    }
                    return false;
                }
                k = k + 1;
            }
            a = a + 1;
        }
        true
    }

    /// Whether `entity` names a living entity.
    pub fn is_alive(&self, entity: Entity) -> (r: bool)
        ensures
            r == self@.pool.alive(entity),
    {
        self.entities.is_alive(entity)
    }
}

} // verus!
