//! How rows move in a world: the swap-remove of a row, and the move of an
//! entity to the archetype that has one more component type than its own.

use vstd::prelude::*;
use crate::ecs::archetype::{
    column_index_of, insert_pos, lemma_column_index_of_spec, lemma_column_index_of_types, lemma_column_of_sorted,
    lemma_insert_pos, lemma_push_row, lemma_sorted_insert, lemma_swap_removed_rows, strictly_sorted, ArchetypeModel,
    ComponentTypeId,
};
use crate::ecs::entity::Entity;
use crate::ecs::world::{
    find_archetype, lemma_located_row, lemma_remove_row_wf, lemma_rows_fit, lemma_with_archetype, with_archetype,
    ArchetypeLocation, WorldModel,
};

verus! {

/// Swap-removing an existing row keeps the archetypes of a world well
/// formed, its layout, its signatures and the archetypes its locations name.
pub proof fn lemma_detach_row_ok(w: WorldModel, a: usize, r: usize)
    requires
        w.archetypes_ok(),
        a < w.archetypes.len(),
        r < w.archetypes[a as int].entities.len(),
    ensures
        w.detach_row(a, r).archetypes_ok(),
        w.detach_row(a, r).archetypes.len() == w.archetypes.len(),
        forall|x: int|
            0 <= x < w.archetypes.len() ==> (#[trigger] w.detach_row(a, r).archetypes[x]).signature
                == w.archetypes[x].signature && w.detach_row(a, r).archetypes[x].columns.len()
                == w.archetypes[x].columns.len() && w.detach_row(a, r).archetypes[x].entities.len()
                <= w.archetypes[x].entities.len(),
        forall|x: int, k: int|
            0 <= x < w.archetypes.len() && 0 <= k < w.archetypes[x].columns.len() ==> (#[trigger] w.detach_row(
                a,
                r,
            ).archetypes[x].columns[k]).type_id == w.archetypes[x].columns[k].type_id && w.detach_row(
                a,
                r,
            ).archetypes[x].columns[k].stride == w.archetypes[x].columns[k].stride,
{
    let n = w.detach_row(a, r);
    let arch = w.archetypes[a as int];
    assert(arch.wf());
    lemma_remove_row_wf(arch, r as nat);
    assert forall|x: int| 0 <= x < n.archetypes.len() implies (#[trigger] n.archetypes[x]).wf() by {
        if x != a as int {
            assert(w.archetypes[x].wf());
        }
    }
    assert forall|e: Entity| #[trigger] n.locations.contains_key(e) implies n.locations[e].archetype_id
        < n.archetypes.len() by {
        if w.locations.contains_key(e) {
        }
    }
}

/// Swap-removing an existing row keeps a world well shaped.
pub proof fn lemma_detach_row_shape(w: WorldModel, a: usize, r: usize)
    requires
        w.well_shaped(),
        a < w.archetypes.len(),
        r < w.archetypes[a as int].entities.len(),
    ensures
        w.detach_row(a, r).well_shaped(),
{
    let n = w.detach_row(a, r);
    lemma_detach_row_ok(w, a, r);
    assert forall|x: int| 0 <= x < n.archetypes.len() implies strictly_sorted(#[trigger] n.archetypes[x].signature) by {
        assert(n.archetypes[x].signature == w.archetypes[x].signature);
    }
    assert forall|x: int, y: int| 0 <= x < y < n.archetypes.len() implies (#[trigger] n.archetypes[x]).signature
        != (#[trigger] n.archetypes[y]).signature by {
        assert(w.archetypes[x].signature != w.archetypes[y].signature);
    }
    assert forall|x: int, k: int, y: int, j: int|
        0 <= x < n.archetypes.len() && 0 <= k < n.archetypes[x].columns.len() && 0 <= y < n.archetypes.len() && 0
            <= j < n.archetypes[y].columns.len() && (#[trigger] n.archetypes[x].columns[k]).type_id
            == (#[trigger] n.archetypes[y].columns[j]).type_id implies n.archetypes[x].columns[k].stride
        == n.archetypes[y].columns[j].stride by {
        assert(w.archetypes[x].columns[k].type_id == w.archetypes[y].columns[j].type_id);
    }
    assert forall|x: int| 0 <= x < n.archetypes.len() implies (#[trigger] n.archetypes[x]).entities.len()
        <= usize::MAX by {
        assert(w.archetypes[x].entities.len() <= usize::MAX);
    }
}

/// Swap-removing row `r` of archetype `a`, the one row that no location
/// names, makes rows and locations agree everywhere; it locates no new
/// entity and unlocates none.
pub proof fn lemma_detach_row_agree(w: WorldModel, a: usize, r: usize)
    requires
        w.archetypes_ok(),
        w.rows_agree(Some((a as int, r as int))),
        a < w.archetypes.len(),
        r < w.archetypes[a as int].entities.len(),
    ensures
        w.detach_row(a, r).consistent(),
        forall|x: Entity| #[trigger] w.detach_row(a, r).locations.contains_key(x) == w.locations.contains_key(x),
{
    let n = w.detach_row(a, r);
    let big_a = a as int;
    let big_r = r as int;
    let arch = w.archetypes[big_a];
    let cnt = arch.entities.len();
    let last = cnt - 1;
    let m = arch.entities[last];
    let hole = Some((big_a, big_r));
    if big_r < last {
        assert(hole != Some((big_a, last)));
        assert(w.locations.contains_key(m));
        assert(w.locations[m].archetype_id == big_a && w.locations[m].row == last);
    }
    assert(n.archetypes[big_a] == arch.remove_row(r as nat));
    assert forall|x: Entity| #[trigger] n.locations.contains_key(x) == w.locations.contains_key(x) by {}
    assert forall|x: Entity| #[trigger] n.locations.contains_key(x) implies {
        let l = n.locations[x];
        &&& l.row < n.archetypes[l.archetype_id as int].entities.len()
        &&& n.archetypes[l.archetype_id as int].entities[l.row as int] == x
        &&& None::<(int, int)> != Some((l.archetype_id as int, l.row as int))
    } by {
        if big_r < last && x == m {
        } else {
            let lx = w.locations[x];
            if lx.archetype_id as int == big_a {
                assert(arch.entities[lx.row as int] == x);
                assert(lx.row != big_r);
                if lx.row == last {
                    assert(x == m);
                }
            } else {
                if big_r < last {
                    assert(x != m);
                }
            }
        }
    }
    assert forall|x: int, s: int|
        0 <= x < n.archetypes.len() && 0 <= s < n.archetypes[x].entities.len() && None::<(int, int)> != Some(
            (x, s),
        ) implies {
        let ee = #[trigger] n.archetypes[x].entities[s];
        &&& n.locations.contains_key(ee)
        &&& n.locations[ee].archetype_id == x
        &&& n.locations[ee].row == s
    } by {
        if x == big_a {
            if s == big_r {
                assert(n.archetypes[x].entities[s] == m);
            } else {
                let ee = arch.entities[s];
                assert(n.archetypes[x].entities[s] == ee);
                assert(hole != Some((x, s)));
                assert(w.locations[ee].row == s);
                if big_r < last {
                    assert(ee != m);
                }
            }
        } else {
            let ee = w.archetypes[x].entities[s];
            assert(n.archetypes[x] == w.archetypes[x]);
            assert(hole != Some((x, s)));
            if big_r < last {
                assert(ee != m);
            }
        }
    }
}

/// Swap-removing row `r` of archetype `a`, the one row that no location
/// names, changes no component of any entity.
pub proof fn lemma_detach_row_component(w: WorldModel, a: usize, r: usize, e2: Entity, t2: ComponentTypeId)
    requires
        w.archetypes_ok(),
        w.rows_agree(Some((a as int, r as int))),
        a < w.archetypes.len(),
        r < w.archetypes[a as int].entities.len(),
    ensures
        w.detach_row(a, r).component(e2, t2) == w.component(e2, t2),
{
    let n = w.detach_row(a, r);
    let big_a = a as int;
    let big_r = r as nat;
    let arch = w.archetypes[big_a];
    let cnt = arch.entities.len();
    let last = cnt - 1;
    let m = arch.entities[last as int];
    let hole = Some((big_a, big_r as int));
    assert(arch.wf());
    if big_r < last {
        assert(hole != Some((big_a, last as int)));
        assert(w.locations.contains_key(m));
        assert(w.locations[m].archetype_id == big_a && w.locations[m].row == last);
    }
    if w.locations.contains_key(e2) {
        let loc2 = w.locations[e2];
        let a2 = loc2.archetype_id as int;
        let r2 = loc2.row as nat;
        if a2 == big_a {
            let new_arch = arch.remove_row(big_r);
            assert(n.archetypes[big_a] == new_arch);
            assert forall|k: int| 0 <= k < arch.columns.len() implies (#[trigger] arch.columns[k]).type_id
                == new_arch.columns[k].type_id by {}
            lemma_column_index_of_types(arch.columns, new_arch.columns, t2);
            lemma_column_index_of_spec(arch.columns, t2);
            assert(arch.entities[r2 as int] == e2);
            assert(r2 != big_r);
            if r2 == last {
                assert(m == e2);
                assert(n.locations[e2] == ArchetypeLocation { archetype_id: a, row: r });
                match column_index_of(arch.columns, t2) {
                    Some(c) => {
                        let col = arch.columns[c];
                        lemma_swap_removed_rows(col.data, col.stride, cnt, big_r, r2);
                    },
                    None => {},
                }
            } else {
                if big_r < last {
                    assert(m != e2);
                }
                assert(n.locations[e2] == loc2);
                match column_index_of(arch.columns, t2) {
                    Some(c) => {
                        let col = arch.columns[c];
                        lemma_swap_removed_rows(col.data, col.stride, cnt, big_r, r2);
                    },
                    None => {},
                }
            }
        } else {
            if big_r < last {
                assert(m != e2);
            }
            assert(n.locations[e2] == loc2);
            assert(n.archetypes[a2] == w.archetypes[a2]);
        }
    } else {
        if big_r < last {
            assert(m != e2);
        }
        assert(!n.locations.contains_key(e2));
    }
}

/// The archetype that stores the components of `e` in a well-formed world:
/// well formed, with a sorted signature; the components of `e` are its
/// columns' elements at the row of `e`, column by column, and `e` has no
/// component whose type is not in its signature.
pub proof fn lemma_home(w: WorldModel, e: Entity)
    requires
        w.wf(),
    ensures
        w.home(e).wf(),
        strictly_sorted(w.home(e).signature),
        w.home_row(e).len() == w.home(e).columns.len(),
        forall|k: int|
            0 <= k < w.home(e).columns.len() ==> (#[trigger] w.home_row(e)[k]).len() == w.home(e).columns[k].stride,
        forall|k: int|
            0 <= k < w.home(e).signature.len() ==> w.component(e, #[trigger] w.home(e).signature[k]) == Some(
                w.home_row(e)[k],
            ),
        forall|u: ComponentTypeId| !w.home(e).signature.contains(u) ==> #[trigger] w.component(e, u) is None,
        forall|u: ComponentTypeId| w.column_at(e, u) is None ==> !(#[trigger] w.home(e).signature.contains(u)),
{
    let src = w.home(e);
    if w.locations.contains_key(e) {
        let loc = w.locations[e];
        lemma_located_row(w, e);
        assert(src.wf());
        assert forall|k: int| 0 <= k < src.columns.len() implies (#[trigger] w.home_row(e)[k]).len()
            == src.columns[k].stride by {
            assert(src.columns[k].holds_row(loc.row as nat));
        }
        assert forall|k: int| 0 <= k < src.signature.len() implies w.component(e, #[trigger] src.signature[k])
            == Some(w.home_row(e)[k]) by {
            lemma_column_of_sorted(src, src.signature[k]);
        }
        assert forall|u: ComponentTypeId| !src.signature.contains(u) implies #[trigger] w.component(e, u) is None by {
            lemma_column_of_sorted(src, u);
        }
        assert forall|u: ComponentTypeId| w.column_at(e, u) is None implies !(#[trigger] src.signature.contains(u)) by {
            if src.signature.contains(u) {
                let k = choose|k: int| 0 <= k < src.signature.len() && src.signature[k] == u;
                lemma_column_of_sorted(src, u);
            }
        }
    } else {
        assert(w.home_row(e) =~= Seq::<Seq<u8>>::empty());
    }
}

/// What `migrate` builds on when `e` has no component `t`: the signature
/// of its own archetype with `t` at its place is sorted; the archetype of
/// that signature is well formed, laid out with the strides of the
/// components carried along, and is not the archetype `e` leaves; the
/// row appended holds, column by column, the components of `e` and `bytes`.
pub proof fn lemma_migrate_target(w: WorldModel, e: Entity, t: ComponentTypeId, bytes: Seq<u8>)
    requires
        w.wf(),
        w.column_at(e, t) is None,
        w.stride_is(t, bytes.len()),
    ensures
        ({
            let src = w.home(e);
            let p = insert_pos(src.signature, t);
            let sig = src.signature.insert(p, t);
            let lay = src.layout().insert(p, (t, bytes.len()));
            let rows = w.home_row(e).insert(p, bytes);
            let archs = with_archetype(w.archetypes, sig, lay);
            let b = find_archetype(archs, sig).unwrap();
            &&& !src.signature.contains(t)
            &&& 0 <= p <= src.signature.len()
            &&& strictly_sorted(sig)
            &&& sig.len() == src.signature.len() + 1
            &&& sig[p] == t
            &&& forall|u: ComponentTypeId| src.signature.contains(u) ==> #[trigger] sig.contains(u)
            &&& find_archetype(archs, sig) is Some
            &&& 0 <= b < archs.len()
            &&& archs.len() <= w.archetypes.len() + 1
            &&& forall|x: int| 0 <= x < w.archetypes.len() ==> #[trigger] archs[x] == w.archetypes[x]
            &&& archs[b].signature == sig
            &&& archs[b].wf()
            &&& archs[b].layout() == lay
            &&& archs[b].entities.len() <= usize::MAX
            &&& b >= w.archetypes.len() ==> b == w.archetypes.len() && archs[b].entities.len() == 0
            &&& w.locations.contains_key(e) ==> b != w.locations[e].archetype_id
            &&& rows.len() == sig.len()
            &&& forall|k: int| 0 <= k < rows.len() ==> (#[trigger] rows[k]).len() == archs[b].columns[k].stride
            &&& rows[p] == bytes
            &&& forall|k: int| 0 <= k < sig.len() && k != p ==> w.component(e, #[trigger] sig[k]) == Some(rows[k])
            &&& (WorldModel { archetypes: archs, ..w }).rows_agree(None)
            &&& archs.len() <= usize::MAX ==> (WorldModel { archetypes: archs, ..w }).well_shaped()
        }),
{
    let src = w.home(e);
    lemma_home(w, e);
    let s = src.signature;
    let p = insert_pos(s, t);
    let sig = s.insert(p, t);
    let n = bytes.len();
    let lay = src.layout().insert(p, (t, n));
    let hr = w.home_row(e);
    let rows = hr.insert(p, bytes);
    lemma_insert_pos(s, t);
    lemma_sorted_insert(s, t);
    s.insert_ensures(p, t);
    src.layout().insert_ensures(p, (t, n));
    hr.insert_ensures(p, bytes);
    assert forall|u: ComponentTypeId| s.contains(u) implies #[trigger] sig.contains(u) by {
        assert(s.push(t).contains(u)) by {
            let k = choose|k: int| 0 <= k < s.len() && s[k] == u;
            assert(s.push(t)[k] == u);
        }
    }
    assert forall|k: int| 0 <= k < lay.len() implies (#[trigger] lay[k]).0 == sig[k] && w.stride_is(lay[k].0, lay[k].1) by {
        if k != p {
            let k0 = if k < p { k } else { k - 1 };
            assert(lay[k] == src.layout()[k0]);
            assert(sig[k] == s[k0]);
            let loc = w.locations[e];
            let aid = loc.archetype_id as int;
            assert(w.locations.contains_key(e));
            assert(src == w.archetypes[aid]);
            assert(src.columns[k0].type_id == s[k0]);
            assert forall|x: int, j: int|
                0 <= x < w.archetypes.len() && 0 <= j < w.archetypes[x].columns.len()
                    && (#[trigger] w.archetypes[x].columns[j]).type_id == lay[k].0 implies w.archetypes[x].columns[j].stride
                == lay[k].1 by {
                assert(w.archetypes[aid].columns[k0].type_id == w.archetypes[x].columns[j].type_id);
            }
        }
    }
    lemma_with_archetype(w, sig, lay);
    let archs = with_archetype(w.archetypes, sig, lay);
    let b = find_archetype(archs, sig).unwrap();
    if b < w.archetypes.len() {
        assert(w.archetypes[b].entities.len() <= usize::MAX);
    }
    if w.locations.contains_key(e) {
        let aid = w.locations[e].archetype_id as int;
        assert(archs[aid] == w.archetypes[aid]);
        assert(archs[aid].signature.len() != sig.len());
    }
    assert forall|k: int| 0 <= k < rows.len() implies (#[trigger] rows[k]).len() == archs[b].columns[k].stride by {
        assert(archs[b].layout()[k] == lay[k]);
        if k < p {
            assert(rows[k] == hr[k] && lay[k] == src.layout()[k]);
        } else if k > p {
            assert(rows[k] == hr[k - 1] && lay[k] == src.layout()[k - 1]);
        }
    }
    assert forall|k: int| 0 <= k < sig.len() && k != p implies w.component(e, #[trigger] sig[k]) == Some(rows[k]) by {
        if k < p {
            assert(sig[k] == s[k] && rows[k] == hr[k]);
        } else {
            assert(sig[k] == s[k - 1] && rows[k] == hr[k - 1]);
        }
    }
}

/// After `migrate`, `e` has component `t` with `bytes` and keeps its other
/// components; every other entity keeps its components.
pub proof fn lemma_migrate_component(
    w: WorldModel,
    e: Entity,
    t: ComponentTypeId,
    bytes: Seq<u8>,
    e2: Entity,
    t2: ComponentTypeId,
)
    requires
        w.wf(),
        w.column_at(e, t) is None,
        w.stride_is(t, bytes.len()),
    ensures
        w.migrate(e, t, bytes).component(e2, t2) == if e2 == e && t2 == t {
            Some(bytes)
        } else {
            w.component(e2, t2)
        },
{
    lemma_migrate_target(w, e, t, bytes);
    lemma_home(w, e);
    let src = w.home(e);
    let p = insert_pos(src.signature, t);
    let sig = src.signature.insert(p, t);
    let lay = src.layout().insert(p, (t, bytes.len()));
    let rows = w.home_row(e).insert(p, bytes);
    let archs = with_archetype(w.archetypes, sig, lay);
    let b = find_archetype(archs, sig).unwrap();
    let big_b = archs[b];
    let nb = big_b.push_row(e, rows);
    let m = w.migrate(e, t, bytes);
    lemma_push_row(big_b, e, rows);
    assert(m.archetypes[b] == nb);
    assert(nb.wf());
    if e2 == e {
        let len = big_b.entities.len();
        assert(m.locations[e] == ArchetypeLocation { archetype_id: b as usize, row: len as usize });
        assert(m.locations[e].archetype_id as int == b && m.locations[e].row as nat == len);
        assert forall|k: int| 0 <= k < nb.columns.len() implies (#[trigger] nb.columns[k]).type_id == nb.signature[k] by {
            assert(nb.layout()[k] == big_b.layout()[k]);
        }
        lemma_column_of_sorted(nb, t2);
        if sig.contains(t2) {
            let k = choose|k: int| 0 <= k < sig.len() && sig[k] == t2;
            assert(column_index_of(nb.columns, t2) == Some(k));
            assert(m.column_at(e, t2) == Some((b, k)));
            assert(nb.columns[k].row_bytes(len) == rows[k]);
            if k != p {
                assert(t2 != t);
            }
        } else {
            assert(t2 != t);
            assert(!src.signature.contains(t2));
        }
    } else if w.locations.contains_key(e2) {
        let l2 = w.locations[e2];
        let a2 = l2.archetype_id as int;
        assert(m.locations[e2] == l2);
        lemma_located_row(w, e2);
        if a2 == b {
            let arch = w.archetypes[a2];
            assert(archs[a2] == arch);
            assert forall|k: int| 0 <= k < arch.columns.len() implies (#[trigger] arch.columns[k]).type_id
                == nb.columns[k].type_id by {
                assert(nb.layout()[k] == big_b.layout()[k]);
            }
            lemma_column_index_of_types(arch.columns, nb.columns, t2);
            lemma_column_index_of_spec(arch.columns, t2);
        } else {
            assert(m.archetypes[a2] == w.archetypes[a2]);
        }
    } else {
        assert(!m.locations.contains_key(e2));
    }
}

/// After `migrate`, rows and locations agree but for the old row of `e`,
/// if it had one: that row is then named by no location.
pub proof fn lemma_migrate_agree(w: WorldModel, e: Entity, t: ComponentTypeId, bytes: Seq<u8>)
    requires
        w.wf(),
        w.column_at(e, t) is None,
        w.stride_is(t, bytes.len()),
    ensures
        w.migrate(e, t, bytes).archetypes_ok(),
        w.migrate(e, t, bytes).rows_agree(
            if w.locations.contains_key(e) {
                Some((w.locations[e].archetype_id as int, w.locations[e].row as int))
            } else {
                None
            },
        ),
        w.locations.contains_key(e) ==> w.locations[e].row < w.migrate(e, t, bytes).archetypes[w.locations[e].archetype_id as int].entities.len(),
        w.locations.contains_key(e) ==> w.locations[e].archetype_id < w.migrate(e, t, bytes).archetypes.len(),
{
    lemma_migrate_target(w, e, t, bytes);
    lemma_home(w, e);
    let src = w.home(e);
    let p = insert_pos(src.signature, t);
    let sig = src.signature.insert(p, t);
    let lay = src.layout().insert(p, (t, bytes.len()));
    let rows = w.home_row(e).insert(p, bytes);
    let archs = with_archetype(w.archetypes, sig, lay);
    let b = find_archetype(archs, sig).unwrap();
    let big_b = archs[b];
    let len = big_b.entities.len();
    let nb = big_b.push_row(e, rows);
    let m = w.migrate(e, t, bytes);
    let w1 = WorldModel { archetypes: archs, ..w };
    let hole = if w.locations.contains_key(e) {
        Some((w.locations[e].archetype_id as int, w.locations[e].row as int))
    } else {
        None
    };
    lemma_push_row(big_b, e, rows);
    assert(m.archetypes[b] == nb);
    assert(m.locations[e].archetype_id as int == b && m.locations[e].row as nat == len);
    if w.locations.contains_key(e) {
        lemma_located_row(w, e);
        let aid = w.locations[e].archetype_id as int;
        assert(archs[aid] == w.archetypes[aid]);
        assert(m.archetypes[aid] == w.archetypes[aid]);
        assert(w.archetypes[aid].entities[w.locations[e].row as int] == e);
    }
    assert forall|x: int| 0 <= x < m.archetypes.len() implies (#[trigger] m.archetypes[x]).wf() by {
        if x != b {
            assert(m.archetypes[x] == archs[x]);
        }
    }
    assert forall|x: Entity| #[trigger] m.locations.contains_key(x) implies {
        let l = m.locations[x];
        &&& l.row < m.archetypes[l.archetype_id as int].entities.len()
        &&& m.archetypes[l.archetype_id as int].entities[l.row as int] == x
        &&& hole != Some((l.archetype_id as int, l.row as int))
    } by {
        if x != e {
            let l = w.locations[x];
            assert(w1.locations.contains_key(x));
            assert(m.locations[x] == l);
            if l.archetype_id as int == b {
                assert(nb.entities[l.row as int] == big_b.entities[l.row as int]);
            }
        }
    }
    assert forall|x: int, s: int|
        0 <= x < m.archetypes.len() && 0 <= s < m.archetypes[x].entities.len() && hole != Some((x, s)) implies {
        let ee = #[trigger] m.archetypes[x].entities[s];
        &&& m.locations.contains_key(ee)
        &&& m.locations[ee].archetype_id == x
        &&& m.locations[ee].row == s
    } by {
        if x == b && s == len {
            assert(m.archetypes[x].entities[s] == e);
        } else {
            let ee = archs[x].entities[s];
            if x == b {
                assert(nb.entities[s] == ee);
            } else {
                assert(m.archetypes[x] == archs[x]);
            }
            assert(w1.rows_agree(None));
            assert(w1.locations.contains_key(ee));
            assert(ee != e);
        }
    }
}

/// After `migrate` a well-shaped world stays well shaped, as long as its
/// counts fit in a `usize`.
pub proof fn lemma_migrate_shape(w: WorldModel, e: Entity, t: ComponentTypeId, bytes: Seq<u8>)
    requires
        w.wf(),
        w.column_at(e, t) is None,
        w.stride_is(t, bytes.len()),
        w.migrate(e, t, bytes).counts_fit(),
    ensures
        w.migrate(e, t, bytes).well_shaped(),
{
    lemma_migrate_target(w, e, t, bytes);
    lemma_migrate_agree(w, e, t, bytes);
    let src = w.home(e);
    let p = insert_pos(src.signature, t);
    let sig = src.signature.insert(p, t);
    let lay = src.layout().insert(p, (t, bytes.len()));
    let rows = w.home_row(e).insert(p, bytes);
    let archs = with_archetype(w.archetypes, sig, lay);
    let b = find_archetype(archs, sig).unwrap();
    let big_b = archs[b];
    let nb = big_b.push_row(e, rows);
    let m = w.migrate(e, t, bytes);
    let w1 = WorldModel { archetypes: archs, ..w };
    lemma_push_row(big_b, e, rows);
    assert(w1.well_shaped());
    assert(m.archetypes[b] == nb);
    assert forall|x: int, k: int|
        0 <= x < m.archetypes.len() && 0 <= k < m.archetypes[x].columns.len() implies (#[trigger] m.archetypes[x].columns[k]).type_id
        == w1.archetypes[x].columns[k].type_id && m.archetypes[x].columns[k].stride == w1.archetypes[x].columns[k].stride by {
        if x == b {
            assert(nb.layout()[k] == big_b.layout()[k]);
        }
    }
    assert forall|x: int| 0 <= x < m.archetypes.len() implies strictly_sorted(#[trigger] m.archetypes[x].signature) by {
        assert(m.archetypes[x].signature == w1.archetypes[x].signature);
    }
    assert forall|x: int, y: int| 0 <= x < y < m.archetypes.len() implies (#[trigger] m.archetypes[x]).signature
        != (#[trigger] m.archetypes[y]).signature by {
        assert(m.archetypes[x].signature == w1.archetypes[x].signature);
        assert(m.archetypes[y].signature == w1.archetypes[y].signature);
    }
    assert forall|x: int, k: int, y: int, j: int|
        0 <= x < m.archetypes.len() && 0 <= k < m.archetypes[x].columns.len() && 0 <= y < m.archetypes.len() && 0
            <= j < m.archetypes[y].columns.len() && (#[trigger] m.archetypes[x].columns[k]).type_id
            == (#[trigger] m.archetypes[y].columns[j]).type_id implies m.archetypes[x].columns[k].stride
        == m.archetypes[y].columns[j].stride by {
        assert(w1.archetypes[x].columns[k].type_id == w1.archetypes[y].columns[j].type_id);
    }
}

/// Despawning keeps a world well formed: the entity's row is swap-removed
/// and the entity is no longer located, so it has no component.
pub proof fn lemma_despawn_wf(w: WorldModel, e: Entity)
    requires
        w.wf(),
    ensures
        w.despawn(e).wf(),
        !w.despawn(e).locations.contains_key(e),
        forall|t: ComponentTypeId| #[trigger] w.despawn(e).component(e, t) is None,
{
    let rest = WorldModel { locations: w.locations.remove(e), ..w };
    let n = w.despawn(e);
    crate::ecs::entity::lemma_despawn_preserves_wf(w.pool, e);
    if w.locations.contains_key(e) {
        let loc = w.locations[e];
        lemma_located_row(w, e);
        lemma_despawn_rest(w, e);
        lemma_detach_row_shape(rest, loc.archetype_id, loc.row);
        lemma_detach_row_agree(rest, loc.archetype_id, loc.row);
    } else {
        assert(rest.locations =~= w.locations);
    }
}

/// With the location of `e` dropped, a well-formed world is well shaped and
/// its rows and locations agree but for the old row of `e`; every other
/// entity keeps its components.
pub proof fn lemma_despawn_rest(w: WorldModel, e: Entity)
    requires
        w.wf(),
        w.locations.contains_key(e),
    ensures
        (WorldModel { locations: w.locations.remove(e), ..w }).well_shaped(),
        (WorldModel { locations: w.locations.remove(e), ..w }).rows_agree(
            Some((w.locations[e].archetype_id as int, w.locations[e].row as int)),
        ),
        forall|e2: Entity, t2: ComponentTypeId|
            e2 != e ==> #[trigger] (WorldModel { locations: w.locations.remove(e), ..w }).component(e2, t2)
                == w.component(e2, t2),
{
    let rest = WorldModel { locations: w.locations.remove(e), ..w };
    let loc = w.locations[e];
    lemma_located_row(w, e);
    let hole = Some((loc.archetype_id as int, loc.row as int));
    assert forall|x: Entity| #[trigger] rest.locations.contains_key(x) implies {
        let l = rest.locations[x];
        &&& l.row < rest.archetypes[l.archetype_id as int].entities.len()
        &&& rest.archetypes[l.archetype_id as int].entities[l.row as int] == x
        &&& hole != Some((l.archetype_id as int, l.row as int))
    } by {
        assert(w.locations.contains_key(x));
    }
    assert forall|x: int, s: int|
        0 <= x < rest.archetypes.len() && 0 <= s < rest.archetypes[x].entities.len() && hole != Some((x, s)) implies {
        let ee = #[trigger] rest.archetypes[x].entities[s];
        &&& rest.locations.contains_key(ee)
        &&& rest.locations[ee].archetype_id == x
        &&& rest.locations[ee].row == s
    } by {
        let ee = w.archetypes[x].entities[s];
        assert(w.locations.contains_key(ee));
        assert(ee != e);
    }
}

} // verus!
