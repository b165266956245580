//! Topology of the subdivided icosphere.
//!
//! Each subdivision level splits every triangle `(a, b, c)` into four by the
//! midpoints of its edges. A midpoint is created once per undirected edge and
//! shared by the two triangles that border it; new vertices are numbered in
//! the order in which their edges are first met. What is computed here are
//! the triangle indices and, for each new vertex, the two vertices whose
//! midpoint it is; positions are then obtained by projecting each midpoint
//! on the unit sphere.

use std::collections::HashMap;
use vstd::prelude::*;

verus! {

broadcast use vstd::std_specs::hash::group_hash_axioms;

pub const SUBDIVISION_LEVELS: u32 = 3;
pub const BASE_VERTEX_COUNT: u32 = 12;
pub const BASE_INDEX_COUNT: u32 = 60;

/// The 20 triangles of the unit icosahedron.
pub const INDICES: [u16; 60] = [
    0, 11, 5, 0, 5, 1, 0, 1, 7, 0, 7, 10, 0, 10, 11, 1, 5, 9, 5, 11, 4, 11, 10, 2, 10, 7, 6, 7, 1,
    8, 3, 9, 4, 3, 4, 2, 3, 2, 6, 3, 6, 8, 3, 8, 9, 4, 9, 5, 2, 4, 11, 6, 2, 10, 8, 6, 7, 9, 8, 1,
];

/// An undirected edge, written with its smaller end first.
pub open spec fn edge(x: u16, y: u16) -> (u16, u16) {
    if x < y {
        (x, y)
    } else {
        (y, x)
    }
}

/// The edges of the triangles of `tris`, three per triangle, in the order
/// `(a, b)`, `(b, c)`, `(c, a)`.
pub open spec fn edge_list(tris: Seq<u16>) -> Seq<(u16, u16)> {
    Seq::new(
        (3 * (tris.len() / 3)) as nat,
        |j: int|
            {
                let i = j / 3;
                let k = j % 3;
                edge(tris[3 * i + k], tris[3 * i + (k + 1) % 3])
            },
    )
}

/// The elements of `s` in order of first occurrence, each once.
pub open spec fn dedup_first(s: Seq<(u16, u16)>) -> Seq<(u16, u16)>
    decreases s.len(),
{
    if s.len() == 0 {
        Seq::empty()
    } else {
        let d = dedup_first(s.drop_last());
        if d.contains(s.last()) {
            d
        } else {
            d.push(s.last())
        }
    }
}

/// The vertex created for edge `e`, new vertices being numbered from `base`
/// in the order of `parents`.
pub open spec fn edge_vertex(parents: Seq<(u16, u16)>, base: nat, e: (u16, u16)) -> u16 {
    (base + choose|k: int| 0 <= k < parents.len() && parents[k] == e) as u16
}

/// The triangle list after one subdivision of `tris`, whose new vertices are
/// numbered from `base`: triangle `(a, b, c)` becomes `(a, ab, ca)`,
/// `(b, bc, ab)`, `(c, ca, bc)` and `(ab, bc, ca)`.
pub open spec fn subdivided(tris: Seq<u16>, base: nat) -> Seq<u16> {
    subdivided_with(tris, dedup_first(edge_list(tris)), base)
}

/// The subdivision of `tris` when the new vertices are those of `parents`.
pub open spec fn subdivided_with(tris: Seq<u16>, parents: Seq<(u16, u16)>, base: nat) -> Seq<u16> {
    Seq::new(
        (12 * (tris.len() / 3)) as nat,
        |j: int|
            {
                let i = j / 12;
                let k = j % 12;
                let a = tris[3 * i];
                let b = tris[3 * i + 1];
                let c = tris[3 * i + 2];
                let ab = edge_vertex(parents, base, edge(a, b));
                let bc = edge_vertex(parents, base, edge(b, c));
                let ca = edge_vertex(parents, base, edge(c, a));
                split_corner(a, b, c, ab, bc, ca, k)
            },
    )
}

/// Corner `k` of the four triangles that replace `(a, b, c)`.
pub open spec fn split_corner(a: u16, b: u16, c: u16, ab: u16, bc: u16, ca: u16, k: int) -> u16 {
    if k == 0 {
        a
    } else if k == 1 {
        ab
    } else if k == 2 {
        ca
    } else if k == 3 {
        b
    } else if k == 4 {
        bc
    } else if k == 5 {
        ab
    } else if k == 6 {
        c
    } else if k == 7 {
        ca
    } else if k == 8 {
        bc
    } else if k == 9 {
        ab
    } else if k == 10 {
        bc
    } else {
        ca
    }
}

/// The key under which the vertex of edge `e` is filed.
pub open spec fn edge_key(e: (u16, u16)) -> u32 {
    (e.0 as int * 0x1_0000 + e.1 as int) as u32
}

proof fn lemma_edge_key_injective(e1: (u16, u16), e2: (u16, u16))
    ensures
        edge_key(e1) == edge_key(e2) ==> e1 == e2,
{
    let a1 = e1.0 as int;
    let b1 = e1.1 as int;
    let a2 = e2.0 as int;
    let b2 = e2.1 as int;
    assert(0 <= a1 * 0x1_0000 + b1 <= u32::MAX) by (nonlinear_arith)
        requires
            0 <= a1 <= 0xffff,
            0 <= b1 <= 0xffff,
    ;
    assert(0 <= a2 * 0x1_0000 + b2 <= u32::MAX) by (nonlinear_arith)
        requires
            0 <= a2 <= 0xffff,
            0 <= b2 <= 0xffff,
    ;
    if edge_key(e1) == edge_key(e2) {
        assert(a1 == a2 && b1 == b2) by (nonlinear_arith)
            requires
                a1 * 0x1_0000 + b1 == a2 * 0x1_0000 + b2,
                0 <= b1 <= 0xffff,
                0 <= b2 <= 0xffff,
        ;
    }
}

/// The table of the midpoints created so far: `parents[k]` is the edge of
/// vertex `base + k`, and `keys` maps the key of each such edge to its vertex.
pub open spec fn table_ok(base: nat, parents: Seq<(u16, u16)>, keys: Map<u32, u16>) -> bool {
    &&& base + parents.len() <= 0x1_0000
    &&& forall|k: u32| #[trigger] keys.contains_key(k) ==> exists|j: int| 0 <= j < parents.len() && edge_key(parents[j]) == k
    &&& forall|j: int|
        0 <= j < parents.len() ==> keys.contains_key(edge_key(#[trigger] parents[j])) && keys[edge_key(parents[j])]
            == base + j
}

/// The vertex at the midpoint of `a` and `b`: the one already created for
/// that edge, or a new one numbered after every vertex so far.
fn midpoint_index(
    a: u16,
    b: u16,
    base: usize,
    parents: &mut Vec<(u16, u16)>,
    keys: &mut HashMap<u32, u16>,
) -> (v: u16)
    requires
        table_ok(base as nat, old(parents)@, old(keys)@),
        old(parents)@.no_duplicates(),
        base + old(parents)@.len() < 0x1_0000,
    ensures
        final(parents)@ == (if old(parents)@.contains(edge(a, b)) {
            old(parents)@
        } else {
            old(parents)@.push(edge(a, b))
        }),
        final(parents)@.no_duplicates(),
        table_ok(base as nat, final(parents)@, final(keys)@),
        base <= v < base + final(parents)@.len(),
        final(parents)@[v - base] == edge(a, b),
{
    let e = if a < b {
        (a, b)
    } else {
        (b, a)
    };
    let key = (e.0 as u32) * 0x1_0000u32 + (e.1 as u32);
    proof {
        assert(key == edge_key(e)) by (nonlinear_arith)
            requires
                key == (e.0 as u32) * 0x1_0000u32 + (e.1 as u32),
                e.0 <= 0xffff,
                e.1 <= 0xffff,
        ;
    }
    let found = match keys.get(&key) {
        Some(v) => Some(*v),
        None => None,
    };
    if let Some(v) = found {
        proof {
            assert(old(keys)@.contains_key(key));
            let j = choose|j: int| 0 <= j < old(parents)@.len() && edge_key(old(parents)@[j]) == key;
            lemma_edge_key_injective(old(parents)@[j], e);
            assert(old(parents)@[j] == e);
            assert(old(parents)@.contains(edge(a, b)));
        }
        return v;
    }
    proof {
        if old(parents)@.contains(e) {
            let j = choose|j: int| 0 <= j < old(parents)@.len() && old(parents)@[j] == e;
            assert(old(keys)@.contains_key(edge_key(old(parents)@[j])));
        }
    }
    let v = (base + parents.len()) as u16;
    parents.push(e);
    keys.insert(key, v);
    proof {
        let p = parents@;
        let o = old(parents)@;
        assert forall|k: u32| #[trigger] keys@.contains_key(k) implies exists|j: int| 0 <= j < p.len() && edge_key(p[j]) == k by {
            if k == key {
                assert(edge_key(p[o.len() as int]) == k);
            } else {
                assert(old(keys)@.contains_key(k));
                let j = choose|j: int| 0 <= j < o.len() && edge_key(o[j]) == k;
                assert(p[j] == o[j]);
            }
        }
        assert forall|j: int| 0 <= j < p.len() implies keys@.contains_key(edge_key(#[trigger] p[j])) && keys@[edge_key(p[j])]
            == base + j by {
            if j < o.len() {
                assert(p[j] == o[j]);
                lemma_edge_key_injective(o[j], e);
            }
        }
        assert forall|x: int, y: int| 0 <= x < p.len() && 0 <= y < p.len() && x != y implies p[x] != p[y] by {
            if x < o.len() && y < o.len() {
            } else if x == o.len() {
                assert(o[y] != e);
            } else {
                assert(o[x] != e);
            }
        }
    }
    v
}

/// `dedup_first(s)` holds exactly the elements of `s`, without repetition.
pub proof fn lemma_dedup_first(s: Seq<(u16, u16)>)
    ensures
        dedup_first(s).no_duplicates(),
        forall|x: (u16, u16)| dedup_first(s).contains(x) <==> s.contains(x),
        dedup_first(s).len() <= s.len(),
    decreases s.len(),
{
    if s.len() > 0 {
        let init = s.drop_last();
        lemma_dedup_first(init);
        let d = dedup_first(init);
        let dd = dedup_first(s);
        assert(dd == (if d.contains(s.last()) {
            d
        } else {
            d.push(s.last())
        }));
        assert forall|x: (u16, u16)| dd.contains(x) implies s.contains(x) by {
            let k = choose|k: int| 0 <= k < dd.len() && dd[k] == x;
            if k < d.len() {
                assert(d[k] == x);
                assert(d.contains(x));
                assert(init.contains(x));
                let m = choose|m: int| 0 <= m < init.len() && init[m] == x;
                assert(s[m] == x);
            } else {
                assert(x == s.last());
                assert(s[s.len() - 1] == x);
            }
        }
        assert forall|x: (u16, u16)| s.contains(x) implies dd.contains(x) by {
            let k = choose|k: int| 0 <= k < s.len() && s[k] == x;
            let w = if k < s.len() - 1 {
                assert(init[k] == x);
                assert(init.contains(x));
                assert(d.contains(x));
                choose|m: int| 0 <= m < d.len() && d[m] == x
            } else if d.contains(x) {
                choose|m: int| 0 <= m < d.len() && d[m] == x
            } else {
                d.len() as int
            };
            assert(dd[w] == x);
        }
    }
}

/// In a sequence without repetition, growing it at the end does not change
/// the vertex of an edge it already holds.
proof fn lemma_edge_vertex_stable(p1: Seq<(u16, u16)>, p2: Seq<(u16, u16)>, base: nat, e: (u16, u16))
    requires
        p2.no_duplicates(),
        p1.len() <= p2.len(),
        forall|k: int| 0 <= k < p1.len() ==> p2[k] == p1[k],
        p1.contains(e),
    ensures
        edge_vertex(p1, base, e) == edge_vertex(p2, base, e),
{
    let k1 = choose|k: int| 0 <= k < p1.len() && p1[k] == e;
    assert(p2[k1] == e);
    let k2 = choose|k: int| 0 <= k < p2.len() && p2[k] == e;
    assert(k1 == k2);
}

/// The vertex `v` of edge `e` in `parents` is what `edge_vertex` names.
proof fn lemma_edge_vertex_is(parents: Seq<(u16, u16)>, base: nat, e: (u16, u16), v: u16)
    requires
        parents.no_duplicates(),
        base <= v < base + parents.len(),
        parents[v - base] == e,
    ensures
        edge_vertex(parents, base, e) == v,
{
    let k = choose|k: int| 0 <= k < parents.len() && parents[k] == e;
    assert(k == v - base);
}

/// Once the edges of the first `i` triangles have their vertices, adding
/// vertices for later edges does not change how those triangles are split.
proof fn lemma_earlier_triangles_stable(
    tris: Seq<u16>,
    i: int,
    p0: Seq<(u16, u16)>,
    p3: Seq<(u16, u16)>,
    base: nat,
)
    requires
        0 <= i,
        3 * i <= 3 * (tris.len() / 3),
        p0 == dedup_first(edge_list(tris).take(3 * i)),
        p3.no_duplicates(),
        p0.len() <= p3.len(),
        forall|k: int| 0 <= k < p0.len() ==> p3[k] == p0[k],
    ensures
        forall|j: int|
            0 <= j < 12 * i ==> #[trigger] subdivided_with(tris, p0, base)[j] == subdivided_with(tris, p3, base)[j],
{
    let edges = edge_list(tris);
    let pre = edges.take(3 * i);
    lemma_dedup_first(pre);
    assert forall|j: int| 0 <= j < 12 * i implies #[trigger] subdivided_with(tris, p0, base)[j] == subdivided_with(tris, p3, base)[j] by {
        let ti = j / 12;
        let ta = tris[3 * ti];
        let tb = tris[3 * ti + 1];
        let tc = tris[3 * ti + 2];
        assert(0 <= ti < i);
        assert(edges[3 * ti] == edge(ta, tb));
        assert(edges[3 * ti + 1] == edge(tb, tc));
        assert(edges[3 * ti + 2] == edge(tc, ta));
        assert(pre[3 * ti] == edge(ta, tb));
        assert(pre[3 * ti + 1] == edge(tb, tc));
        assert(pre[3 * ti + 2] == edge(tc, ta));
        assert(pre.contains(edge(ta, tb)));
        assert(pre.contains(edge(tb, tc)));
        assert(pre.contains(edge(tc, ta)));
        lemma_edge_vertex_stable(p0, p3, base, edge(ta, tb));
        lemma_edge_vertex_stable(p0, p3, base, edge(tb, tc));
        lemma_edge_vertex_stable(p0, p3, base, edge(tc, ta));
    }
}

/// Splits every triangle of `tris` in four, numbering the new vertices from
/// `base`; returns the new triangle list and the edge of each new vertex.
#[verifier::rlimit(40)]
pub fn subdivide(tris: &Vec<u16>, base: usize) -> (r: (Vec<u16>, Vec<(u16, u16)>))
    requires
        base + 3 * (tris@.len() / 3) <= 0x1_0000,
    ensures
        r.0@ == subdivided(tris@, base as nat),
        r.1@ == dedup_first(edge_list(tris@)),
{
    let ghost edges = edge_list(tris@);
    let ntri = tris.len() / 3;
    let mut out: Vec<u16> = Vec::new();
    let mut parents: Vec<(u16, u16)> = Vec::new();
    let mut keys: HashMap<u32, u16> = HashMap::new();
    let mut i: usize = 0;
    proof {
        assert(edges.take(0) =~= Seq::<(u16, u16)>::empty());
        assert(keys@ =~= Map::<u32, u16>::empty());
    }
    while i < ntri
        invariant
            ntri == tris@.len() / 3,
            base + 3 * ntri <= 0x1_0000,
            edges == edge_list(tris@),
            i <= ntri,
            parents@ == dedup_first(edges.take(3 * i as int)),
            parents@.no_duplicates(),
            table_ok(base as nat, parents@, keys@),
            out@.len() == 12 * i,
            forall|j: int| 0 <= j < out@.len() ==> out@[j] == #[trigger] subdivided_with(tris@, parents@, base as nat)[j],
        decreases ntri - i,
    {
        let a = tris[3 * i];
        let b = tris[3 * i + 1];
        let c = tris[3 * i + 2];
        let ghost p0 = parents@;
        proof {
            lemma_dedup_first(edges.take(3 * i as int));
            assert(p0.len() <= 3 * i);
        }
        let ab = midpoint_index(a, b, base, &mut parents, &mut keys);
        let ghost p1 = parents@;
        proof {
            assert(edges.take(3 * i + 1).drop_last() =~= edges.take(3 * i as int));
            assert(edges[3 * i as int] == edge(a, b));
            assert(edges.take(3 * i + 1).last() == edge(a, b));
            assert(parents@ == dedup_first(edges.take(3 * i + 1)));
        }
        let bc = midpoint_index(b, c, base, &mut parents, &mut keys);
        let ghost p2 = parents@;
        proof {
            assert(edges.take(3 * i + 2).drop_last() =~= edges.take(3 * i + 1));
            assert(edges[3 * i + 1] == edge(b, c));
            assert(edges.take(3 * i + 2).last() == edge(b, c));
            assert(parents@ == dedup_first(edges.take(3 * i + 2)));
        }
        let ca = midpoint_index(c, a, base, &mut parents, &mut keys);
        let ghost p3 = parents@;
        proof {
            assert(edges.take(3 * i + 3).drop_last() =~= edges.take(3 * i + 2));
            assert(edges[3 * i + 2] == edge(c, a));
            assert(edges.take(3 * i + 3).last() == edge(c, a));
            assert(parents@ == dedup_first(edges.take(3 * i + 3)));
        }
        let ghost out0 = out@;
        out.push(a);
        out.push(ab);
        out.push(ca);
        out.push(b);
        out.push(bc);
        out.push(ab);
        out.push(c);
        out.push(ca);
        out.push(bc);
        out.push(ab);
        out.push(bc);
        out.push(ca);
        proof {
            lemma_edge_vertex_is(p3, base as nat, edge(a, b), ab);
            lemma_edge_vertex_is(p3, base as nat, edge(b, c), bc);
            lemma_edge_vertex_is(p3, base as nat, edge(c, a), ca);
            lemma_earlier_triangles_stable(tris@, i as int, p0, p3, base as nat);
            assert forall|j: int| 0 <= j < out@.len() implies out@[j] == #[trigger] subdivided_with(tris@, p3, base as nat)[j] by {
                if j < out0.len() {
                    assert(out@[j] == out0[j]);
                    assert(out0[j] == subdivided_with(tris@, p0, base as nat)[j]);
                } else {
                    assert(j / 12 == i);
                }
            }
        }
        i = i + 1;
    }
    proof {
        assert(edges.take(3 * ntri as int) =~= edges);
        assert(out@ =~= subdivided(tris@, base as nat));
    }
    (out, parents)
}

/// The topology of the icosphere: its triangle indices and, for each vertex
/// created by subdivision (numbered from 12 on), the two vertices whose
/// midpoint it is.
pub struct IcoTopology {
    pub indices: Vec<u16>,
    pub midpoint_parents: Vec<(u16, u16)>,
}

/// `4^n`.
pub open spec fn pow4(n: nat) -> nat
    decreases n,
{
    if n == 0 {
        1
    } else {
        4 * pow4((n - 1) as nat)
    }
}

/// The triangle indices and the midpoint edges after `n` subdivisions of
/// the icosahedron.
pub open spec fn ico_levels(n: nat) -> (Seq<u16>, Seq<(u16, u16)>)
    decreases n,
{
    if n == 0 {
        (INDICES@, Seq::empty())
    } else {
        let prev = ico_levels((n - 1) as nat);
        let base = 12 + prev.1.len();
        (subdivided(prev.0, base), prev.1 + dedup_first(edge_list(prev.0)))
    }
}

/// Every index of the mesh names an existing vertex, and every new vertex is
/// the midpoint of two vertices created before it.
pub open spec fn well_indexed(m: (Seq<u16>, Seq<(u16, u16)>)) -> bool {
    &&& forall|i: int| 0 <= i < m.0.len() ==> (#[trigger] m.0[i]) < 12 + m.1.len()
    &&& forall|k: int| 0 <= k < m.1.len() ==> (#[trigger] m.1[k]).0 < 12 + k && m.1[k].1 < 12 + k
}

/// One subdivision of triangles whose indices are below `base` gives
/// indices below `base` plus the number of new vertices, and the edges of
/// the new vertices join vertices below `base`.
pub proof fn lemma_subdivided_in_range(tris: Seq<u16>, base: nat)
    requires
        forall|i: int| 0 <= i < tris.len() ==> (#[trigger] tris[i]) < base,
        base + 3 * (tris.len() / 3) <= 0x1_0000,
    ensures
        forall|i: int|
            0 <= i < subdivided(tris, base).len() ==> (#[trigger] subdivided(tris, base)[i]) < base + dedup_first(
                edge_list(tris),
            ).len(),
        forall|k: int|
            0 <= k < dedup_first(edge_list(tris)).len() ==> (#[trigger] dedup_first(edge_list(tris))[k]).0 < base
                && dedup_first(edge_list(tris))[k].1 < base,
        subdivided(tris, base).len() == 4 * (3 * (tris.len() / 3)),
{
    let edges = edge_list(tris);
    let parents = dedup_first(edges);
    lemma_dedup_first(edges);
    assert forall|k: int| 0 <= k < parents.len() implies (#[trigger] parents[k]).0 < base && parents[k].1 < base by {
        assert(parents.contains(parents[k]));
        assert(edges.contains(parents[k]));
        let j = choose|j: int| 0 <= j < edges.len() && edges[j] == parents[k];
        let ti = j / 3;
        let tk = j % 3;
        assert(tris[3 * ti + tk] < base);
        assert(tris[3 * ti + (tk + 1) % 3] < base);
    }
    assert forall|i: int| 0 <= i < subdivided(tris, base).len() implies (#[trigger] subdivided(tris, base)[i]) < base
        + parents.len() by {
        let ti = i / 12;
        let a = tris[3 * ti];
        let b = tris[3 * ti + 1];
        let c = tris[3 * ti + 2];
        assert(a < base && b < base && c < base);
        assert(edges[3 * ti] == edge(a, b));
        assert(edges[3 * ti + 1] == edge(b, c));
        assert(edges[3 * ti + 2] == edge(c, a));
        assert(edges.contains(edge(a, b)) && edges.contains(edge(b, c)) && edges.contains(edge(c, a)));
        assert(parents.contains(edge(a, b)) && parents.contains(edge(b, c)) && parents.contains(edge(c, a)));
        let kab = choose|k: int| 0 <= k < parents.len() && parents[k] == edge(a, b);
        let kbc = choose|k: int| 0 <= k < parents.len() && parents[k] == edge(b, c);
        let kca = choose|k: int| 0 <= k < parents.len() && parents[k] == edge(c, a);
        assert(edge_vertex(parents, base, edge(a, b)) == base + kab);
        assert(edge_vertex(parents, base, edge(b, c)) == base + kbc);
        assert(edge_vertex(parents, base, edge(c, a)) == base + kca);
    }
}

/// After up to three subdivisions the mesh is well indexed, and its index
/// and vertex counts are bounded as the subdivision needs.
pub proof fn lemma_ico_well_indexed(n: nat)
    requires
        n <= 3,
    ensures
        well_indexed(ico_levels(n)),
        ico_levels(n).0.len() == 60 * pow4(n),
        ico_levels(n).1.len() + 20 <= 20 * pow4(n),
    decreases n,
{
    if n == 0 {
        assert forall|i: int| 0 <= i < INDICES@.len() implies (#[trigger] INDICES@[i]) < 12 by {
            assert(INDICES@ == seq![
                0u16, 11, 5, 0, 5, 1, 0, 1, 7, 0, 7, 10, 0, 10, 11, 1, 5, 9, 5, 11, 4, 11, 10, 2, 10, 7, 6, 7, 1,
                8, 3, 9, 4, 3, 4, 2, 3, 2, 6, 3, 6, 8, 3, 8, 9, 4, 9, 5, 2, 4, 11, 6, 2, 10, 8, 6, 7, 9, 8, 1,
            ]);
        }
    } else {
        let m = (n - 1) as nat;
        lemma_ico_well_indexed(m);
        let prev = ico_levels(m);
        let base = 12 + prev.1.len();
        assert(pow4(0) == 1);
        assert(pow4(1) == 4);
        assert(pow4(2) == 16);
        assert(pow4(n) == 4 * pow4(m));
        assert((60 * pow4(m)) / 3 == 20 * pow4(m));
        lemma_subdivided_in_range(prev.0, base);
        lemma_dedup_first(edge_list(prev.0));
        let cur = ico_levels(n);
        let d = dedup_first(edge_list(prev.0));
        assert(cur.1 == prev.1 + d);
        assert forall|k: int| 0 <= k < cur.1.len() implies (#[trigger] cur.1[k]).0 < 12 + k && cur.1[k].1 < 12 + k by {
            if k < prev.1.len() {
                assert(cur.1[k] == prev.1[k]);
            } else {
                assert(cur.1[k] == d[k - prev.1.len()]);
            }
        }
    }
}

/// The icosphere subdivided `SUBDIVISION_LEVELS` times.
pub fn mesh_topology() -> (m: IcoTopology)
    ensures
        (m.indices@, m.midpoint_parents@) == ico_levels(SUBDIVISION_LEVELS as nat),
        well_indexed((m.indices@, m.midpoint_parents@)),
{
    let mut indices: Vec<u16> = Vec::new();
    let mut k: usize = 0;
    while k < 60
        invariant
            k <= 60,
            indices@ == INDICES@.take(k as int),
        decreases 60 - k,
    {
        indices.push(INDICES[k]);
        k = k + 1;
        assert(indices@ =~= INDICES@.take(k as int));
    }
    assert(indices@ =~= INDICES@);
    let mut midpoint_parents: Vec<(u16, u16)> = Vec::new();
    let mut level: u32 = 0;
    while level < SUBDIVISION_LEVELS
        invariant
            level <= SUBDIVISION_LEVELS,
            (indices@, midpoint_parents@) == ico_levels(level as nat),
            indices@.len() == 60 * pow4(level as nat),
            midpoint_parents@.len() + 20 <= 20 * pow4(level as nat),
        decreases SUBDIVISION_LEVELS - level,
    {
        proof {
            assert(pow4(0) == 1);
            assert(pow4(1) == 4);
            assert(pow4(2) == 16);
            assert((60 * pow4(level as nat)) / 3 == 20 * pow4(level as nat));
        }
        let base = 12 + midpoint_parents.len();
        let (next, mut parents) = subdivide(&indices, base);
        proof {
            lemma_dedup_first(edge_list(indices@));
        }
        midpoint_parents.append(&mut parents);
        indices = next;
        level = level + 1;
    }
    proof {
        lemma_ico_well_indexed(SUBDIVISION_LEVELS as nat);
    }
    IcoTopology { indices, midpoint_parents }
}

} // verus!
