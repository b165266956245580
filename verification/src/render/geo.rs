//! Triangulation of the curved mesh of a map tile draped on the globe: a
//! grid of `(seg + 1) × (seg + 1)` vertices, row by row from the north-west
//! corner, cut into `seg × seg` cells of two triangles each.

use vstd::prelude::*;
use vstd::arithmetic::div_mod::lemma_fundamental_div_mod_converse;

verus! {

/// The number of cells along each side of the mesh of a tile at zoom `z`:
/// large, strongly curved tiles (zoom 3 and below) get more.
pub fn tile_segments(z: u32) -> (seg: u32)
    ensures
        seg == (if z <= 3 {
            16u32
        } else {
            8u32
        }),
{
    if z <= 3 {
        16
    } else {
        8
    }
}

/// Corner `k` (0 to 5) of the two triangles of cell `cell` of a grid of
/// `seg × seg` cells: with `a` the cell's north-west vertex, `b` its east
/// neighbour, `c` the vertex below `a` and `d` the one below `b`, the
/// triangles are `(a, b, c)` and `(b, d, c)`.
pub open spec fn grid_corner(seg: nat, cell: nat, k: nat) -> int {
    let j = cell / seg;
    let i = cell % seg;
    let a: int = (j * (seg + 1) + i) as int;
    let b: int = a + 1;
    let c: int = a + seg + 1;
    let d: int = c + 1;
    if k == 0 {
        a
    } else if k == 1 {
        b
    } else if k == 2 {
        c
    } else if k == 3 {
        b
    } else if k == 4 {
        d
    } else {
        c
    }
}

/// The triangle indices of a tile mesh of `seg × seg` cells.
pub fn tile_grid_indices(seg: u32) -> (r: Vec<u16>)
    requires
        seg <= 255,
    ensures
        r@.len() == 6 * seg * seg,
        forall|q: int| 0 <= q < r@.len() ==> #[trigger] r@[q] as int == grid_corner(seg as nat, (q / 6) as nat, (q % 6) as nat),
        forall|j: int, i: int|
            0 <= j < seg && 0 <= i < seg ==> {
                let q = #[trigger] (6 * (j * seg + i));
                let a = j * (seg + 1) + i;
                &&& r@[q] as int == a
                &&& r@[q + 1] as int == a + 1
                &&& r@[q + 2] as int == a + seg + 1
                &&& r@[q + 3] as int == a + 1
                &&& r@[q + 4] as int == a + seg + 2
                &&& r@[q + 5] as int == a + seg + 1
            },
{
    let stride = seg + 1;
    let mut indices: Vec<u16> = Vec::new();
    let mut j: u32 = 0;
    while j < seg
        invariant
            seg <= 255,
            stride == seg + 1,
            j <= seg,
            indices@.len() == 6 * (j * seg),
            forall|q: int| 0 <= q < indices@.len() ==> #[trigger] indices@[q] as int == grid_corner(seg as nat, (q / 6) as nat, (q % 6) as nat),
        decreases seg - j,
    {
        let mut i: u32 = 0;
        while i < seg
            invariant
                seg <= 255,
                stride == seg + 1,
                j < seg,
                i <= seg,
                indices@.len() == 6 * (j * seg + i),
                forall|q: int| 0 <= q < indices@.len() ==> #[trigger] indices@[q] as int == grid_corner(seg as nat, (q / 6) as nat, (q % 6) as nat),
            decreases seg - i,
        {
            proof {
                lemma_cell_bounds(seg as int, j as int, i as int);
            }
            let a = (j * stride + i) as u16;
            let b = (j * stride + i + 1) as u16;
            let c = ((j + 1) * stride + i) as u16;
            let d = ((j + 1) * stride + i + 1) as u16;
            let ghost before = indices@;
            indices.push(a);
            indices.push(b);
            indices.push(c);
            indices.push(b);
            indices.push(d);
            indices.push(c);
            proof {
                let cell = j * seg + i;
                assert forall|q: int| 0 <= q < indices@.len() implies #[trigger] indices@[q] as int == grid_corner(seg as nat, (q / 6) as nat, (q % 6) as nat) by {
                    if q < before.len() {
                        assert(indices@[q] == before[q]);
                    } else {
                        let k = q - 6 * cell;
                        lemma_fundamental_div_mod_converse(q, 6, cell as int, k);
                        lemma_fundamental_div_mod_converse(cell as int, seg as int, j as int, i as int);
                    }
                }
            }
            i = i + 1;
        }
        proof {
            assert(6 * (j * seg + seg) == 6 * ((j + 1) * seg)) by (nonlinear_arith);
        }
        j = j + 1;
    }
    proof {
        assert(6 * (seg * seg) == 6 * seg * seg) by (nonlinear_arith);
        assert forall|j: int, i: int| 0 <= j < seg && 0 <= i < seg implies {
            let q = #[trigger] (6 * (j * seg + i));
            let a = j * (seg + 1) + i;
            &&& indices@[q] as int == a
            &&& indices@[q + 1] as int == a + 1
            &&& indices@[q + 2] as int == a + seg + 1
            &&& indices@[q + 3] as int == a + 1
            &&& indices@[q + 4] as int == a + seg + 2
            &&& indices@[q + 5] as int == a + seg + 1
        } by {
            lemma_grid_cell(seg as nat, j as nat, i as nat);
            lemma_cell_bounds(seg as int, j, i);
            let q = 6 * (j * seg + i);
            assert(q + 5 < indices@.len()) by (nonlinear_arith)
                requires
                    0 <= j * seg + i < seg * seg,
                    q == 6 * (j * seg + i),
                    indices@.len() == 6 * seg * seg,
            ;
            lemma_fundamental_div_mod_converse(q, 6, j * seg + i, 0);
            lemma_fundamental_div_mod_converse(q + 1, 6, j * seg + i, 1);
            lemma_fundamental_div_mod_converse(q + 2, 6, j * seg + i, 2);
            lemma_fundamental_div_mod_converse(q + 3, 6, j * seg + i, 3);
            lemma_fundamental_div_mod_converse(q + 4, 6, j * seg + i, 4);
            lemma_fundamental_div_mod_converse(q + 5, 6, j * seg + i, 5);
            assert(indices@[q] as int == grid_corner(seg as nat, ((q + 0) / 6) as nat, ((q + 0) % 6) as nat));
            assert(indices@[q + 1] as int == grid_corner(seg as nat, ((q + 1) / 6) as nat, ((q + 1) % 6) as nat));
            assert(indices@[q + 2] as int == grid_corner(seg as nat, ((q + 2) / 6) as nat, ((q + 2) % 6) as nat));
            assert(indices@[q + 3] as int == grid_corner(seg as nat, ((q + 3) / 6) as nat, ((q + 3) % 6) as nat));
            assert(indices@[q + 4] as int == grid_corner(seg as nat, ((q + 4) / 6) as nat, ((q + 4) % 6) as nat));
            assert(indices@[q + 5] as int == grid_corner(seg as nat, ((q + 5) / 6) as nat, ((q + 5) % 6) as nat));
        }
    }
    indices
}

/// The vertices of cell `(j, i)` exist and fit the exec arithmetic.
proof fn lemma_cell_bounds(seg: int, j: int, i: int)
    requires
        0 <= j < seg,
        0 <= i < seg,
        seg <= 255,
    ensures
        (j + 1) * (seg + 1) + i + 1 < (seg + 1) * (seg + 1),
        (seg + 1) * (seg + 1) <= 0x1_0000,
        j * (seg + 1) + i + 1 <= (j + 1) * (seg + 1) + i + 1,
        (j + 1) * (seg + 1) == j * (seg + 1) + seg + 1,
        0 <= j * seg + i < seg * seg,
{
    assert((j + 1) * (seg + 1) + i + 1 < (seg + 1) * (seg + 1)) by (nonlinear_arith)
        requires
            0 <= j < seg,
            0 <= i < seg,
    ;
    assert((seg + 1) * (seg + 1) <= 0x1_0000) by (nonlinear_arith)
        requires
            0 <= seg <= 255,
    ;
    assert((j + 1) * (seg + 1) == j * (seg + 1) + seg + 1) by (nonlinear_arith);
    assert(0 <= j * seg + i < seg * seg) by (nonlinear_arith)
        requires
            0 <= j < seg,
            0 <= i < seg,
    ;
}

/// Every index of a tile mesh names one of its `(seg + 1)^2` vertices.
pub proof fn lemma_grid_corner_in_range(seg: nat, cell: nat, k: nat)
    requires
        seg > 0,
        cell < seg * seg,
        k < 6,
    ensures
        0 <= grid_corner(seg, cell, k) < (seg + 1) * (seg + 1),
{
    let j = cell / seg;
    let i = cell % seg;
    assert(j < seg) by (nonlinear_arith)
        requires
            cell < seg * seg,
            j == cell / seg,
            seg > 0,
    ;
    assert(i < seg);
    assert((j + 1) * (seg + 1) + i + 1 < (seg + 1) * (seg + 1)) by (nonlinear_arith)
        requires
            0 <= j < seg,
            0 <= i < seg,
    ;
    assert((j + 1) * (seg + 1) == j * (seg + 1) + seg + 1) by (nonlinear_arith);
    assert(j * (seg + 1) >= 0) by (nonlinear_arith);
}

/// The six corners of cell `(j, i)` of a grid of `seg × seg` cells: with
/// `a = j * (seg + 1) + i` its north-west vertex, the triangles are
/// `(a, a + 1, a + seg + 1)` and `(a + 1, a + seg + 2, a + seg + 1)`; they
/// share the diagonal from `a + 1` to `a + seg + 1` and cover the cell's four
/// corners.
pub proof fn lemma_grid_cell(seg: nat, j: nat, i: nat)
    requires
        j < seg,
        i < seg,
    ensures
        ({
            let cell = j * seg + i;
            let a = j * (seg + 1) + i;
            &&& grid_corner(seg, cell, 0) == a
            &&& grid_corner(seg, cell, 1) == a + 1
            &&& grid_corner(seg, cell, 2) == a + seg + 1
            &&& grid_corner(seg, cell, 3) == a + 1
            &&& grid_corner(seg, cell, 4) == a + seg + 2
            &&& grid_corner(seg, cell, 5) == a + seg + 1
        }),
{
    let cell = j * seg + i;
    lemma_fundamental_div_mod_converse(cell as int, seg as int, j as int, i as int);
}

} // verus!
