use vstd::prelude::*;
use crate::lod::TerrainLod;

verus! {

/// Number of vertices along each side of a patch's sampling grid.
pub const VERTICES_PER_SIDE: u32 = 33;

/// Number of cells along each axis when every `resolution`-th vertex is used.
pub open spec fn cells_per_side(resolution: u32, side: u32) -> int {
    (side as int - 1) / resolution as int
}

/// The vertex at row offset `row` and column offset `col` of a grid whose rows
/// are `side` vertices apart.
pub open spec fn vertex(side: u32, row: int, col: int) -> int {
    row + col * side as int
}

/// Which corner of cell `(r, c)` the `j`-th index of its two triangles names,
/// as (row step, column step). Both triangles share the diagonal from the
/// near corner, step (0, 0), to the far corner, step (1, 1), and turn the same
/// way: (0, 0), (1, 0), (1, 1) and then (0, 0), (1, 1), (0, 1).
pub open spec fn corner(j: int) -> (int, int) {
    if j == 0 || j == 3 {
        (0, 0)
    } else if j == 1 {
        (1, 0)
    } else if j == 2 || j == 4 {
        (1, 1)
    } else {
        (0, 1)
    }
}

/// The `k`-th entry of the triangle list: cells are listed row by row, six
/// indices each.
pub open spec fn index_at(resolution: u32, side: u32, k: int) -> int {
    let m = cells_per_side(resolution, side);
    let cell = k / 6;
    let r = cell / m;
    let c = cell % m;
    let (dr, dc) = corner(k % 6);
    vertex(side, (r + dr) * resolution as int, (c + dc) * resolution as int)
}

/// The whole triangle list for sampling step `resolution` on a grid of
/// `side` by `side` vertices.
pub open spec fn index_seq(resolution: u32, side: u32) -> Seq<u32> {
    let m = cells_per_side(resolution, side);
    Seq::new((6 * m * m) as nat, |k: int| index_at(resolution, side, k) as u32)
}

/// What `indices` asks of its arguments: a positive step that divides the
/// number of gaps between vertices, and vertex numbers that fit in `u32`.
pub open spec fn valid_grid(resolution: u32, side: u32) -> bool {
    &&& resolution >= 1
    &&& side >= 1
    &&& (side as int - 1) % resolution as int == 0
    &&& side as int * side as int <= u32::MAX as int
}

/// The triangle list shared by every patch drawn at `lod`.
pub open spec fn lod_topology(lod: TerrainLod) -> Seq<u32> {
    index_seq(lod.resolution(), VERTICES_PER_SIDE)
}

/// Patches drawn at one level share one topology, and the three levels have
/// three different ones.
pub proof fn lemma_topology_sharing(first: TerrainLod, second: TerrainLod)
    ensures
        (first == second) == (lod_topology(first) == lod_topology(second)),
{
    assert(cells_per_side(1, VERTICES_PER_SIDE) == 32);
    assert(cells_per_side(4, VERTICES_PER_SIDE) == 8);
    assert(cells_per_side(8, VERTICES_PER_SIDE) == 4);
    assert(index_seq(1, VERTICES_PER_SIDE).len() == 6 * 32 * 32);
    assert(index_seq(4, VERTICES_PER_SIDE).len() == 6 * 8 * 8);
    assert(index_seq(8, VERTICES_PER_SIDE).len() == 6 * 4 * 4);
    assert(lod_topology(TerrainLod::Standard).len() == 6144);
    assert(lod_topology(TerrainLod::Coarse).len() == 384);
    assert(lod_topology(TerrainLod::VeryCoarse).len() == 96);
}

/// Building the triangle list depends on its two arguments alone, and at
/// full resolution it holds six indices for each of the `(side - 1)²` cells.
pub proof fn lemma_indices_deterministic(
    resolution: u32,
    side: u32,
    first: Seq<u32>,
    second: Seq<u32>,
)
    requires
        valid_grid(resolution, side),
        first == index_seq(resolution, side),
        second == index_seq(resolution, side),
    ensures
        first == second,
        resolution == 1 ==> first.len() == 6 * (side - 1) * (side - 1),
{
    if resolution == 1 {
        vstd::arithmetic::div_mod::lemma_div_basics(side as int - 1);
    }
}

/// Where the `j`-th index of cell `(r, c)` stands in the triangle list, and
/// what it holds there.
proof fn lemma_entry(resolution: u32, side: u32, r: int, c: int, j: int)
    requires
        valid_grid(resolution, side),
        0 <= r < cells_per_side(resolution, side),
        0 <= c < cells_per_side(resolution, side),
        0 <= j < 6,
    ensures
        ({
            let m = cells_per_side(resolution, side);
            let k = 6 * (r * m + c) + j;
            &&& 0 <= k < 6 * m * m
            &&& index_at(resolution, side, k) == vertex(
                side,
                (r + corner(j).0) * resolution as int,
                (c + corner(j).1) * resolution as int,
            )
        }),
{
    let m = cells_per_side(resolution, side);
    let cell = r * m + c;
    let k = 6 * cell + j;
    assert(0 <= cell < m * m) by (nonlinear_arith)
        requires
            0 <= r < m,
            0 <= c < m,
            cell == r * m + c,
    ;
    assert(k < 6 * m * m) by (nonlinear_arith)
        requires
            cell < m * m,
            k == 6 * cell + j,
            j < 6,
    ;
    vstd::arithmetic::div_mod::lemma_fundamental_div_mod_converse(k, 6, cell, j);
    vstd::arithmetic::div_mod::lemma_fundamental_div_mod_converse(cell, m, r, c);
}

/// Builds the triangle list for one patch: for each of the
/// `(side - 1) / resolution` squared cells, row by row, two triangles over the
/// cell's corners that share its diagonal from near corner to far corner,
/// using every `resolution`-th vertex of a grid `side` vertices wide.
pub fn indices(resolution: u32, side: u32) -> (v: Vec<u32>)
    requires
        valid_grid(resolution, side),
    ensures
        v@ == index_seq(resolution, side),
{
    let ghost m = cells_per_side(resolution, side);
    let max: u32 = (side - 1) / resolution;
    proof {
        assert(max as int * resolution as int == side as int - 1) by {
            vstd::arithmetic::div_mod::lemma_fundamental_div_mod(side as int - 1, resolution as int);
        }
    }
    let mut v: Vec<u32> = Vec::new();
    let mut r: u32 = 0;
    while r < max
        invariant
            max == m,
            m == cells_per_side(resolution, side),
            max as int * resolution as int == side as int - 1,
            valid_grid(resolution, side),
            0 <= r <= max,
            v@.len() == 6 * (r * m),
            forall|k: int| 0 <= k < v@.len() ==> v@[k] == index_at(resolution, side, k) as u32,
        decreases max - r,
    {
        let mut c: u32 = 0;
        while c < max
            invariant
                max == m,
                m == cells_per_side(resolution, side),
                max as int * resolution as int == side as int - 1,
                valid_grid(resolution, side),
                0 <= r < max,
                0 <= c <= max,
                v@.len() == 6 * (r * m + c),
                forall|k: int| 0 <= k < v@.len() ==> v@[k] == index_at(resolution, side, k) as u32,
            decreases max - c,
        {
            proof {
                assert((r as int + 1) * resolution as int <= side as int - 1) by (nonlinear_arith)
                    requires
                        r < max,
                        max as int * resolution as int == side as int - 1,
                ;
                assert((c as int + 1) * resolution as int <= side as int - 1) by (nonlinear_arith)
                    requires
                        c < max,
                        max as int * resolution as int == side as int - 1,
                ;
                assert((r as int + 1) * resolution as int == r as int * resolution as int
                    + resolution as int) by (nonlinear_arith);
                assert((c as int + 1) * resolution as int == c as int * resolution as int
                    + resolution as int) by (nonlinear_arith);
                assert((side as int - 1) * side as int + (side as int - 1) < side as int * side as int) by (nonlinear_arith)
                    requires
                        side >= 1,
                ;
                assert(((c as int + 1) * resolution as int) * side as int <= (side as int - 1) * side as int) by (nonlinear_arith)
                    requires
                        (c as int + 1) * resolution as int <= side as int - 1,
                ;
                assert((c as int * resolution as int) * side as int <= ((c as int + 1) * resolution as int) * side as int) by (nonlinear_arith)
                    requires
                        resolution >= 1,
                ;
            }
            let row0: u32 = r * resolution;
            let row1: u32 = row0 + resolution;
            let col0: u32 = c * resolution * side;
            let col1: u32 = (c * resolution + resolution) * side;
            let ghost start = v@.len();
            v.push(row0 + col0);
            v.push(row1 + col0);
            v.push(row1 + col1);
            v.push(row0 + col0);
            v.push(row1 + col1);
            v.push(row0 + col1);
            proof {
                assert forall|k: int| start <= k < start + 6 implies #[trigger] v@[k]
                    == index_at(resolution, side, k) as u32 by {
                    lemma_entry(resolution, side, r as int, c as int, k - start);
                    assert((r as int + 1) * resolution as int == r as int * resolution as int
                        + resolution as int) by (nonlinear_arith);
                    assert((c as int + 1) * resolution as int == c as int * resolution as int
                        + resolution as int) by (nonlinear_arith);
                }
                assert(v@.len() == 6 * (r * m + c + 1)) by (nonlinear_arith)
                    requires
                        v@.len() == start + 6,
                        start == 6 * (r * m + c),
                ;
            }
            c = c + 1;
        }
        proof {
            assert(6 * (r * m + max) == 6 * ((r + 1) * m)) by (nonlinear_arith)
                requires
                    max == m,
                    m == cells_per_side(resolution, side),
            ;
        }
        r = r + 1;
    }
    proof {
        assert(6 * (r * m) == 6 * m * m) by (nonlinear_arith)
            requires
                r == m,
        ;
        assert(v@ =~= index_seq(resolution, side));
    }
    v
}

} // verus!
