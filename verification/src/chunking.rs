//! Chunks: the parts into which the points are distributed before the octree
//! is built.

use crate::key::{
    ancestor, law_ancestor_of_ancestor, lemma_pow2_monotonic, parent_key, pow2, valid_key,
    VoxelKey,
};
use vstd::arithmetic::div_mod::{
    lemma_div_denominator, lemma_fundamental_div_mod, lemma_fundamental_div_mod_converse,
};
use vstd::prelude::*;

verus! {

/// One chunk: a voxel at `level` and about how many points it holds.
#[derive(Debug, Clone, Copy, PartialEq, Eq, Structural)]
pub struct PlannedChunk {
    pub level: u32,
    pub gx: i32,
    pub gy: i32,
    pub gz: i32,
    pub point_count: u64,
}

/// Bounds that the headers declare and the points do not keep: for each bound
/// that differs, the declared and the actual number, as bit patterns.
#[derive(Debug, Clone, Copy, PartialEq, Eq)]
pub struct HeaderBoundsMismatch {
    pub min_x: Option<(u64, u64)>,
    pub min_y: Option<(u64, u64)>,
    pub min_z: Option<(u64, u64)>,
    pub max_x: Option<(u64, u64)>,
    pub max_y: Option<(u64, u64)>,
    pub max_z: Option<(u64, u64)>,
}

/// How the points are split into chunks. The grid has `grid_size` cells per
/// axis, which are the voxels at level `grid_depth`.
#[derive(Debug)]
pub struct ChunkPlan {
    pub grid_size: u32,
    pub grid_depth: u32,
    pub chunk_target: u64,
    pub total_points: u64,
    pub chunks: Vec<PlannedChunk>,
    pub header_mismatch: Option<HeaderBoundsMismatch>,
}

/// The chunk's voxel lies in the octree, no deeper than the grid's cells.
pub open spec fn chunk_fits(chunk: PlannedChunk, grid_depth: u32) -> bool {
    &&& chunk.level <= grid_depth <= 31
    &&& chunk.gx >= 0
    &&& chunk.gy >= 0
    &&& chunk.gz >= 0
}

impl ChunkPlan {
    pub open spec fn wf(self) -> bool {
        &&& self.grid_size * self.grid_size * self.grid_size <= usize::MAX
        &&& self.chunks@.len() <= u32::MAX
        &&& forall|i: int|
            0 <= i < self.chunks@.len() ==> chunk_fits(#[trigger] self.chunks@[i], self.grid_depth)
    }
}

/// How many grid cells a chunk spans along each axis.
pub open spec fn stride_of(chunk: PlannedChunk, grid_depth: u32) -> nat {
    pow2((grid_depth - chunk.level) as nat)
}

/// Whether `v` is one of the `stride` cells of the chunk cell `c`.
pub open spec fn in_span(c: i32, stride: nat, v: int) -> bool {
    c * stride <= v < c * stride + stride
}

/// Whether the grid cell (x, y, z) lies in the chunk's voxel.
pub open spec fn covers(
    chunk: PlannedChunk,
    grid_depth: u32,
    x: int,
    y: int,
    z: int,
) -> bool {
    let stride = stride_of(chunk, grid_depth);
    in_span(chunk.gx, stride, x) && in_span(chunk.gy, stride, y) && in_span(chunk.gz, stride, z)
}

/// The last of the first `n` chunks that covers a cell, or `u32::MAX`.
pub open spec fn owner(plan: ChunkPlan, n: nat, x: int, y: int, z: int) -> u32
    decreases n,
{
    if n == 0 {
        u32::MAX
    } else if covers(plan.chunks@[n - 1], plan.grid_depth, x, y, z) {
        (n - 1) as u32
    } else {
        owner(plan, (n - 1) as nat, x, y, z)
    }
}

/// The cells of a flat table of `g * g * g` cells, with x varying fastest.
pub open spec fn cell_x(i: int, g: int) -> int {
    i % g
}

pub open spec fn cell_y(i: int, g: int) -> int {
    (i / g) % g
}

pub open spec fn cell_z(i: int, g: int) -> int {
    (i / g) / g
}

/// The place of a cell in the table.
pub open spec fn flat_index(x: int, y: int, z: int, g: int) -> int {
    x + y * g + z * g * g
}

/// Every cell has its own place.
pub proof fn lemma_flat_index(x: int, y: int, z: int, g: int)
    requires
        0 <= x < g,
        0 <= y < g,
        0 <= z < g,
    ensures
        cell_x(flat_index(x, y, z, g), g) == x,
        cell_y(flat_index(x, y, z, g), g) == y,
        cell_z(flat_index(x, y, z, g), g) == z,
        0 <= flat_index(x, y, z, g) < g * g * g,
{
    let r = y + z * g;
    let i = flat_index(x, y, z, g);
    assert(i == x + r * g) by (nonlinear_arith)
        requires
            r == y + z * g,
            i == x + y * g + z * g * g,
    ;
    lemma_fundamental_div_mod_converse(i, g, r, x);
    lemma_fundamental_div_mod_converse(r, g, z, y);
    assert(0 <= i < g * g * g) by (nonlinear_arith)
        requires
            i == x + r * g,
            r == y + z * g,
            0 <= x < g,
            0 <= y < g,
            0 <= z < g,
    ;
}

/// A place in row `r` at x-coordinate between `from` and `to`.
proof fn lemma_row(i: int, g: int, r: int, from: int, to: int)
    requires
        0 < g,
        0 <= i,
        0 <= r,
        0 <= from <= to <= g,
    ensures
        (from + r * g <= i < to + r * g) <==> (i / g == r && from <= i % g < to),
{
    lemma_fundamental_div_mod(i, g);
    if from + r * g <= i < to + r * g {
        lemma_fundamental_div_mod_converse(i, g, r, i - r * g);
    }
    if i / g == r {
        assert(i == g * r + i % g);
        assert(g * r == r * g) by (nonlinear_arith);
    }
}

/// Fills a part of the table.
fn fill(lut: &mut Vec<u32>, from: usize, to: usize, v: u32)
    requires
        from <= to <= old(lut)@.len(),
    ensures
        final(lut)@.len() == old(lut)@.len(),
        forall|i: int|
            0 <= i < old(lut)@.len() ==> #[trigger] final(lut)@[i] == (if from <= i < to {
                v
            } else {
                old(lut)@[i]
            }),
{
    let mut k: usize = from;
    while k < to
        invariant
            from <= k <= to <= lut@.len(),
            lut@.len() == old(lut)@.len(),
            forall|i: int|
                0 <= i < lut@.len() ==> #[trigger] lut@[i] == (if from <= i < k {
                    v
                } else {
                    old(lut)@[i]
                }),
        decreases to - k,
    {
        lut[k] = v;
        k = k + 1;
    }
}

/// The span of a chunk cell, clamped to the grid.
fn span(c: i32, stride: u64, g: u32) -> (r: (usize, usize))
    requires
        c >= 0,
        1 <= stride <= 0x8000_0000,
    ensures
        r.0 <= r.1 <= g,
        forall|v: int|
            0 <= v < g ==> (#[trigger] in_span(c, stride as nat, v) <==> r.0 <= v < r.1),
{
    assert(c * stride <= 0x7FFF_FFFF * 0x8000_0000) by (nonlinear_arith)
        requires
            0 <= c <= 0x7FFF_FFFF,
            0 <= stride <= 0x8000_0000,
    ;
    assert(c * stride >= 0) by (nonlinear_arith)
        requires
            c >= 0,
            stride >= 0,
    ;
    let base: u64 = c as u64 * stride;
    let end: u64 = base + stride;
    let lo: u32 = if base < g as u64 {
        base as u32
    } else {
        g
    };
    let hi: u32 = if end < g as u64 {
        end as u32
    } else {
        g
    };
    (lo as usize, hi as usize)
}

/// Two to the power `n`.
fn power_of_two(n: u32) -> (p: u64)
    requires
        n <= 31,
    ensures
        p == pow2(n as nat),
        1 <= p <= 0x8000_0000,
{
    let mut p: u64 = 1;
    let mut i: u32 = 0;
    while i < n
        invariant
            i <= n <= 31,
            p == pow2(i as nat),
        decreases n - i,
    {
        proof {
            lemma_pow2_monotonic(i as nat, 31);
            crate::key::lemma_pow2_values();
        }
        p = p * 2;
        i = i + 1;
    }
    proof {
        lemma_pow2_monotonic(n as nat, 31);
        lemma_pow2_monotonic(0, n as nat);
        crate::key::lemma_pow2_values();
    }
    p
}

/// What the table holds for cell `i` when the first `n` chunks are entered.
spec fn entered(plan: ChunkPlan, n: nat, i: int) -> u32 {
    let g = plan.grid_size as int;
    owner(plan, n, cell_x(i, g), cell_y(i, g), cell_z(i, g))
}

/// Whether chunk `c` covers cell `i`.
spec fn covers_at(plan: ChunkPlan, c: int, i: int) -> bool {
    let g = plan.grid_size as int;
    covers(plan.chunks@[c], plan.grid_depth, cell_x(i, g), cell_y(i, g), cell_z(i, g))
}

/// Whether row `r` (y + z * g) comes before row (y, z).
spec fn row_before(r: int, g: int, y: int, z: int) -> bool {
    r / g < z || (r / g == z && r % g < y)
}

/// Enters one chunk into the table.
fn enter_chunk(lut: &mut Vec<u32>, plan: &ChunkPlan, c: usize)
    requires
        plan.wf(),
        c < plan.chunks@.len(),
        plan.grid_size > 0,
        old(lut)@.len() == plan.grid_size * plan.grid_size * plan.grid_size,
    ensures
        final(lut)@.len() == old(lut)@.len(),
        forall|i: int|
            0 <= i < old(lut)@.len() ==> #[trigger] final(lut)@[i] == (if covers_at(
                *plan,
                c as int,
                i,
            ) {
                c as u32
            } else {
                old(lut)@[i]
            }),
{
    let chunk = plan.chunks[c];
    let g32: u32 = plan.grid_size;
    let g: usize = g32 as usize;
    let ghost gi = g as int;
    assert(chunk_fits(plan.chunks@[c as int], plan.grid_depth));
    let stride: u64 = power_of_two(plan.grid_depth - chunk.level);
    let (x0, x1) = span(chunk.gx, stride, g32);
    let (y0, y1) = span(chunk.gy, stride, g32);
    let (z0, z1) = span(chunk.gz, stride, g32);
    let ghost before = lut@;
    let mut z: usize = z0;
    while z < z1
        invariant
            gi == g == plan.grid_size,
            g > 0,
            x0 <= x1 <= g,
            y0 <= y1 <= g,
            z0 <= z <= z1 <= g || (z0 == z && z1 <= z),
            z1 <= g,
            before.len() == gi * gi * gi <= usize::MAX,
            lut@.len() == before.len(),
            c <= u32::MAX,
            forall|i: int|
                0 <= i < before.len() ==> #[trigger] lut@[i] == (if x0 <= cell_x(i, gi) < x1
                    && y0 <= cell_y(i, gi) < y1 && z0 <= cell_z(i, gi) < z1 && cell_z(i, gi) < z {
                    c as u32
                } else {
                    before[i]
                }),
        decreases z1 - z,
    {
        let mut y: usize = y0;
        while y < y1
            invariant
                gi == g == plan.grid_size,
                g > 0,
                x0 <= x1 <= g,
                y0 <= y,
                y1 <= g,
                z0 <= z < z1 <= g,
                before.len() == gi * gi * gi <= usize::MAX,
                lut@.len() == before.len(),
                c <= u32::MAX,
                forall|i: int|
                    0 <= i < before.len() ==> #[trigger] lut@[i] == (if x0 <= cell_x(i, gi) < x1
                        && y0 <= cell_y(i, gi) < y1 && z0 <= cell_z(i, gi) < z1 && row_before(
                        i / gi,
                        gi,
                        y as int,
                        z as int,
                    ) {
                        c as u32
                    } else {
                        before[i]
                    }),
            decreases y1 - y,
        {
            let ghost r: int = y + z * gi;
            proof {
                assert(0 <= z * gi && (z + 1) * gi <= gi * gi && r < gi * gi && r >= 0)
                    by (nonlinear_arith)
                    requires
                        0 <= z < gi,
                        0 <= y < gi,
                        r == y + z * gi,
                ;
                assert((r + 1) * gi <= gi * gi * gi && 0 <= r * gi && gi * gi <= gi * gi * gi)
                    by (nonlinear_arith)
                    requires
                        0 <= r < gi * gi,
                        gi > 0,
                ;
                assert(r * gi + gi == (r + 1) * gi) by (nonlinear_arith);
                lemma_fundamental_div_mod_converse(r, gi, z as int, y as int);
            }
            let row: usize = y + z * g;
            let from: usize = x0 + row * g;
            let to: usize = x1 + row * g;
            let ghost mid = lut@;
            fill(lut, from, to, c as u32);
            proof {
                assert forall|i: int| 0 <= i < before.len() implies #[trigger] lut@[i] == (if x0
                    <= cell_x(i, gi) < x1 && y0 <= cell_y(i, gi) < y1 && z0 <= cell_z(i, gi) < z1
                    && row_before(i / gi, gi, y + 1, z as int) {
                    c as u32
                } else {
                    before[i]
                }) by {
                    lemma_row(i, gi, r, x0 as int, x1 as int);
                    lemma_fundamental_div_mod(i / gi, gi);
                    if (i / gi) / gi == z && (i / gi) % gi == y {
                        assert(i / gi == gi * z + y);
                        assert(gi * z == z * gi) by (nonlinear_arith);
                    }
                    assert(mid[i] == (if x0 <= cell_x(i, gi) < x1 && y0 <= cell_y(i, gi) < y1 && z0
                        <= cell_z(i, gi) < z1 && row_before(i / gi, gi, y as int, z as int) {
                        c as u32
                    } else {
                        before[i]
                    }));
                }
            }
            y = y + 1;
        }
        z = z + 1;
    }
    proof {
        assert forall|i: int| 0 <= i < before.len() implies #[trigger] lut@[i] == (if covers_at(
            *plan,
            c as int,
            i,
        ) {
            c as u32
        } else {
            before[i]
        }) by {
            lemma_cell_bounds(i, gi);
            let st = stride as nat;
            assert(st == stride_of(chunk, plan.grid_depth));
            assert(in_span(chunk.gx, st, cell_x(i, gi)) <==> x0 <= cell_x(i, gi) < x1);
            assert(in_span(chunk.gy, st, cell_y(i, gi)) <==> y0 <= cell_y(i, gi) < y1);
            assert(in_span(chunk.gz, st, cell_z(i, gi)) <==> z0 <= cell_z(i, gi) < z1);
        }
    }
}

/// The coordinates of a place lie in the grid.
proof fn lemma_cell_bounds(i: int, g: int)
    requires
        0 < g,
        0 <= i < g * g * g,
    ensures
        0 <= cell_x(i, g) < g,
        0 <= cell_y(i, g) < g,
        0 <= cell_z(i, g) < g,
{
    lemma_fundamental_div_mod(i, g);
    lemma_fundamental_div_mod(i / g, g);
    let r = i / g;
    let z = r / g;
    assert(0 <= z < g) by (nonlinear_arith)
        requires
            0 < g,
            0 <= i < g * g * g,
            i == g * r + i % g,
            0 <= i % g < g,
            r == g * z + r % g,
            0 <= r % g < g,
    ;
}

/// Builds the table from grid cell to chunk. Each entry holds the index of the
/// chunk that the cell belongs to; cells that no chunk covers hold `u32::MAX`.
pub fn build_chunk_lut(plan: &ChunkPlan) -> (lut: Vec<u32>)
    requires
        plan.wf(),
    ensures
        lut@.len() == plan.grid_size * plan.grid_size * plan.grid_size,
        forall|x: int, y: int, z: int|
            0 <= x < plan.grid_size && 0 <= y < plan.grid_size && 0 <= z < plan.grid_size
                ==> lut@[#[trigger] flat_index(x, y, z, plan.grid_size as int)] == owner(
                *plan,
                plan.chunks@.len(),
                x,
                y,
                z,
            ),
{
    let g: usize = plan.grid_size as usize;
    let ghost gi = g as int;
    if g == 0 {
        return Vec::new();
    }
    proof {
        assert(gi * gi <= gi * gi * gi) by (nonlinear_arith)
            requires
                gi > 0,
        ;
    }
    let n_cells: usize = g * g * g;
    let mut lut: Vec<u32> = vec![u32::MAX; n_cells];
    let mut c: usize = 0;
    while c < plan.chunks.len()
        invariant
            plan.wf(),
            gi == plan.grid_size > 0,
            c <= plan.chunks@.len(),
            lut@.len() == gi * gi * gi,
            forall|i: int| 0 <= i < lut@.len() ==> #[trigger] lut@[i] == entered(*plan, c as nat, i),
        decreases plan.chunks@.len() - c,
    {
        let ghost before = lut@;
        enter_chunk(&mut lut, plan, c);
        assert forall|i: int| 0 <= i < lut@.len() implies #[trigger] lut@[i] == entered(
            *plan,
            (c + 1) as nat,
            i,
        ) by {
            assert(before[i] == entered(*plan, c as nat, i));
        }
        c = c + 1;
    }
    proof {
        assert forall|x: int, y: int, z: int|
            0 <= x < plan.grid_size && 0 <= y < plan.grid_size && 0 <= z
                < plan.grid_size implies lut@[#[trigger] flat_index(
            x,
            y,
            z,
            plan.grid_size as int,
        )] == owner(*plan, plan.chunks@.len(), x, y, z) by {
            lemma_flat_index(x, y, z, gi);
            let i = flat_index(x, y, z, gi);
            assert(lut@[i] == entered(*plan, plan.chunks@.len(), i));
        }
    }
    lut
}

/// The smaller of a coordinate and the last one of the grid.
pub open spec fn clamped(v: i32, g: u32) -> int {
    if v < g {
        v as int
    } else {
        g - 1
    }
}

/// The number of the grid cell with the coordinates of a key. A coordinate beyond
/// the grid counts as the last one.
pub open spec fn cell_number(key: VoxelKey, grid_size: u32) -> int {
    flat_index(
        clamped(key.x, grid_size),
        clamped(key.y, grid_size),
        clamped(key.z, grid_size),
        grid_size as int,
    )
}

/// The number of the grid cell that a point with the given key at the depth of
/// the grid lies in.
pub fn cell_of_key(grid_size: u32, key: &VoxelKey) -> (i: usize)
    requires
        grid_size > 0,
        grid_size * grid_size * grid_size <= usize::MAX,
        key.x >= 0,
        key.y >= 0,
        key.z >= 0,
    ensures
        i == cell_number(*key, grid_size),
        i < grid_size * grid_size * grid_size,
{
    let g: usize = grid_size as usize;
    let gx: usize = clamp_to_grid(key.x, grid_size);
    let gy: usize = clamp_to_grid(key.y, grid_size);
    let gz: usize = clamp_to_grid(key.z, grid_size);
    proof {
        let gi = g as int;
        lemma_flat_index(gx as int, gy as int, gz as int, gi);
        assert(0 <= gy * gi && 0 <= gz * gi && 0 <= gz * gi * gi && gz * gi <= gz * gi * gi)
            by (nonlinear_arith)
            requires
                gi > 0,
                gy >= 0,
                gz >= 0,
        ;
    }
    gx + gy * g + gz * g * g
}

/// The chunk that a point is distributed to: that of the grid cell that the
/// point lies in.
pub fn chunk_of_key(lut: &Vec<u32>, grid_size: u32, key: &VoxelKey) -> (c: u32)
    requires
        grid_size > 0,
        lut@.len() == grid_size * grid_size * grid_size,
        key.x >= 0,
        key.y >= 0,
        key.z >= 0,
    ensures
        c == lut@[cell_number(*key, grid_size)],
{
    assert(lut.len() <= usize::MAX);
    let i: usize = cell_of_key(grid_size, key);
    lut[i]
}

fn clamp_to_grid(v: i32, g: u32) -> (r: usize)
    requires
        v >= 0,
        g > 0,
    ensures
        r == clamped(v, g),
        r < g,
{
    if (v as u32) < g {
        v as usize
    } else {
        (g - 1) as usize
    }
}

/// An ancestor's coordinates are those of its descendant divided by the number
/// of cells between their levels.
pub proof fn lemma_ancestor_coords(k: VoxelKey, level: int)
    requires
        0 <= level <= k.level,
        k.x >= 0,
        k.y >= 0,
        k.z >= 0,
    ensures
        ancestor(k, level).level == level,
        ancestor(k, level).x == k.x as int / pow2((k.level - level) as nat) as int,
        ancestor(k, level).y == k.y as int / pow2((k.level - level) as nat) as int,
        ancestor(k, level).z == k.z as int / pow2((k.level - level) as nat) as int,
    decreases k.level - level,
{
    let d = (k.level - level) as nat;
    if d > 0 {
        let p = parent_key(k);
        lemma_ancestor_coords(p, level);
        lemma_pow2_monotonic(0, (d - 1) as nat);
        let s = pow2((d - 1) as nat) as int;
        lemma_div_denominator(k.x as int, 2, s);
        lemma_div_denominator(k.y as int, 2, s);
        lemma_div_denominator(k.z as int, 2, s);
        assert(pow2(d) == 2 * s);
        assert((p.level - level) as nat == (d - 1) as nat);
        assert(ancestor(k, level) == ancestor(p, level));
    } else {
        assert(pow2(0) == 1);
        vstd::arithmetic::div_mod::lemma_div_basics(k.x as int);
        vstd::arithmetic::div_mod::lemma_div_basics(k.y as int);
        vstd::arithmetic::div_mod::lemma_div_basics(k.z as int);
    }
}

/// The key of a chunk's voxel.
pub open spec fn chunk_root(chunk: PlannedChunk) -> VoxelKey {
    VoxelKey { level: chunk.level as i32, x: chunk.gx, y: chunk.gy, z: chunk.gz }
}

/// A chunk covers exactly the grid cells that lie in its voxel.
pub proof fn law_covers_is_ancestor(chunk: PlannedChunk, grid_depth: u32, key: VoxelKey)
    requires
        chunk_fits(chunk, grid_depth),
        key.level == grid_depth,
        key.x >= 0,
        key.y >= 0,
        key.z >= 0,
    ensures
        covers(chunk, grid_depth, key.x as int, key.y as int, key.z as int) <==> ancestor(
            key,
            chunk.level as int,
        ) == chunk_root(chunk),
{
    let s = stride_of(chunk, grid_depth) as int;
    lemma_pow2_monotonic(0, (grid_depth - chunk.level) as nat);
    lemma_ancestor_coords(key, chunk.level as int);
    lemma_span_is_quotient(key.x as int, chunk.gx as int, s);
    lemma_span_is_quotient(key.y as int, chunk.gy as int, s);
    lemma_span_is_quotient(key.z as int, chunk.gz as int, s);
}

proof fn lemma_span_is_quotient(v: int, c: int, s: int)
    requires
        s > 0,
        v >= 0,
    ensures
        (c * s <= v < c * s + s) <==> v / s == c,
{
    lemma_fundamental_div_mod(v, s);
    if c * s <= v < c * s + s {
        lemma_fundamental_div_mod_converse(v, s, c, v - c * s);
    }
    if v / s == c {
        assert(s * c == c * s) by (nonlinear_arith);
    }
}

proof fn lemma_owner_covers(plan: ChunkPlan, n: nat, x: int, y: int, z: int)
    requires
        n <= plan.chunks@.len() <= u32::MAX,
        owner(plan, n, x, y, z) != u32::MAX,
    ensures
        owner(plan, n, x, y, z) < n,
        covers(plan.chunks@[owner(plan, n, x, y, z) as int], plan.grid_depth, x, y, z),
    decreases n,
{
    if !covers(plan.chunks@[n - 1], plan.grid_depth, x, y, z) {
        lemma_owner_covers(plan, (n - 1) as nat, x, y, z);
    }
}

/// A point that is distributed to a chunk lies in the chunk's voxel: the chunk
/// root is the ancestor of the point's key, at whatever depth the point is
/// located.
pub proof fn law_distributed_point_in_chunk(plan: ChunkPlan, key: VoxelKey)
    requires
        plan.wf(),
        valid_key(key),
        plan.grid_depth <= key.level,
        owner(
            plan,
            plan.chunks@.len(),
            ancestor(key, plan.grid_depth as int).x as int,
            ancestor(key, plan.grid_depth as int).y as int,
            ancestor(key, plan.grid_depth as int).z as int,
        ) != u32::MAX,
    ensures
        ({
            let cell = ancestor(key, plan.grid_depth as int);
            let c = owner(
                plan,
                plan.chunks@.len(),
                cell.x as int,
                cell.y as int,
                cell.z as int,
            );
            let chunk = plan.chunks@[c as int];
            c < plan.chunks@.len() && ancestor(key, chunk.level as int) == chunk_root(chunk)
        }),
{
    let cell = ancestor(key, plan.grid_depth as int);
    let c = owner(plan, plan.chunks@.len(), cell.x as int, cell.y as int, cell.z as int);
    lemma_owner_covers(
        plan,
        plan.chunks@.len(),
        cell.x as int,
        cell.y as int,
        cell.z as int,
    );
    let chunk = plan.chunks@[c as int];
    assert(chunk_fits(chunk, plan.grid_depth));
    lemma_ancestor_coords(key, plan.grid_depth as int);
    lemma_pow2_monotonic(0, (key.level - plan.grid_depth) as nat);
    let s = pow2((key.level - plan.grid_depth) as nat) as int;
    vstd::arithmetic::div_mod::lemma_div_pos_is_pos(key.x as int, s);
    vstd::arithmetic::div_mod::lemma_div_pos_is_pos(key.y as int, s);
    vstd::arithmetic::div_mod::lemma_div_pos_is_pos(key.z as int, s);
    law_covers_is_ancestor(chunk, plan.grid_depth, cell);
    law_ancestor_of_ancestor(key, plan.grid_depth as int, chunk.level as int);
}

} // verus!
