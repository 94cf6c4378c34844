//! The chunk planner: which voxels become chunks, given how many points lie in
//! each cell of a grid.
//!
//! A voxel that holds no more points than the target becomes a chunk; one that
//! holds more is divided into its eight children, down to the cells of the
//! grid. Voxels without points are left out.

use crate::batches::{batch_views, batches, sizes_ok, split_batches};
use crate::chunking::{
    chunk_fits, chunk_root, covers, flat_index, law_covers_is_ancestor, lemma_flat_index,
    owner, stride_of, ChunkPlan, PlannedChunk,
};
use crate::key::{
    ancestor, law_ancestor_of_ancestor, lemma_pow2_monotonic, lemma_pow2_values, pow2, VoxelKey,
};
use vstd::prelude::*;

verus! {

/// Memory that one point of a chunk takes while the chunk is built.
pub const PER_CHUNK_BYTES_PER_POINT: u64 = 600;

/// The smallest target that is derived from the memory budget.
pub const MIN_CHUNK_TARGET: u64 = 1_000_000;

/// How many points a chunk should hold at most: what `workers` chunks at a time
/// may hold within the memory budget, but not less than `MIN_CHUNK_TARGET`.
pub fn compute_chunk_target(memory_budget: u64, workers: usize) -> (n: u64)
    requires
        workers > 0,
    ensures
        n == (if memory_budget as int / workers as int / PER_CHUNK_BYTES_PER_POINT as int
            > MIN_CHUNK_TARGET {
            memory_budget as int / workers as int / PER_CHUNK_BYTES_PER_POINT as int
        } else {
            MIN_CHUNK_TARGET as int
        }),
        n >= 1_000_000,
        n > 1_000_000 ==> n * 600 * workers <= memory_budget,
        memory_budget < (n + 1) * 600 * workers,
{
    let n: u64 = memory_budget / workers as u64 / PER_CHUNK_BYTES_PER_POINT;
    proof {
        let share = memory_budget as int / workers as int;
        let m = if n > 1_000_000 {
            n as int
        } else {
            1_000_000int
        };
        vstd::arithmetic::div_mod::lemma_fundamental_div_mod(memory_budget as int, workers as int);
        assert(n * 600 * workers <= memory_budget && memory_budget < (m + 1) * 600 * workers)
            by (nonlinear_arith)
            requires
                memory_budget == workers * share + memory_budget as int % (workers as int),
                0 <= memory_budget as int % (workers as int) < workers,
                n * 600 <= share < (n + 1) * 600,
                workers > 0,
                m >= n,
        ;
    }
    if n > MIN_CHUNK_TARGET {
        n
    } else {
        MIN_CHUNK_TARGET
    }
}

/// The depth of the counting grid for a number of points: more cells for more
/// points.
pub open spec fn wanted_depth(total_points: u64) -> u32 {
    if total_points < 100_000_000 {
        7
    } else if total_points < 500_000_000 {
        8
    } else {
        9
    }
}

/// The depth of the counting grid: as wanted, but coarser where the grid would
/// take more than a quarter of the memory budget; never coarser than 128 cells
/// per axis.
pub open spec fn grid_depth_for(total_points: u64, memory_budget: u64) -> u32 {
    if wanted_depth(total_points) == 9 && memory_budget as int / 4 >= 0x4000_0000 {
        9
    } else if wanted_depth(total_points) >= 8 && memory_budget as int / 4 >= 0x800_0000 {
        8
    } else {
        7
    }
}

/// The depth of the counting grid.
pub fn select_grid_depth(total_points: u64, memory_budget: u64) -> (d: u32)
    ensures
        d == grid_depth_for(total_points, memory_budget),
        7 <= d <= 9,
{
    let share: u64 = memory_budget / 4;
    if total_points >= 500_000_000 && share >= 0x4000_0000 {
        9
    } else if total_points >= 100_000_000 && share >= 0x800_0000 {
        8
    } else {
        7
    }
}

/// The number of cells per axis of the counting grid.
pub fn select_grid_size(total_points: u64, memory_budget: u64) -> (g: u32)
    ensures
        g == pow2(grid_depth_for(total_points, memory_budget) as nat),
        g == 128 || g == 256 || g == 512,
{
    assert(pow2(7) == 128 && pow2(8) == 256 && pow2(9) == 512) by {
        reveal_with_fuel(pow2, 10);
    }
    match select_grid_depth(total_points, memory_budget) {
        7 => 128,
        8 => 256,
        _ => 512,
    }
}

/// Child `c` of eight: its offset along x.
pub open spec fn child_x(c: int) -> int {
    c % 2
}

pub open spec fn child_y(c: int) -> int {
    (c / 2) % 2
}

pub open spec fn child_z(c: int) -> int {
    c / 4
}

/// How many points lie in the voxel (x, y, z) at `level`, where `counts` holds
/// how many lie in each voxel at `depth`.
pub open spec fn voxel_count(
    counts: Seq<u64>,
    depth: nat,
    level: nat,
    x: int,
    y: int,
    z: int,
) -> nat
    decreases depth - level, 9nat,
{
    if level >= depth {
        counts[flat_index(x, y, z, pow2(depth) as int)] as nat
    } else {
        children_count(counts, depth, level, x, y, z, 8)
    }
}

/// How many points lie in the first `n` children of a voxel.
pub open spec fn children_count(
    counts: Seq<u64>,
    depth: nat,
    level: nat,
    x: int,
    y: int,
    z: int,
    n: nat,
) -> nat
    decreases depth - level, n,
{
    if n == 0 || level >= depth {
        0
    } else {
        let c = n - 1;
        children_count(counts, depth, level, x, y, z, (n - 1) as nat) + voxel_count(
            counts,
            depth,
            level + 1,
            2 * x + child_x(c),
            2 * y + child_y(c),
            2 * z + child_z(c),
        )
    }
}

/// The chunks of the voxel (x, y, z) at `level`.
pub open spec fn voxel_chunks(
    counts: Seq<u64>,
    depth: nat,
    target: u64,
    level: nat,
    x: int,
    y: int,
    z: int,
) -> Seq<PlannedChunk>
    decreases depth - level, 9nat,
{
    let n = voxel_count(counts, depth, level, x, y, z);
    if n == 0 {
        Seq::empty()
    } else if n <= target || level >= depth {
        seq![
            PlannedChunk {
                level: level as u32,
                gx: x as i32,
                gy: y as i32,
                gz: z as i32,
                point_count: n as u64,
            },
        ]
    } else {
        children_chunks(counts, depth, target, level, x, y, z, 8)
    }
}

/// The chunks of the first `n` children of a voxel.
pub open spec fn children_chunks(
    counts: Seq<u64>,
    depth: nat,
    target: u64,
    level: nat,
    x: int,
    y: int,
    z: int,
    n: nat,
) -> Seq<PlannedChunk>
    decreases depth - level, n,
{
    if n == 0 || level >= depth {
        Seq::empty()
    } else {
        let c = n - 1;
        children_chunks(counts, depth, target, level, x, y, z, (n - 1) as nat) + voxel_chunks(
            counts,
            depth,
            target,
            level + 1,
            2 * x + child_x(c),
            2 * y + child_y(c),
            2 * z + child_z(c),
        )
    }
}

/// The voxel lies in the octree.
pub open spec fn in_level(level: nat, x: int, y: int, z: int) -> bool {
    0 <= x < pow2(level) && 0 <= y < pow2(level) && 0 <= z < pow2(level)
}

/// A child of a voxel in the octree lies in the octree.
proof fn lemma_child_in_level(level: nat, x: int, y: int, z: int, c: int)
    requires
        in_level(level, x, y, z),
        0 <= c < 8,
    ensures
        in_level(level + 1, 2 * x + child_x(c), 2 * y + child_y(c), 2 * z + child_z(c)),
{
    assert(pow2(level + 1) == 2 * pow2(level));
}

/// No child holds more than its parent.
proof fn lemma_child_count(
    counts: Seq<u64>,
    depth: nat,
    level: nat,
    x: int,
    y: int,
    z: int,
    c: int,
    n: nat,
)
    requires
        level < depth,
        0 <= c < n <= 8,
    ensures
        voxel_count(
            counts,
            depth,
            level + 1,
            2 * x + child_x(c),
            2 * y + child_y(c),
            2 * z + child_z(c),
        ) <= children_count(counts, depth, level, x, y, z, n),
        children_count(counts, depth, level, x, y, z, n) <= children_count(
            counts,
            depth,
            level,
            x,
            y,
            z,
            8,
        ),
    decreases n, 8 - n,
{
    if c < n - 1 {
        lemma_child_count(counts, depth, level, x, y, z, c, (n - 1) as nat);
    }
    lemma_children_grow(counts, depth, level, x, y, z, n);
}

proof fn lemma_children_grow(
    counts: Seq<u64>,
    depth: nat,
    level: nat,
    x: int,
    y: int,
    z: int,
    n: nat,
)
    requires
        level < depth,
        n <= 8,
    ensures
        children_count(counts, depth, level, x, y, z, n) <= children_count(
            counts,
            depth,
            level,
            x,
            y,
            z,
            8,
        ),
    decreases 8 - n,
{
    if n < 8 {
        lemma_children_grow(counts, depth, level, x, y, z, n + 1);
    }
}

/// No voxel holds more than the root.
proof fn lemma_count_bound(counts: Seq<u64>, depth: nat, level: nat, x: int, y: int, z: int)
    requires
        level <= depth,
        in_level(level, x, y, z),
    ensures
        voxel_count(counts, depth, level, x, y, z) <= voxel_count(counts, depth, 0, 0, 0, 0),
    decreases level,
{
    if level > 0 {
        let up = (level - 1) as nat;
        let px = x / 2;
        let py = y / 2;
        let pz = z / 2;
        let c = (x % 2) + 2 * (y % 2) + 4 * (z % 2);
        assert(pow2(level) == 2 * pow2(up));
        assert(child_x(c) == x % 2 && child_y(c) == y % 2 && child_z(c) == z % 2);
        lemma_child_count(counts, depth, up, px, py, pz, c, 8);
        lemma_count_bound(counts, depth, up, px, py, pz);
    } else {
        assert(pow2(0) == 1);
    }
}

/// `table` holds the counts of the voxels at `level`.
spec fn holds_level(table: Seq<u64>, counts: Seq<u64>, depth: nat, level: nat) -> bool {
    let s = pow2(level) as int;
    &&& table.len() == s * s * s
    &&& forall|x: int, y: int, z: int|
        in_level(level, x, y, z) ==> table[#[trigger] flat_index(x, y, z, s)] == voxel_count(
            counts,
            depth,
            level,
            x,
            y,
            z,
        )
}

/// The counts of the voxels of all levels, the finest level first.
spec fn holds_levels(tables: Seq<Vec<u64>>, counts: Seq<u64>, depth: nat) -> bool {
    forall|k: int|
        0 <= k < tables.len() ==> holds_level(
            (#[trigger] tables[k])@,
            counts,
            depth,
            (depth - k) as nat,
        )
}

/// The sum of the counts of a voxel's children.
fn sum_children(
    fine: &Vec<u64>,
    s: usize,
    x: usize,
    y: usize,
    z: usize,
    Ghost(counts): Ghost<Seq<u64>>,
    Ghost(depth): Ghost<nat>,
    Ghost(level): Ghost<nat>,
) -> (n: u64)
    requires
        level < depth,
        s == pow2(level),
        in_level(level, x as int, y as int, z as int),
        holds_level(fine@, counts, depth, level + 1),
        voxel_count(counts, depth, 0, 0, 0, 0) <= u64::MAX,
        8 * (s * s * s) <= usize::MAX,
    ensures
        n == voxel_count(counts, depth, level, x as int, y as int, z as int),
{
    let ghost (xi, yi, zi) = (x as int, y as int, z as int);
    let ghost si = s as int;
    proof {
        lemma_count_bound(counts, depth, level, xi, yi, zi);
        assert(pow2(level + 1) == 2 * s);
        assert(8 * (si * si * si) == (2 * si) * (2 * si) * (2 * si)) by (nonlinear_arith);
        assert(si * si <= si * si * si && si <= si * si) by (nonlinear_arith)
            requires
                si >= 1,
        ;
    }
    let s2: usize = 2 * s;
    let mut n: u64 = 0;
    let mut c: usize = 0;
    while c < 8
        invariant
            c <= 8,
            level < depth,
            s2 == 2 * s,
            si == s == pow2(level),
            pow2(level + 1) == s2,
            xi == x,
            yi == y,
            zi == z,
            in_level(level, xi, yi, zi),
            holds_level(fine@, counts, depth, level + 1),
            s2 * s2 * s2 <= usize::MAX,
            children_count(counts, depth, level, xi, yi, zi, 8) <= u64::MAX,
            n == children_count(counts, depth, level, xi, yi, zi, c as nat),
        decreases 8 - c,
    {
        let cx: usize = 2 * x + c % 2;
        let cy: usize = 2 * y + (c / 2) % 2;
        let cz: usize = 2 * z + c / 4;
        proof {
            lemma_child_in_level(level, xi, yi, zi, c as int);
            lemma_flat_index(cx as int, cy as int, cz as int, s2 as int);
            lemma_child_count(counts, depth, level, xi, yi, zi, c as int, (c + 1) as nat);
            let t = s2 as int;
            assert(0 <= cy * t && 0 <= cz * t && 0 <= cz * t * t && cz * t <= cz * t * t)
                by (nonlinear_arith)
                requires
                    t >= 1,
                    cy >= 0,
                    cz >= 0,
            ;
        }
        let at: usize = cx + cy * s2 + cz * s2 * s2;
        assert(fine@[flat_index(cx as int, cy as int, cz as int, s2 as int)] == voxel_count(
            counts,
            depth,
            (level + 1) as nat,
            2 * xi + child_x(c as int),
            2 * yi + child_y(c as int),
            2 * zi + child_z(c as int),
        ));
        n = n + fine[at];
        c = c + 1;
    }
    n
}

/// The counts of the voxels one level up.
fn coarser(
    fine: &Vec<u64>,
    s: usize,
    Ghost(counts): Ghost<Seq<u64>>,
    Ghost(depth): Ghost<nat>,
    Ghost(level): Ghost<nat>,
) -> (out: Vec<u64>)
    requires
        level < depth,
        s == pow2(level),
        holds_level(fine@, counts, depth, level + 1),
        voxel_count(counts, depth, 0, 0, 0, 0) <= u64::MAX,
        8 * (s * s * s) <= usize::MAX,
    ensures
        holds_level(out@, counts, depth, level),
{
    let ghost si = s as int;
    proof {
        lemma_pow2_monotonic(0, level);
    }
    let mut out: Vec<u64> = Vec::new();
    let mut z: usize = 0;
    assert(0 * si * si == 0) by (nonlinear_arith);
    while z < s
        invariant
            level < depth,
            si == s == pow2(level),
            s >= 1,
            z <= s,
            holds_level(fine@, counts, depth, level + 1),
            voxel_count(counts, depth, 0, 0, 0, 0) <= u64::MAX,
            8 * (s * s * s) <= usize::MAX,
            out@.len() == z * si * si,
            forall|a: int, b: int, c: int|
                in_level(level, a, b, c) && c < z ==> out@[#[trigger] flat_index(a, b, c, si)]
                    == voxel_count(counts, depth, level, a, b, c),
        decreases s - z,
    {
        let mut y: usize = 0;
        assert(0 * si == 0) by (nonlinear_arith);
        while y < s
            invariant
                level < depth,
                si == s == pow2(level),
                s >= 1,
                z < s,
                y <= s,
                holds_level(fine@, counts, depth, level + 1),
                voxel_count(counts, depth, 0, 0, 0, 0) <= u64::MAX,
                8 * (s * s * s) <= usize::MAX,
                out@.len() == z * si * si + y * si,
                forall|a: int, b: int, c: int|
                    in_level(level, a, b, c) && (c < z || (c == z && b < y)) ==> out@[
                        #[trigger] flat_index(a, b, c, si)
                    ] == voxel_count(counts, depth, level, a, b, c),
            decreases s - y,
        {
            let mut x: usize = 0;
            while x < s
                invariant
                    level < depth,
                    si == s == pow2(level),
                    s >= 1,
                    z < s,
                    y < s,
                    x <= s,
                    holds_level(fine@, counts, depth, level + 1),
                    voxel_count(counts, depth, 0, 0, 0, 0) <= u64::MAX,
                    8 * (s * s * s) <= usize::MAX,
                    out@.len() == z * si * si + y * si + x,
                    forall|a: int, b: int, c: int|
                        in_level(level, a, b, c) && (c < z || (c == z && (b < y || (b == y && a
                            < x)))) ==> out@[#[trigger] flat_index(a, b, c, si)] == voxel_count(
                            counts,
                            depth,
                            level,
                            a,
                            b,
                            c,
                        ),
                decreases s - x,
            {
                let n: u64 = sum_children(
                    fine,
                    s,
                    x,
                    y,
                    z,
                    Ghost(counts),
                    Ghost(depth),
                    Ghost(level),
                );
                let ghost before = out@;
                out.push(n);
                proof {
                    assert forall|a: int, b: int, c: int|
                        in_level(level, a, b, c) && (c < z || (c == z && (b < y || (b == y && a < x
                            + 1)))) implies out@[#[trigger] flat_index(a, b, c, si)]
                        == voxel_count(counts, depth, level, a, b, c) by {
                        lemma_before(a, b, c, x as int, y as int, z as int, si);
                        if flat_index(a, b, c, si) < before.len() {
                            assert(before[flat_index(a, b, c, si)] == voxel_count(
                                counts,
                                depth,
                                level,
                                a,
                                b,
                                c,
                            ));
                        }
                    }
                }
                x = x + 1;
            }
            assert(z * si * si + y * si + si == z * si * si + (y + 1) * si) by (nonlinear_arith);
            y = y + 1;
        }
        assert(z * si * si + si * si == (z + 1) * si * si) by (nonlinear_arith);
        z = z + 1;
    }
    out
}

/// The order of cells is the order of their places.
proof fn lemma_before(a: int, b: int, c: int, x: int, y: int, z: int, s: int)
    requires
        0 <= a < s,
        0 <= b < s,
        0 <= c < s,
        0 <= x < s,
        0 <= y < s,
        0 <= z < s,
        c < z || (c == z && (b < y || (b == y && a <= x))),
    ensures
        0 <= flat_index(a, b, c, s) <= flat_index(x, y, z, s),
        flat_index(a, b, c, s) == flat_index(x, y, z, s) <==> (a == x && b == y && c == z),
        c < z || (c == z && (b < y || (b == y && a < x))) <==> flat_index(a, b, c, s)
            < flat_index(x, y, z, s),
{
    lemma_flat_index(a, b, c, s);
    lemma_flat_index(x, y, z, s);
    if c < z {
        assert(a + b * s + c * s * s < x + y * s + z * s * s) by (nonlinear_arith)
            requires
                0 <= a < s,
                0 <= b < s,
                0 <= c < z,
                0 <= x,
                0 <= y,
                s >= 1,
        ;
    } else if b < y {
        assert(a + b * s < x + y * s) by (nonlinear_arith)
            requires
                0 <= a < s,
                0 <= b < y,
                0 <= x,
                s >= 1,
        ;
    }
}

/// Appends the chunks of a voxel. `tables` holds the counts of the voxels of all
/// levels, the finest first.
fn push_chunks(
    out: &mut Vec<PlannedChunk>,
    tables: &Vec<Vec<u64>>,
    depth: u32,
    target: u64,
    level: u32,
    x: i32,
    y: i32,
    z: i32,
    Ghost(counts): Ghost<Seq<u64>>,
)
    requires
        level <= depth <= 20,
        tables@.len() == depth + 1,
        holds_levels(tables@, counts, depth as nat),
        in_level(level as nat, x as int, y as int, z as int),
    ensures
        final(out)@ == old(out)@ + voxel_chunks(
            counts,
            depth as nat,
            target,
            level as nat,
            x as int,
            y as int,
            z as int,
        ),
    decreases depth - level,
{
    let ghost d = depth as nat;
    let ghost l = level as nat;
    let k: usize = (depth - level) as usize;
    let s: usize = size_of_level(level);
    proof {
        assert(holds_level(tables@[k as int]@, counts, d, (d - k) as nat));
        lemma_flat_index(x as int, y as int, z as int, s as int);
        let t = s as int;
        assert(0 <= y * t && 0 <= z * t && 0 <= z * t * t && z * t <= z * t * t)
            by (nonlinear_arith)
            requires
                t >= 1,
                y >= 0,
                z >= 0,
        ;
        assert(tables[k as int].len() <= usize::MAX);
    }
    let at: usize = x as usize + y as usize * s + z as usize * s * s;
    assert(tables@[k as int]@[flat_index(x as int, y as int, z as int, s as int)] == voxel_count(
        counts,
        d,
        l,
        x as int,
        y as int,
        z as int,
    ));
    let n: u64 = tables[k][at];
    if n == 0 {
        assert(out@ =~= old(out)@ + voxel_chunks(
            counts,
            d,
            target,
            l,
            x as int,
            y as int,
            z as int,
        ));
        return;
    }
    if n <= target || level >= depth {
        out.push(PlannedChunk { level, gx: x, gy: y, gz: z, point_count: n });
        assert(out@ =~= old(out)@ + voxel_chunks(
            counts,
            d,
            target,
            l,
            x as int,
            y as int,
            z as int,
        ));
        return;
    }
    proof {
        lemma_pow2_monotonic(l, 20);
        lemma_pow2_monotonic(20, 30);
        lemma_pow2_values();
    }
    let mut c: i32 = 0;
    let ghost base = out@;
    assert(out@ =~= base + children_chunks(
        counts,
        d,
        target,
        l,
        x as int,
        y as int,
        z as int,
        0,
    ));
    while c < 8
        invariant
            0 <= c <= 8,
            level < depth <= 20,
            d == depth,
            l == level,
            tables@.len() == depth + 1,
            holds_levels(tables@, counts, d),
            in_level(l, x as int, y as int, z as int),
            pow2(l) <= 0x4000_0000,
            out@ == base + children_chunks(
                counts,
                d,
                target,
                l,
                x as int,
                y as int,
                z as int,
                c as nat,
            ),
        decreases 8 - c,
    {
        proof {
            lemma_child_in_level(l, x as int, y as int, z as int, c as int);
        }
        let ghost before = out@;
        push_chunks(
            out,
            tables,
            depth,
            target,
            level + 1,
            2 * x + c % 2,
            2 * y + (c / 2) % 2,
            2 * z + c / 4,
            Ghost(counts),
        );
        assert(out@ =~= base + children_chunks(
            counts,
            d,
            target,
            l,
            x as int,
            y as int,
            z as int,
            (c + 1) as nat,
        ));
        c = c + 1;
    }
}

/// Two to the power `level`.
fn size_of_level(level: u32) -> (s: usize)
    requires
        level <= 20,
    ensures
        s == pow2(level as nat),
        1 <= s <= 0x10_0000,
{
    let mut s: usize = 1;
    let mut i: u32 = 0;
    assert(pow2(20) == 0x10_0000) by {
        reveal_with_fuel(pow2, 21);
    }
    while i < level
        invariant
            i <= level <= 20,
            s == pow2(i as nat),
            pow2(20) == 0x10_0000,
        decreases level - i,
    {
        proof {
            lemma_pow2_monotonic((i + 1) as nat, 20);
        }
        s = s * 2;
        i = i + 1;
    }
    proof {
        lemma_pow2_monotonic(level as nat, 20);
        lemma_pow2_monotonic(0, level as nat);
    }
    s
}

/// Plans the chunks. `counts` holds how many points lie in each cell of a grid
/// of `2^depth` cells per axis, x varying fastest.
pub fn merge_sparse_cells(counts: Vec<u64>, depth: u32, target: u64) -> (chunks: Vec<PlannedChunk>)
    requires
        depth <= 20,
        counts@.len() == pow2(depth as nat) * pow2(depth as nat) * pow2(depth as nat),
        voxel_count(counts@, depth as nat, 0, 0, 0, 0) <= u64::MAX,
    ensures
        chunks@ == voxel_chunks(counts@, depth as nat, target, 0, 0, 0, 0),
{
    let ghost all = counts@;
    let ghost d = depth as nat;
    let n: usize = counts.len();
    let mut tables: Vec<Vec<u64>> = Vec::new();
    let mut finest: Vec<u64> = counts;
    tables.push(finest);
    let mut level: u32 = depth;
    while level > 0
        invariant
            level <= depth <= 20,
            d == depth,
            n == all.len() == pow2(d) * pow2(d) * pow2(d),
            voxel_count(all, d, 0, 0, 0, 0) <= u64::MAX,
            tables@.len() == depth - level + 1,
            holds_levels(tables@, all, d),
        decreases level,
    {
        level = level - 1;
        let s: usize = size_of_level(level);
        let k: usize = (depth - level - 1) as usize;
        proof {
            assert(holds_level(tables@[k as int]@, all, d, (d - k) as nat));
            lemma_pow2_monotonic((level + 1) as nat, d);
            let a = pow2((level + 1) as nat) as int;
            let b = pow2(d) as int;
            let t = s as int;
            assert(a == 2 * t);
            assert(8 * (t * t * t) <= b * b * b) by (nonlinear_arith)
                requires
                    a == 2 * t,
                    0 <= a <= b,
            ;
        }
        let up = coarser(&tables[k], s, Ghost(all), Ghost(d), Ghost(level as nat));
        let ghost before = tables@;
        tables.push(up);
        assert forall|j: int| 0 <= j < tables@.len() implies holds_level(
            (#[trigger] tables@[j])@,
            all,
            d,
            (d - j) as nat,
        ) by {
            if j < before.len() {
                assert(tables@[j] == before[j]);
            }
        }
    }
    let mut chunks: Vec<PlannedChunk> = Vec::new();
    assert(pow2(0) == 1);
    push_chunks(&mut chunks, &tables, depth, target, 0, 0, 0, 0, Ghost(all));
    assert(chunks@ =~= voxel_chunks(all, d, target, 0, 0, 0, 0));
    chunks
}

/// The memory that each chunk takes while it is built.
pub open spec fn build_sizes(chunks: Seq<PlannedChunk>) -> Seq<u128> {
    chunks.map_values(|c: PlannedChunk| (c.point_count * PER_CHUNK_BYTES_PER_POINT) as u128)
}

/// Splits the chunks into batches that are built at the same time: the largest
/// chunks first, as many at a time as fit the memory budget. A chunk that
/// exceeds the budget on its own is a batch of its own.
pub fn chunk_batches(chunks: &Vec<PlannedChunk>, memory_budget: u64) -> (out: Vec<Vec<usize>>)
    ensures
        batch_views(out@) == batches(build_sizes(chunks@), memory_budget),
{
    let mut sizes: Vec<u128> = Vec::new();
    let mut i: usize = 0;
    while i < chunks.len()
        invariant
            i <= chunks@.len(),
            sizes@ =~= build_sizes(chunks@).take(i as int),
            sizes_ok(sizes@),
        decreases chunks@.len() - i,
    {
        let n: u64 = chunks[i].point_count;
        sizes.push(n as u128 * PER_CHUNK_BYTES_PER_POINT as u128);
        i = i + 1;
    }
    assert(sizes@ =~= build_sizes(chunks@));
    split_batches(&sizes, memory_budget)
}

// What holds of the plan.
/// The points of all chunks.
pub open spec fn chunk_total(chunks: Seq<PlannedChunk>) -> nat
    decreases chunks.len(),
{
    if chunks.len() == 0 {
        0
    } else {
        chunk_total(chunks.drop_last()) + chunks.last().point_count as nat
    }
}

/// How many chunks cover a grid cell.
pub open spec fn cover_count(
    chunks: Seq<PlannedChunk>,
    depth: u32,
    x: int,
    y: int,
    z: int,
) -> nat
    decreases chunks.len(),
{
    if chunks.len() == 0 {
        0
    } else {
        cover_count(chunks.drop_last(), depth, x, y, z) + if covers(
            chunks.last(),
            depth,
            x,
            y,
            z,
        ) {
            1nat
        } else {
            0nat
        }
    }
}

proof fn lemma_concat(
    a: Seq<PlannedChunk>,
    b: Seq<PlannedChunk>,
    depth: u32,
    x: int,
    y: int,
    z: int,
)
    ensures
        chunk_total(a + b) == chunk_total(a) + chunk_total(b),
        cover_count(a + b, depth, x, y, z) == cover_count(a, depth, x, y, z) + cover_count(
            b,
            depth,
            x,
            y,
            z,
        ),
    decreases b.len(),
{
    if b.len() == 0 {
        assert(a + b =~= a);
    } else {
        assert((a + b).drop_last() =~= a + b.drop_last());
        lemma_concat(a, b.drop_last(), depth, x, y, z);
    }
}

/// Whether a grid cell lies in a voxel.
spec fn in_voxel(depth: nat, level: nat, vx: int, vy: int, vz: int, x: int, y: int, z: int) -> bool {
    let s = pow2((depth - level) as nat) as int;
    &&& vx * s <= x < vx * s + s
    &&& vy * s <= y < vy * s + s
    &&& vz * s <= z < vz * s + s
}

/// A span is the two halves of it.
proof fn lemma_halves(v: int, s: int, x: int)
    requires
        s > 0,
    ensures
        (v * (2 * s) <= x < v * (2 * s) + 2 * s) <==> ((2 * v) * s <= x < (2 * v) * s + s) || ((2
            * v + 1) * s <= x < (2 * v + 1) * s + s),
        !(((2 * v) * s <= x < (2 * v) * s + s) && ((2 * v + 1) * s <= x < (2 * v + 1) * s + s)),
{
    assert(v * (2 * s) == (2 * v) * s) by (nonlinear_arith);
    assert((2 * v + 1) * s == (2 * v) * s + s) by (nonlinear_arith);
}

/// A grid cell of a voxel lies in exactly one of its children.
proof fn lemma_one_child(
    depth: nat,
    level: nat,
    vx: int,
    vy: int,
    vz: int,
    x: int,
    y: int,
    z: int,
) -> (c: int)
    requires
        level < depth,
    ensures
        0 <= c < 8,
        in_voxel(depth, level, vx, vy, vz, x, y, z) ==> in_voxel(
            depth,
            level + 1,
            2 * vx + child_x(c),
            2 * vy + child_y(c),
            2 * vz + child_z(c),
            x,
            y,
            z,
        ),
        forall|d: int|
            0 <= d < 8 && d != c && in_voxel(depth, level, vx, vy, vz, x, y, z) ==> !(
            #[trigger] in_voxel(
                depth,
                level + 1,
                2 * vx + child_x(d),
                2 * vy + child_y(d),
                2 * vz + child_z(d),
                x,
                y,
                z,
            )),
        forall|d: int|
            0 <= d < 8 && !in_voxel(depth, level, vx, vy, vz, x, y, z) ==> !(#[trigger] in_voxel(
                depth,
                level + 1,
                2 * vx + child_x(d),
                2 * vy + child_y(d),
                2 * vz + child_z(d),
                x,
                y,
                z,
            )),
{
    let s = pow2((depth - level - 1) as nat) as int;
    lemma_pow2_monotonic(0, (depth - level - 1) as nat);
    assert(pow2((depth - level) as nat) == 2 * s);
    lemma_halves(vx, s, x);
    lemma_halves(vy, s, y);
    lemma_halves(vz, s, z);
    let cx: int = if (2 * vx) * s <= x < (2 * vx) * s + s {
        0
    } else {
        1
    };
    let cy: int = if (2 * vy) * s <= y < (2 * vy) * s + s {
        0
    } else {
        1
    };
    let cz: int = if (2 * vz) * s <= z < (2 * vz) * s + s {
        0
    } else {
        1
    };
    let c = cx + 2 * cy + 4 * cz;
    assert(child_x(c) == cx && child_y(c) == cy && child_z(c) == cz);
    assert forall|d: int|
        0 <= d < 8 && d != c && in_voxel(depth, level, vx, vy, vz, x, y, z) implies !(
    #[trigger] in_voxel(
        depth,
        level + 1,
        2 * vx + child_x(d),
        2 * vy + child_y(d),
        2 * vz + child_z(d),
        x,
        y,
        z,
    )) by {
        assert(child_x(d) != cx || child_y(d) != cy || child_z(d) != cz);
    }
    c
}

/// What the plan of one voxel satisfies.
proof fn lemma_voxel_chunks(
    counts: Seq<u64>,
    depth: u32,
    target: u64,
    level: nat,
    vx: int,
    vy: int,
    vz: int,
    x: int,
    y: int,
    z: int,
)
    requires
        level <= depth <= 20,
        in_level(level, vx, vy, vz),
        in_level(depth as nat, x, y, z),
        voxel_count(counts, depth as nat, 0, 0, 0, 0) <= u64::MAX,
    ensures
        ({
            let chunks = voxel_chunks(counts, depth as nat, target, level, vx, vy, vz);
            let inside = in_voxel(depth as nat, level, vx, vy, vz, x, y, z);
            &&& chunk_total(chunks) == voxel_count(counts, depth as nat, level, vx, vy, vz)
            &&& !inside ==> cover_count(chunks, depth, x, y, z) == 0
            &&& cover_count(chunks, depth, x, y, z) <= 1
            &&& inside && counts[flat_index(x, y, z, pow2(depth as nat) as int)] > 0
                ==> cover_count(chunks, depth, x, y, z) == 1
            &&& forall|i: int|
                0 <= i < chunks.len() ==> {
                    &&& chunk_fits(#[trigger] chunks[i], depth)
                    &&& in_level(
                        chunks[i].level as nat,
                        chunks[i].gx as int,
                        chunks[i].gy as int,
                        chunks[i].gz as int,
                    )
                    &&& chunks[i].point_count > 0
                    &&& chunks[i].point_count <= target || chunks[i].level == depth
                }
        }),
    decreases depth - level, 9nat,
{
    let d = depth as nat;
    let n = voxel_count(counts, d, level, vx, vy, vz);
    let chunks = voxel_chunks(counts, d, target, level, vx, vy, vz);
    lemma_count_bound(counts, d, level, vx, vy, vz);
    lemma_pow2_monotonic(level, 30);
    lemma_pow2_values();
    if n == 0 {
        if in_voxel(d, level, vx, vy, vz, x, y, z) {
            lemma_cell_in_voxel(counts, d, level, vx, vy, vz, x, y, z);
        }
    } else if n <= target || level >= depth {
        let c = chunks[0];
        assert(chunks.drop_last() =~= Seq::<PlannedChunk>::empty());
        assert(cover_count(chunks.drop_last(), depth, x, y, z) == 0);
        assert(chunk_total(chunks.drop_last()) == 0);
        assert(stride_of(c, depth) == pow2((d - level) as nat));
        assert(covers(c, depth, x, y, z) <==> in_voxel(d, level, vx, vy, vz, x, y, z));
    } else {
        lemma_children_chunks(counts, depth, target, level, vx, vy, vz, x, y, z, 8);
        let one = lemma_one_child(d, level, vx, vy, vz, x, y, z);
    }
}

/// What the plan of the first `n` children of a voxel satisfies.
proof fn lemma_children_chunks(
    counts: Seq<u64>,
    depth: u32,
    target: u64,
    level: nat,
    vx: int,
    vy: int,
    vz: int,
    x: int,
    y: int,
    z: int,
    n: nat,
)
    requires
        level < depth <= 20,
        n <= 8,
        in_level(level, vx, vy, vz),
        in_level(depth as nat, x, y, z),
        voxel_count(counts, depth as nat, 0, 0, 0, 0) <= u64::MAX,
    ensures
        ({
            let chunks = children_chunks(counts, depth as nat, target, level, vx, vy, vz, n);
            let inside = in_voxel(depth as nat, level, vx, vy, vz, x, y, z);
            let full = counts[flat_index(x, y, z, pow2(depth as nat) as int)] > 0;
            &&& chunk_total(chunks) == children_count(
                counts,
                depth as nat,
                level,
                vx,
                vy,
                vz,
                n,
            )
            &&& !inside ==> cover_count(chunks, depth, x, y, z) == 0
            &&& inside ==> cover_count(chunks, depth, x, y, z) <= (if one_child(
                depth as nat,
                level,
                vx,
                vy,
                vz,
                x,
                y,
                z,
            ) < n {
                1nat
            } else {
                0nat
            })
            &&& inside && full && n == 8 ==> cover_count(chunks, depth, x, y, z) == 1
            &&& inside && full ==> cover_count(chunks, depth, x, y, z) == (if one_child(
                depth as nat,
                level,
                vx,
                vy,
                vz,
                x,
                y,
                z,
            ) < n {
                1nat
            } else {
                0nat
            })
            &&& forall|i: int|
                0 <= i < chunks.len() ==> {
                    &&& chunk_fits(#[trigger] chunks[i], depth)
                    &&& in_level(
                        chunks[i].level as nat,
                        chunks[i].gx as int,
                        chunks[i].gy as int,
                        chunks[i].gz as int,
                    )
                    &&& chunks[i].point_count > 0
                    &&& chunks[i].point_count <= target || chunks[i].level == depth
                }
        }),
    decreases depth - level, n,
{
    let d = depth as nat;
    let chunks = children_chunks(counts, d, target, level, vx, vy, vz, n);
    let w = lemma_one_child(d, level, vx, vy, vz, x, y, z);
    let inside = in_voxel(d, level, vx, vy, vz, x, y, z);
    if inside {
        assert(is_child_of(d, level, vx, vy, vz, x, y, z, w));
        let k = one_child(d, level, vx, vy, vz, x, y, z);
        assert(is_child_of(d, level, vx, vy, vz, x, y, z, k));
        assert(k == w);
    }
    if n > 0 {
        let m = (n - 1) as nat;
        let c = n - 1;
        lemma_children_chunks(counts, depth, target, level, vx, vy, vz, x, y, z, m);
        lemma_child_in_level(level, vx, vy, vz, c);
        lemma_voxel_chunks(
            counts,
            depth,
            target,
            level + 1,
            2 * vx + child_x(c),
            2 * vy + child_y(c),
            2 * vz + child_z(c),
            x,
            y,
            z,
        );
        let a = children_chunks(counts, d, target, level, vx, vy, vz, m);
        let b = voxel_chunks(
            counts,
            d,
            target,
            level + 1,
            2 * vx + child_x(c),
            2 * vy + child_y(c),
            2 * vz + child_z(c),
        );
        assert(chunks =~= a + b);
        lemma_concat(a, b, depth, x, y, z);
        assert forall|i: int| 0 <= i < chunks.len() implies {
            &&& chunk_fits(#[trigger] chunks[i], depth)
            &&& in_level(
                chunks[i].level as nat,
                chunks[i].gx as int,
                chunks[i].gy as int,
                chunks[i].gz as int,
            )
            &&& chunks[i].point_count > 0
            &&& chunks[i].point_count <= target || chunks[i].level == depth
        } by {
            if i < a.len() {
                assert(chunks[i] == a[i]);
            } else {
                assert(chunks[i] == b[i - a.len()]);
            }
        }
    }
}

/// Whether a grid cell lies in child `c` of a voxel.
spec fn is_child_of(
    depth: nat,
    level: nat,
    vx: int,
    vy: int,
    vz: int,
    x: int,
    y: int,
    z: int,
    c: int,
) -> bool {
    0 <= c < 8 && in_voxel(
        depth,
        level + 1,
        2 * vx + child_x(c),
        2 * vy + child_y(c),
        2 * vz + child_z(c),
        x,
        y,
        z,
    )
}

/// The child of a voxel that a grid cell lies in.
spec fn one_child(
    depth: nat,
    level: nat,
    vx: int,
    vy: int,
    vz: int,
    x: int,
    y: int,
    z: int,
) -> int {
    choose|c: int| is_child_of(depth, level, vx, vy, vz, x, y, z, c)
}

/// A voxel holds no fewer points than each of its grid cells.
proof fn lemma_cell_in_voxel(
    counts: Seq<u64>,
    depth: nat,
    level: nat,
    vx: int,
    vy: int,
    vz: int,
    x: int,
    y: int,
    z: int,
)
    requires
        level <= depth,
        in_voxel(depth, level, vx, vy, vz, x, y, z),
    ensures
        counts[flat_index(x, y, z, pow2(depth) as int)] <= voxel_count(
            counts,
            depth,
            level,
            vx,
            vy,
            vz,
        ),
    decreases depth - level,
{
    if level < depth {
        let c = lemma_one_child(depth, level, vx, vy, vz, x, y, z);
        lemma_cell_in_voxel(
            counts,
            depth,
            level + 1,
            2 * vx + child_x(c),
            2 * vy + child_y(c),
            2 * vz + child_z(c),
            x,
            y,
            z,
        );
        lemma_child_count(counts, depth, level, vx, vy, vz, c, 8);
    } else {
        assert(pow2(0) == 1);
        assert(vx * 1 == vx && vy * 1 == vy && vz * 1 == vz);
    }
}

/// The chunks of a plan hold all points, each cell that has points lies in
/// exactly one chunk, no cell lies in two, and no chunk holds more points than
/// the target unless it is a single cell.
pub proof fn law_plan(counts: Seq<u64>, depth: u32, target: u64, x: int, y: int, z: int)
    requires
        depth <= 20,
        voxel_count(counts, depth as nat, 0, 0, 0, 0) <= u64::MAX,
        0 <= x < pow2(depth as nat),
        0 <= y < pow2(depth as nat),
        0 <= z < pow2(depth as nat),
    ensures
        ({
            let chunks = voxel_chunks(counts, depth as nat, target, 0, 0, 0, 0);
            &&& chunk_total(chunks) == voxel_count(counts, depth as nat, 0, 0, 0, 0)
            &&& cover_count(chunks, depth, x, y, z) <= 1
            &&& counts[flat_index(x, y, z, pow2(depth as nat) as int)] > 0 ==> cover_count(
                chunks,
                depth,
                x,
                y,
                z,
            ) == 1
            &&& forall|i: int|
                0 <= i < chunks.len() ==> {
                    &&& chunk_fits(#[trigger] chunks[i], depth)
                    &&& in_level(
                        chunks[i].level as nat,
                        chunks[i].gx as int,
                        chunks[i].gy as int,
                        chunks[i].gz as int,
                    )
                    &&& chunks[i].point_count > 0
                    &&& chunks[i].point_count <= target || chunks[i].level == depth
                }
        }),
{
    assert(pow2(0) == 1);
    let s = pow2(depth as nat) as int;
    assert(0 * s == 0) by (nonlinear_arith);
    lemma_voxel_chunks(counts, depth, target, 0, 0, 0, 0, x, y, z);
}

/// Two chunks that cover the same cell are counted twice.
proof fn lemma_two_cover(
    chunks: Seq<PlannedChunk>,
    depth: u32,
    x: int,
    y: int,
    z: int,
    i: int,
    j: int,
)
    requires
        0 <= i < j < chunks.len(),
        covers(chunks[i], depth, x, y, z),
        covers(chunks[j], depth, x, y, z),
    ensures
        cover_count(chunks, depth, x, y, z) >= 2,
    decreases chunks.len(),
{
    let init = chunks.drop_last();
    if j < chunks.len() - 1 {
        assert(init[i] == chunks[i] && init[j] == chunks[j]);
        lemma_two_cover(init, depth, x, y, z, i, j);
    } else {
        assert(init[i] == chunks[i]);
        lemma_one_cover(init, depth, x, y, z, i);
    }
}

proof fn lemma_one_cover(
    chunks: Seq<PlannedChunk>,
    depth: u32,
    x: int,
    y: int,
    z: int,
    i: int,
)
    requires
        0 <= i < chunks.len(),
        covers(chunks[i], depth, x, y, z),
    ensures
        cover_count(chunks, depth, x, y, z) >= 1,
    decreases chunks.len(),
{
    if i < chunks.len() - 1 {
        assert(chunks.drop_last()[i] == chunks[i]);
        lemma_one_cover(chunks.drop_last(), depth, x, y, z, i);
    }
}

/// No chunk lies in the voxel of another one.
pub open spec fn apart(chunks: Seq<PlannedChunk>) -> bool {
    forall|i: int, j: int|
        0 <= i < chunks.len() && 0 <= j < chunks.len() && i != j && chunks[i].level
            <= chunks[j].level ==> ancestor(
            #[trigger] chunk_root(chunks[j]),
            chunks[i].level as int,
        ) != #[trigger] chunk_root(chunks[i])
}

/// No chunk of a plan lies in the voxel of another one.
pub proof fn law_plan_apart(counts: Seq<u64>, depth: u32, target: u64)
    requires
        depth <= 20,
        voxel_count(counts, depth as nat, 0, 0, 0, 0) <= u64::MAX,
    ensures
        apart(voxel_chunks(counts, depth as nat, target, 0, 0, 0, 0)),
{
    let chunks = voxel_chunks(counts, depth as nat, target, 0, 0, 0, 0);
    assert forall|i: int, j: int|
        0 <= i < chunks.len() && 0 <= j < chunks.len() && i != j && chunks[i].level
            <= chunks[j].level implies ancestor(
        #[trigger] chunk_root(chunks[j]),
        chunks[i].level as int,
    ) != #[trigger] chunk_root(chunks[i]) by {
        lemma_pow2_monotonic(0, depth as nat);
        law_plan(counts, depth, target, 0, 0, 0);
        let (a, b) = (chunks[i], chunks[j]);
        assert(chunk_fits(chunks[i], depth) && chunk_fits(chunks[j], depth));
        let s = stride_of(b, depth) as int;
        let (x, y, z) = (b.gx * s, b.gy * s, b.gz * s);
        lemma_corner(b.gx as int, b.level as nat, depth as nat);
        lemma_corner(b.gy as int, b.level as nat, depth as nat);
        lemma_corner(b.gz as int, b.level as nat, depth as nat);
        let cell = VoxelKey { level: depth as i32, x: x as i32, y: y as i32, z: z as i32 };
        law_plan(counts, depth, target, x, y, z);
        if ancestor(chunk_root(b), a.level as int) == chunk_root(a) {
            law_covers_is_ancestor(b, depth, cell);
            law_covers_is_ancestor(a, depth, cell);
            law_ancestor_of_ancestor(cell, b.level as int, a.level as int);
            if i < j {
                lemma_two_cover(chunks, depth, x, y, z, i, j);
            } else {
                lemma_two_cover(chunks, depth, x, y, z, j, i);
            }
        }
    }
}

/// The lowest cell of a chunk lies in the grid.
proof fn lemma_corner(g: int, level: nat, depth: nat)
    requires
        level <= depth <= 20,
        0 <= g < pow2(level),
    ensures
        0 < pow2((depth - level) as nat),
        0 <= g * pow2((depth - level) as nat) < pow2(depth) <= i32::MAX,
{
    let s = pow2((depth - level) as nat);
    lemma_pow2_monotonic(0, (depth - level) as nat);
    lemma_pow2_monotonic(depth, 30);
    lemma_pow2_values();
    lemma_pow2_product(level, (depth - level) as nat);
    assert(0 <= g * s && g * s < pow2(level) * s) by (nonlinear_arith)
        requires
            0 <= g < pow2(level),
            0 < s,
    ;
}

proof fn lemma_pow2_product(a: nat, b: nat)
    ensures
        pow2(a) * pow2(b) == pow2(a + b),
    decreases a,
{
    if a > 0 {
        lemma_pow2_product((a - 1) as nat, b);
        assert(2 * pow2((a - 1) as nat) * pow2(b) == 2 * (pow2((a - 1) as nat) * pow2(b)))
            by (nonlinear_arith);
    } else {
        assert(1 * pow2(b) == pow2(b));
    }
}

proof fn lemma_covered_has_owner(plan: ChunkPlan, n: nat, x: int, y: int, z: int)
    requires
        n <= plan.chunks@.len() <= u32::MAX,
        cover_count(plan.chunks@.take(n as int), plan.grid_depth, x, y, z) > 0,
    ensures
        owner(plan, n, x, y, z) < n,
    decreases n,
{
    let now = plan.chunks@.take(n as int);
    if n > 0 {
        assert(now.drop_last() =~= plan.chunks@.take(n - 1));
        assert(now.last() == plan.chunks@[n - 1]);
        if !covers(plan.chunks@[n - 1], plan.grid_depth, x, y, z) {
            lemma_covered_has_owner(plan, (n - 1) as nat, x, y, z);
        }
    }
}

/// A point that was counted has a chunk to go to.
pub proof fn law_counted_cell_has_chunk(
    counts: Seq<u64>,
    target: u64,
    plan: ChunkPlan,
    x: int,
    y: int,
    z: int,
)
    requires
        plan.grid_depth <= 20,
        plan.chunks@.len() <= u32::MAX,
        plan.chunks@ == voxel_chunks(counts, plan.grid_depth as nat, target, 0, 0, 0, 0),
        voxel_count(counts, plan.grid_depth as nat, 0, 0, 0, 0) <= u64::MAX,
        in_level(plan.grid_depth as nat, x, y, z),
        counts[flat_index(x, y, z, pow2(plan.grid_depth as nat) as int)] > 0,
    ensures
        owner(plan, plan.chunks@.len(), x, y, z) < plan.chunks@.len(),
{
    let n = plan.chunks@.len();
    law_plan(counts, plan.grid_depth, target, x, y, z);
    assert(plan.chunks@.take(n as int) =~= plan.chunks@);
    lemma_covered_has_owner(plan, n, x, y, z);
}

} // verus!
