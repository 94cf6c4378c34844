use copc_converter::chunking::{build_chunk_lut, cell_of_key, chunk_of_key};
use copc_converter::distribute::distribute_batch;
use copc_converter::key::VoxelKey;
use copc_converter::leaves::{chunk_local_extra_levels, MAX_LEAF_POINTS};
use copc_converter::planner::{
    chunk_batches, compute_chunk_target, merge_sparse_cells, select_grid_depth, select_grid_size,
};
use copc_converter::point::RawPoint;
use copc_converter::report::chunk_stats;
use copc_converter::temp::{read_temp_batches, write_temp_batch};
use copc_converter::{ChunkPlan, PlannedChunk, TempCompression};

fn make_plan(grid_size: u32, chunks: Vec<PlannedChunk>) -> ChunkPlan {
    let total_points = chunks.iter().map(|c| c.point_count).sum();
    ChunkPlan {
        grid_size,
        grid_depth: grid_size.trailing_zeros(),
        chunk_target: 1_000_000,
        total_points,
        chunks,
        header_mismatch: None,
    }
}

#[test]
fn build_chunk_lut_single_root_chunk() {
    let plan = make_plan(
        4,
        vec![PlannedChunk { level: 0, gx: 0, gy: 0, gz: 0, point_count: 100 }],
    );
    let lut = build_chunk_lut(&plan);
    assert_eq!(lut.len(), 64);
    assert!(lut.iter().all(|&c| c == 0));
}

#[test]
fn build_chunk_lut_eight_finest_chunks() {
    let chunks: Vec<PlannedChunk> = (0i32..8)
        .map(|i| PlannedChunk {
            level: 1,
            gx: i % 2,
            gy: (i / 2) % 2,
            gz: i / 4,
            point_count: 10,
        })
        .collect();
    let plan = make_plan(2, chunks);
    let lut = build_chunk_lut(&plan);
    assert_eq!(lut.len(), 8);
    let mut seen: std::collections::HashSet<u32> = std::collections::HashSet::new();
    for &c in &lut {
        assert!(c < 8, "got out-of-range chunk idx {c}");
        seen.insert(c);
    }
    assert_eq!(seen.len(), 8);
}

#[test]
fn build_chunk_lut_mixed_levels() {
    let plan = make_plan(
        4,
        vec![
            PlannedChunk { level: 1, gx: 0, gy: 0, gz: 0, point_count: 50 },
            PlannedChunk { level: 2, gx: 3, gy: 3, gz: 3, point_count: 5 },
        ],
    );
    let lut = build_chunk_lut(&plan);
    assert_eq!(lut.len(), 64);
    for z in 0..2 {
        for y in 0..2 {
            for x in 0..2 {
                let idx = x + y * 4 + z * 16;
                assert_eq!(lut[idx], 0, "cell ({x},{y},{z}) should map to chunk 0");
            }
        }
    }
    assert_eq!(lut[3 + 3 * 4 + 3 * 16], 1);
    let uncovered = lut.iter().filter(|&&c| c == u32::MAX).count();
    assert_eq!(uncovered, 55);
}

#[test]
fn chunk_local_extra_levels_basic() {
    assert_eq!(chunk_local_extra_levels(0), 0);
    assert_eq!(chunk_local_extra_levels(1), 0);
    assert_eq!(chunk_local_extra_levels(MAX_LEAF_POINTS), 0);
    assert_eq!(chunk_local_extra_levels(MAX_LEAF_POINTS + 1), 1);
    assert_eq!(chunk_local_extra_levels(8 * MAX_LEAF_POINTS), 1);
    assert_eq!(chunk_local_extra_levels(8 * MAX_LEAF_POINTS + 1), 2);
    assert_eq!(chunk_local_extra_levels(36_000_000), 3);
    assert_eq!(chunk_local_extra_levels(100_000_000), 4);
}

#[test]
fn build_chunk_lut_chunk_at_corner() {
    let plan = make_plan(
        8,
        vec![PlannedChunk { level: 2, gx: 3, gy: 3, gz: 3, point_count: 10 }],
    );
    let lut = build_chunk_lut(&plan);
    assert_eq!(lut.len(), 512);
    let g = 8;
    for z in 6..8 {
        for y in 6..8 {
            for x in 6..8 {
                let idx = x + y * g + z * g * g;
                assert_eq!(lut[idx], 0, "cell ({x},{y},{z}) should be in the chunk");
            }
        }
    }
    let in_chunk = lut.iter().filter(|&&c| c == 0).count();
    assert_eq!(in_chunk, 8);
}

#[test]
fn chunk_of_key_finds_the_covering_chunk() {
    let plan = make_plan(
        4,
        vec![
            PlannedChunk { level: 1, gx: 0, gy: 0, gz: 0, point_count: 50 },
            PlannedChunk { level: 2, gx: 3, gy: 3, gz: 3, point_count: 5 },
        ],
    );
    let lut = build_chunk_lut(&plan);
    let at = |x, y, z| chunk_of_key(&lut, 4, &VoxelKey { level: 2, x, y, z });
    assert_eq!(at(1, 0, 1), 0);
    assert_eq!(at(3, 3, 3), 1);
    assert_eq!(at(2, 0, 0), u32::MAX);
    assert_eq!(at(9, 9, 9), 1);
    assert_eq!(cell_of_key(4, &VoxelKey { level: 2, x: 1, y: 2, z: 3 }), 1 + 2 * 4 + 3 * 16);
}

#[test]
fn batch_is_distributed_by_grid_cell() {
    let plan = make_plan(
        2,
        vec![
            PlannedChunk { level: 1, gx: 0, gy: 0, gz: 0, point_count: 2 },
            PlannedChunk { level: 1, gx: 1, gy: 1, gz: 1, point_count: 1 },
        ],
    );
    let lut = build_chunk_lut(&plan);
    let key = |v: i32| VoxelKey { level: 1, x: v, y: v, z: v };
    let point = |x: i32| RawPoint {
        x,
        y: 0,
        z: 0,
        intensity: 0,
        return_number: 1,
        number_of_returns: 1,
        classification: 0,
        scan_angle: 0,
        user_data: 0,
        point_source_id: 0,
        gps_time: 0,
        red: 0,
        green: 0,
        blue: 0,
        nir: 0,
        extras: Vec::new(),
    };
    let keys = vec![key(0), key(1), key(0)];
    let points = vec![point(10), point(11), point(12)];
    let mut shown: Vec<(u32, Vec<i32>)> = distribute_batch(&lut, 2, &keys, &points)
        .iter()
        .map(|g| (g.chunk, g.points.iter().map(|p| p.x).collect()))
        .collect();
    shown.sort();
    assert_eq!(shown, vec![(0, vec![10, 12]), (1, vec![11])]);

    // Two workers write the chunk files; joined, these hold every point.
    for codec in [TempCompression::Uncompressed, TempCompression::Lz4] {
        let mut files = vec![Vec::new(); 2];
        for batch in [vec![0, 1, 2], vec![2, 0]] {
            let keys: Vec<VoxelKey> = batch.iter().map(|&i: &usize| keys[i]).collect();
            let points: Vec<RawPoint> = batch.iter().map(|&i| points[i].clone()).collect();
            for g in distribute_batch(&lut, 2, &keys, &points) {
                let mut shard = Vec::new();
                write_temp_batch(&mut shard, &g.points, 0, codec);
                files[g.chunk as usize].extend(shard);
            }
        }
        let held: Vec<Vec<i32>> = files
            .iter()
            .map(|f| read_temp_batches(f, 0, codec).unwrap().iter().map(|p| p.x).collect())
            .collect();
        assert_eq!(held, vec![vec![10, 12, 12, 10], vec![11]]);
    }
}

#[test]
fn sparse_cells_merge_up_to_the_target() {
    let counts = vec![1u64, 2, 3, 4, 5, 6, 7, 8];
    let chunks = merge_sparse_cells(counts.clone(), 1, 100);
    assert_eq!(
        chunks,
        vec![PlannedChunk { level: 0, gx: 0, gy: 0, gz: 0, point_count: 36 }]
    );
    let chunks = merge_sparse_cells(counts, 1, 20);
    assert_eq!(chunks.len(), 8);
    let sum: u64 = chunks.iter().map(|c| c.point_count).sum();
    assert_eq!(sum, 36);
    for c in &chunks {
        let cell = c.gx + 2 * c.gy + 4 * c.gz;
        assert_eq!((c.level, c.point_count), (1, cell as u64 + 1));
    }
}

#[test]
fn plan_covers_each_filled_cell_once() {
    let mut counts = vec![0u64; 64];
    counts[0] = 5;
    counts[1] = 6;
    counts[63] = 50;
    counts[42] = 3;
    let chunks = merge_sparse_cells(counts.clone(), 2, 20);
    let sum: u64 = chunks.iter().map(|c| c.point_count).sum();
    assert_eq!(sum, 64);
    let plan = make_plan(4, chunks);
    let lut = build_chunk_lut(&plan);
    for (i, &n) in counts.iter().enumerate() {
        if n > 0 {
            assert!((lut[i] as usize) < plan.chunks.len());
        }
    }
    assert_eq!(lut[0], lut[1]);
    assert_eq!(plan.chunks[lut[0] as usize].level, 1);
    assert_eq!(plan.chunks[lut[0] as usize].point_count, 11);
    assert_eq!(plan.chunks[lut[63] as usize].level, 2);
    assert_eq!(plan.chunks[lut[63] as usize].point_count, 50);
}

#[test]
fn chunk_target_shares_the_budget_among_workers() {
    assert_eq!(compute_chunk_target(16_000_000_000, 4), 6_666_666);
    assert_eq!(compute_chunk_target(1_000_000, 4), 1_000_000);
}

#[test]
fn grid_size_is_a_power_of_two() {
    for (points, budget) in [(0, 1 << 34), (1_000_000, 1 << 34), (u64::MAX, u64::MAX)] {
        let size = select_grid_size(points, budget);
        assert_eq!(size, 1 << select_grid_depth(points, budget));
        assert!(size == 128 || size == 256 || size == 512);
    }
    assert_eq!(select_grid_size(0, 1 << 34), 128);
}

#[test]
fn largest_chunks_are_built_first_within_the_budget() {
    let chunk = |n: u64| PlannedChunk { level: 0, gx: 0, gy: 0, gz: 0, point_count: n };
    let chunks = vec![chunk(10), chunk(30), chunk(20), chunk(100)];
    assert_eq!(chunk_batches(&chunks, 600 * 50), vec![vec![3], vec![1, 2], vec![0]]);
    assert_eq!(chunk_batches(&chunks, 600 * 160), vec![vec![3, 1, 2, 0]]);
}

#[test]
fn chunk_stats_counts_sizes_and_levels() {
    let chunk = |level: u32, n: u64| PlannedChunk { level, gx: 0, gy: 0, gz: 0, point_count: n };
    let mut plan = make_plan(
        4,
        vec![chunk(1, 2_500_000), chunk(2, 0), chunk(2, 50_000), chunk(2, 1_200_000)],
    );
    let s = chunk_stats(&plan).unwrap();
    assert_eq!(s.sizes, vec![0, 50_000, 1_200_000, 2_500_000]);
    assert_eq!(s.total, 3_750_000);
    assert_eq!(s.mean, 937_500);
    assert_eq!((s.above_target, s.above_2x, s.below_10pct, s.zero), (2, 1, 2, 1));
    assert_eq!(s.levels.len(), 2);
    plan.chunks.clear();
    assert!(chunk_stats(&plan).is_none());
}
