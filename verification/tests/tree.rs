use copc_converter::assembly::merge_writes;
use copc_converter::batches::{split_batches, split_in_order};
use copc_converter::chunk_build::{build_chunk_in_memory, chunk_key_depth};
use copc_converter::chunking::{build_chunk_lut, cell_of_key};
use copc_converter::distribute::distribute_batch;
use copc_converter::key::{ancestor_at_level, key_id, point_to_key, Octant, VoxelKey};
use copc_converter::leaves::{classify, subdivide};
use copc_converter::merge::{
    merge_mem_per_point, merge_schedule, plan_merge_level, select_level, unique_keys,
    MergeOverBudget, MergeTask,
};
use copc_converter::morton::morton3;
use copc_converter::node_map::assemble_node_list;
use copc_converter::octree::{bottom_up_levels, sample_level, Node};
use copc_converter::planner::merge_sparse_cells;
use copc_converter::point::RawPoint;
use copc_converter::sampling::{grid_sample, sample_children, VoxelGrid};
use copc_converter::sorting::sorted_order;
use copc_converter::temp::{read_temp_batches, write_temp_batch};
use copc_converter::tree_build::{BuildAction, TreeBuild};
use copc_converter::{ChunkPlan, PlannedChunk, TempCompression};

fn key(level: i32, x: i32, y: i32, z: i32) -> VoxelKey {
    VoxelKey { level, x, y, z }
}

fn point(x: i32, y: i32, z: i32) -> RawPoint {
    RawPoint {
        x,
        y,
        z,
        intensity: 0,
        return_number: 1,
        number_of_returns: 1,
        classification: 0,
        scan_angle: 0,
        user_data: 0,
        point_source_id: 0,
        gps_time: 0,
        red: 0,
        green: 0,
        blue: 0,
        nir: 0,
        extras: Vec::new(),
    }
}

fn xs(points: &[RawPoint]) -> Vec<i32> {
    let mut v: Vec<i32> = points.iter().map(|p| p.x).collect();
    v.sort();
    v
}

/// The root voxel has edges of 1024 units.
fn geometry(k: VoxelKey) -> VoxelGrid {
    let size = 1024i64 >> k.level;
    VoxelGrid::new(k.x as i64 * size, k.y as i64 * size, k.z as i64 * size, size)
}

/// The voxel of a point at a level.
fn voxel_of(p: &RawPoint, level: i32) -> VoxelKey {
    let size = 1024i32 >> level;
    key(level, p.x / size, p.y / size, p.z / size)
}

#[test]
fn parents_halve_the_coordinates() {
    assert_eq!(VoxelKey::root(), key(0, 0, 0, 0));
    assert_eq!(VoxelKey::root().parent(), None);
    assert_eq!(key(3, 5, 6, 7).parent(), Some(key(2, 2, 3, 3)));
}

#[test]
fn keys_are_ordered_by_level_first() {
    assert!(key(1, 9, 9, 9).precedes(&key(2, 0, 0, 0)));
    assert!(key(2, 0, 1, 0).precedes(&key(2, 0, 1, 1)));
    assert!(!key(2, 0, 1, 1).precedes(&key(2, 0, 1, 1)));
    assert!(!key(2, 1, 0, 0).precedes(&key(2, 0, 9, 9)));
}

#[test]
fn ancestors_of_ancestors() {
    let k = key(6, 45, 17, 63);
    assert_eq!(ancestor_at_level(k, 6), k);
    assert_eq!(ancestor_at_level(k, 3), key(3, 5, 2, 7));
    assert_eq!(ancestor_at_level(ancestor_at_level(k, 4), 2), ancestor_at_level(k, 2));
    assert_eq!(ancestor_at_level(k, 0), VoxelKey::root());
}

#[test]
fn octants_lead_to_a_voxel() {
    let o = |x, y, z| Octant { x, y, z };
    assert_eq!(point_to_key(&[]), VoxelKey::root());
    let path = [o(true, false, false), o(true, true, false), o(false, true, true)];
    assert_eq!(point_to_key(&path), key(3, 6, 3, 1));
    assert_eq!(point_to_key(&path[..2]), ancestor_at_level(point_to_key(&path), 2));
}

#[test]
fn key_ids_tell_keys_apart() {
    let keys = [key(0, 0, 0, 0), key(1, 0, 0, 0), key(1, 1, 0, 0), key(1, 0, 1, 0), key(1, 0, 0, 1)];
    for (i, a) in keys.iter().enumerate() {
        for (j, b) in keys.iter().enumerate() {
            assert_eq!(key_id(*a) == key_id(*b), i == j);
        }
    }
}

#[test]
fn morton_codes_interleave_bits() {
    assert_eq!(morton3(1, 0, 0), 1);
    assert_eq!(morton3(0, 1, 0), 2);
    assert_eq!(morton3(0, 0, 1), 4);
    assert_eq!(morton3(3, 5, 1), 0b010_001_111);
    assert_eq!(morton3(0x1F_FFFF, 0x1F_FFFF, 0x1F_FFFF), 0x7FFF_FFFF_FFFF_FFFF);
}

#[test]
fn equal_codes_keep_their_order() {
    assert_eq!(sorted_order(&[5, 3, 5, 1]), vec![3, 1, 0, 2]);
    assert_eq!(sorted_order(&[]), Vec::<usize>::new());
}

#[test]
fn grid_has_128_cells_per_axis() {
    let g = VoxelGrid::new(10, 20, 30, 1280);
    assert_eq!(g.cell, 10);
    assert_eq!(VoxelGrid::new(0, 0, 0, 200).cell, 1);
    assert_eq!(VoxelGrid::new(0, 0, 0, 256).cell, 2);
    assert_eq!(g.grid_key(&point(10, 29, 30)), (0, 0, 0));
    assert_eq!(g.grid_key(&point(20, 39, 55)), (1, 1, 2));
    assert_eq!(g.grid_key(&point(-5, 20, 30)), (-1, 0, 0));
    assert_eq!(g.morton(&point(11, 20, 31)), 5);
    assert_eq!(g.morton(&point(-11, 0, 31)), 4);
}

#[test]
fn parent_takes_one_point_per_cell() {
    let g = VoxelGrid::new(0, 0, 0, 1280);
    let children = vec![
        vec![point(2, 0, 0), point(1, 0, 0), point(12, 0, 0)],
        vec![point(15, 0, 0), point(25, 0, 0)],
    ];
    let (parent, rest) = sample_children(&g, &children);
    assert_eq!(xs(&parent), vec![1, 12, 25]);
    assert_eq!(xs(&rest[0]), vec![2]);
    assert_eq!(xs(&rest[1]), vec![15]);
}

#[test]
fn sampling_keeps_each_child_its_own_points() {
    let g = VoxelGrid::new(0, 0, 0, 1280);
    let tagged = vec![(2usize, point(1, 0, 0)), (0, point(2, 0, 0)), (2, point(3, 0, 0))];
    let (parent, rest) = grid_sample(&g, &tagged, 3);
    assert_eq!(xs(&parent), vec![1]);
    assert_eq!(rest.len(), 3);
    assert_eq!(xs(&rest[0]), vec![2]);
    assert!(rest[1].is_empty());
    assert_eq!(xs(&rest[2]), vec![3]);
}

#[test]
fn one_level_makes_the_parents_of_the_level_below() {
    let nodes = vec![
        Node { key: key(2, 0, 0, 0), points: vec![point(1, 1, 1), point(2, 1, 1)] },
        Node { key: key(2, 1, 0, 0), points: vec![point(300, 1, 1), point(301, 1, 1)] },
        Node { key: key(2, 3, 0, 0), points: vec![point(900, 1, 1), point(901, 1, 1)] },
    ];
    let out = sample_level(nodes, 1, &geometry);
    let find = |k: VoxelKey| out.iter().find(|n| n.key == k).unwrap();
    assert_eq!(xs(&find(key(1, 0, 0, 0)).points), vec![1, 300]);
    assert_eq!(xs(&find(key(2, 1, 0, 0)).points), vec![301]);
    assert_eq!(xs(&find(key(1, 1, 0, 0)).points), vec![900]);
    assert_eq!(xs(&find(key(2, 3, 0, 0)).points), vec![901]);
    let total: usize = out.iter().map(|n| n.points.len()).sum();
    assert_eq!(total, 6);
}

#[test]
fn levels_conserve_points_and_stay_inside() {
    let mut leaves: Vec<Node> = Vec::new();
    for i in 0..1000i32 {
        let p = point(i % 1024, (i * 37) % 1024, (i * 91) % 1024);
        let k = voxel_of(&p, 3);
        match leaves.iter_mut().find(|n| n.key == k) {
            Some(n) => n.points.push(p),
            None => leaves.push(Node { key: k, points: vec![p] }),
        }
    }
    let before: Vec<i32> = xs(&leaves.iter().flat_map(|n| n.points.clone()).collect::<Vec<_>>());
    let nodes = bottom_up_levels(leaves, 3, 0, &geometry);
    let after: Vec<i32> = xs(&nodes.iter().flat_map(|n| n.points.clone()).collect::<Vec<_>>());
    assert_eq!(before, after);
    for n in &nodes {
        for p in &n.points {
            assert_eq!(voxel_of(p, n.key.level), n.key);
        }
    }
    for level in 0..=3 {
        assert!(nodes.iter().any(|n| n.key.level == level && !n.points.is_empty()));
    }
    let mut keys: Vec<VoxelKey> = nodes.iter().map(|n| n.key).collect();
    keys.sort();
    keys.dedup();
    assert_eq!(keys.len(), nodes.len());
}

#[test]
fn points_are_classified_by_their_ancestor() {
    let keys = vec![key(2, 0, 0, 0), key(2, 3, 3, 3), key(2, 1, 1, 0)];
    let groups = classify(&keys, &vec![0, 1, 2], 1);
    assert_eq!(groups.len(), 2);
    for g in &groups {
        match g.key.x {
            0 => assert_eq!(g.members, vec![0, 2]),
            _ => assert_eq!((g.key, g.members.clone()), (key(1, 1, 1, 1), vec![1])),
        }
    }
}

#[test]
fn full_leaves_are_subdivided() {
    let n = 100_001usize;
    let keys: Vec<VoxelKey> = (0..n).map(|i| key(20, (i as i32 % 2) << 19, 0, 0)).collect();
    let all: Vec<usize> = (0..n).collect();
    let leaves = classify(&keys, &all, 0);
    assert_eq!(leaves.len(), 1);
    let out = subdivide(&keys, leaves, 0);
    assert_eq!(out.len(), 2);
    assert!(out.iter().all(|g| g.key.level == 1));
    let mut seen: Vec<usize> = out.iter().flat_map(|g| g.members.clone()).collect();
    seen.sort();
    assert_eq!(seen, all);
}

#[test]
fn equal_points_stop_at_the_depth_cap() {
    let n = 100_001usize;
    let keys: Vec<VoxelKey> = (0..n).map(|_| key(20, 7, 7, 7)).collect();
    let leaves = classify(&keys, &(0..n).collect(), 0);
    let out = subdivide(&keys, leaves, 0);
    assert_eq!(out.len(), 1);
    assert_eq!((out[0].key, out[0].members.len()), (key(20, 7, 7, 7), n));
}

#[test]
fn chunk_holds_all_its_points() {
    let chunk = PlannedChunk { level: 1, gx: 0, gy: 0, gz: 0, point_count: 120_000 };
    let depth = chunk_key_depth(&chunk);
    let points: Vec<RawPoint> =
        (0..120_000i32).map(|i| point(i % 512, (i / 512) % 512, (i * 7) % 512)).collect();
    let keys: Vec<VoxelKey> = points
        .iter()
        .map(|p| {
            let at = |v: i32| (v as i64 * (1i64 << depth) / 1024) as i32;
            key(depth as i32, at(p.x), at(p.y), at(p.z))
        })
        .collect();
    let fine = |k: VoxelKey| {
        let size = (1024i64 >> k.level.min(10)).max(1);
        VoxelGrid::new(k.x as i64 * size, k.y as i64 * size, k.z as i64 * size, size)
    };
    let nodes = build_chunk_in_memory(&chunk, &points, &keys, &fine);
    let total: usize = nodes.iter().map(|n| n.points.len()).sum();
    assert_eq!(total, 120_000);
    assert!(nodes.iter().any(|n| n.key == key(1, 0, 0, 0)));
    for n in &nodes {
        assert_eq!(ancestor_at_level(n.key, 1), key(1, 0, 0, 0));
        for p in &n.points {
            assert_eq!(voxel_of(p, n.key.level), n.key);
        }
    }
}

#[test]
fn batches_fit_the_budget() {
    assert_eq!(split_batches(&vec![3, 9, 4, 1], 10), vec![vec![1], vec![2, 0, 3]]);
    assert_eq!(split_batches(&vec![30, 2], 10), vec![vec![0], vec![1]]);
    assert_eq!(split_batches(&vec![], 10), Vec::<Vec<usize>>::new());
    assert_eq!(split_in_order(&vec![3, 9, 4, 1], &vec![0, 1, 2, 3], 10), vec![
        vec![0],
        vec![1],
        vec![2, 3],
    ]);
}

#[test]
fn schedule_leads_from_the_chunks_to_the_root() {
    let roots = vec![key(2, 0, 0, 0), key(2, 1, 0, 0), key(2, 3, 0, 0), key(1, 0, 1, 0)];
    let levels = merge_schedule(&roots);
    assert_eq!(levels.len(), 2);
    let shown = |ts: &Vec<MergeTask>| -> Vec<(VoxelKey, Vec<VoxelKey>)> {
        ts.iter().map(|t| (t.parent, t.children.clone())).collect()
    };
    assert_eq!(
        shown(&levels[0]),
        vec![
            (key(1, 0, 0, 0), vec![key(2, 0, 0, 0), key(2, 1, 0, 0)]),
            (key(1, 1, 0, 0), vec![key(2, 3, 0, 0)]),
        ]
    );
    assert_eq!(levels[1].len(), 1);
    assert_eq!(levels[1][0].parent, VoxelKey::root());
    let mut children = levels[1][0].children.clone();
    children.sort();
    assert_eq!(children, vec![key(1, 0, 0, 0), key(1, 0, 1, 0), key(1, 1, 0, 0)]);
    assert!(merge_schedule(&vec![VoxelKey::root()]).is_empty());
}

#[test]
fn merge_tasks_share_the_budget() {
    let task = |x: i32| MergeTask { parent: key(1, x, 0, 0), children: vec![key(2, 2 * x, 0, 0)] };
    let tasks = vec![task(0), task(1)];
    let counts = vec![vec![10u64], vec![20]];
    assert_eq!(plan_merge_level(&tasks, &counts, 100, 2500).unwrap(), vec![vec![1], vec![0]]);
    assert_eq!(plan_merge_level(&tasks, &counts, 100, 3000).unwrap(), vec![vec![1, 0]]);
    assert_eq!(
        plan_merge_level(&tasks, &counts, 100, 1999).unwrap_err(),
        MergeOverBudget { parent: key(1, 1, 0, 0), children: 1, est_mem: 2000, memory_budget: 1999 }
    );
    assert_eq!(merge_mem_per_point(72, 64, 5), 146);
}

#[test]
fn merge_writes_the_children_and_the_parent() {
    let task = MergeTask {
        parent: VoxelKey::root(),
        children: vec![key(1, 0, 0, 0), key(1, 1, 0, 0)],
    };
    let lists = vec![vec![point(1, 0, 0), point(2, 0, 0)], vec![point(600, 0, 0)]];
    let nodes = merge_writes(&geometry(task.parent), &task, &lists);
    let shown: Vec<(VoxelKey, Vec<i32>)> = nodes.iter().map(|n| (n.key, xs(&n.points))).collect();
    assert_eq!(
        shown,
        vec![
            (key(1, 0, 0, 0), vec![2]),
            (key(1, 1, 0, 0), vec![600]),
            (VoxelKey::root(), vec![1]),
        ]
    );
    assert!(merge_writes(&geometry(task.parent), &task, &vec![Vec::new(), Vec::new()]).is_empty());
}

#[test]
fn merge_keeps_every_point() {
    let mut store: std::collections::BTreeMap<VoxelKey, Vec<RawPoint>> = Default::default();
    for i in 0..3000i32 {
        let p = point(i % 1024, (i * 37) % 1024, (i * 91) % 1024);
        store.entry(voxel_of(&p, 2)).or_default().push(p);
    }
    let roots: Vec<VoxelKey> = store.keys().copied().collect();
    for level in merge_schedule(&roots) {
        for task in &level {
            let lists: Vec<Vec<RawPoint>> =
                task.children.iter().map(|k| store.get(k).cloned().unwrap_or_default()).collect();
            for node in merge_writes(&geometry(task.parent), task, &lists) {
                store.insert(node.key, node.points);
            }
        }
    }
    let total: usize = store.values().map(|v| v.len()).sum();
    assert_eq!(total, 3000);
    for (k, points) in &store {
        assert!(points.iter().all(|p| voxel_of(p, k.level) == *k));
    }
    let keys: Vec<VoxelKey> = store.keys().copied().collect();
    let counts: Vec<u64> = store.values().map(|v| v.len() as u64).collect();
    let list = assemble_node_list(&keys, &counts);
    assert_eq!(list.iter().map(|n| n.1).sum::<u64>(), 3000);
}

#[test]
fn tasks_of_a_level_run_in_any_order() {
    let mut start: std::collections::BTreeMap<VoxelKey, Vec<RawPoint>> = Default::default();
    for i in 0..500i32 {
        let p = point(i * 2, (i * 37) % 1024, (i * 91) % 1024);
        start.entry(voxel_of(&p, 2)).or_default().push(p);
    }
    let roots: Vec<VoxelKey> = start.keys().copied().collect();
    let level = &merge_schedule(&roots)[0];
    assert!(level.len() > 1);
    let run = |order: Vec<usize>| {
        let mut store = start.clone();
        for t in order {
            let lists: Vec<Vec<RawPoint>> =
                level[t].children.iter().map(|k| store[k].clone()).collect();
            for node in merge_writes(&geometry(level[t].parent), &level[t], &lists) {
                store.insert(node.key, node.points);
            }
        }
        format!("{store:?}")
    };
    assert_eq!(run((0..level.len()).collect()), run((0..level.len()).rev().collect()));
}

/// Builds an octree from points at level 1 in memory.
fn run_build(budget: u64) -> Result<Vec<(VoxelKey, u64)>, MergeOverBudget> {
    let chunk = |gx: i32, n: u64| PlannedChunk { level: 1, gx, gy: 0, gz: 0, point_count: n };
    let chunks = vec![chunk(0, 2), chunk(1, 3)];
    let mut store: std::collections::BTreeMap<VoxelKey, Vec<RawPoint>> = Default::default();
    let mut build = TreeBuild::new(chunks.clone(), budget, 10);
    let mut built: Vec<usize> = Vec::new();
    loop {
        match build.action() {
            BuildAction::BuildChunks { chunks: batch } => {
                let mut nodes: Vec<Vec<VoxelKey>> = Vec::new();
                for &c in &batch {
                    let k = key(1, chunks[c].gx, 0, 0);
                    let points = (0..chunks[c].point_count)
                        .map(|i| point(chunks[c].gx * 512 + 20 * i as i32, 0, 0))
                        .collect();
                    store.insert(k, points);
                    nodes.push(vec![k]);
                    built.push(c);
                }
                build.chunks_built(&nodes);
            }
            BuildAction::CountChildren => {
                let counts: Vec<Vec<u64>> = build
                    .tasks()
                    .iter()
                    .map(|t| t.children.iter().map(|k| store[k].len() as u64).collect())
                    .collect();
                build.children_counted(&counts)?;
            }
            BuildAction::MergeTasks { tasks } => {
                for t in tasks {
                    let task = &build.tasks()[t];
                    let lists: Vec<Vec<RawPoint>> =
                        task.children.iter().map(|k| store[k].clone()).collect();
                    for node in merge_writes(&geometry(task.parent), task, &lists) {
                        store.insert(node.key, node.points);
                    }
                }
                build.tasks_merged();
            }
            BuildAction::CountNodes { keys } => {
                built.sort();
                assert_eq!(built, vec![0, 1]);
                let counts: Vec<u64> =
                    keys.iter().map(|k| store.get(k).map_or(0, |v| v.len()) as u64).collect();
                return Ok(assemble_node_list(&keys, &counts));
            }
        }
    }
}

#[test]
fn build_goes_from_the_chunks_to_the_list() {
    let nodes = run_build(1_000_000).unwrap();
    assert_eq!(
        nodes,
        vec![(key(0, 0, 0, 0), 3), (key(1, 0, 0, 0), 1), (key(1, 1, 0, 0), 1)]
    );
    let e = run_build(49).unwrap_err();
    assert_eq!((e.parent, e.children, e.est_mem), (key(0, 0, 0, 0), 2, 50));
    assert_eq!(run_build(50).unwrap().len(), 3);
}

#[test]
fn build_without_chunks_has_nothing_to_do() {
    let build = TreeBuild::new(Vec::new(), 100, 10);
    let BuildAction::CountNodes { keys } = build.action() else {
        panic!("expected CountNodes");
    };
    assert!(keys.is_empty());
}

#[test]
fn chunk_roots_and_repeated_keys() {
    let keys = vec![key(2, 0, 0, 0), key(1, 0, 0, 0), key(2, 1, 0, 0), key(1, 0, 0, 0)];
    assert_eq!(select_level(&keys, 2), vec![key(2, 0, 0, 0), key(2, 1, 0, 0)]);
    let mut once = unique_keys(&keys);
    once.sort();
    assert_eq!(once, vec![key(1, 0, 0, 0), key(2, 0, 0, 0), key(2, 1, 0, 0)]);
}

#[test]
fn node_list_is_closed_under_parents() {
    let keys = vec![key(3, 5, 6, 7), key(1, 0, 0, 0), key(2, 0, 0, 0)];
    let list = assemble_node_list(&keys, &vec![10, 0, 4]);
    let mut sorted = list.clone();
    sorted.sort();
    assert_eq!(
        sorted,
        vec![
            (key(0, 0, 0, 0), 0),
            (key(1, 0, 0, 0), 0),
            (key(1, 1, 1, 1), 0),
            (key(2, 0, 0, 0), 4),
            (key(2, 2, 3, 3), 0),
            (key(3, 5, 6, 7), 10),
        ]
    );
    assert!(list.windows(2).all(|w| w[0].0.level <= w[1].0.level));
    for (empty, _) in list.iter().filter(|n| n.1 == 0) {
        assert!(list.iter().any(|(k, n)| {
            *n > 0 && k.level > empty.level && ancestor_at_level(*k, empty.level) == *empty
        }));
    }
    assert!(assemble_node_list(&keys, &vec![0, 0, 0]).is_empty());
}

/// Converts points in memory, in batches of 1000, with a grid of 4 cells per axis.
fn convert(points: &[RawPoint], chunk_target: u64, codec: TempCompression) -> Vec<(VoxelKey, u64)> {
    let mut counts = vec![0u64; 64];
    for p in points {
        counts[cell_of_key(4, &voxel_of(p, 2))] += 1;
    }
    let plan = ChunkPlan {
        grid_size: 4,
        grid_depth: 2,
        chunk_target,
        total_points: points.len() as u64,
        chunks: merge_sparse_cells(counts, 2, chunk_target),
        header_mismatch: None,
    };
    let lut = build_chunk_lut(&plan);
    let mut files: Vec<Vec<u8>> = vec![Vec::new(); plan.chunks.len()];
    for batch in points.chunks(1000) {
        let keys: Vec<VoxelKey> = batch.iter().map(|p| voxel_of(p, 2)).collect();
        for g in distribute_batch(&lut, 4, &keys, &batch.to_vec()) {
            write_temp_batch(&mut files[g.chunk as usize], &g.points, 0, codec);
        }
    }
    let fine = |k: VoxelKey| {
        let size = (1024i64 >> k.level.min(10)).max(1);
        VoxelGrid::new(k.x as i64 * size, k.y as i64 * size, k.z as i64 * size, size)
    };
    let mut store: std::collections::BTreeMap<VoxelKey, Vec<RawPoint>> = Default::default();
    let mut build = TreeBuild::new(plan.chunks.clone(), 1 << 30, 10);
    loop {
        match build.action() {
            BuildAction::BuildChunks { chunks } => {
                let mut built: Vec<Vec<VoxelKey>> = Vec::new();
                for &c in &chunks {
                    let held = read_temp_batches(&files[c], 0, codec).unwrap();
                    let depth = chunk_key_depth(&plan.chunks[c]);
                    let at = |v: i32| (v as i64 * (1i64 << depth) / 1024) as i32;
                    let keys: Vec<VoxelKey> =
                        held.iter().map(|p| key(depth as i32, at(p.x), at(p.y), at(p.z))).collect();
                    let nodes = build_chunk_in_memory(&plan.chunks[c], &held, &keys, &fine);
                    built.push(nodes.iter().map(|n| n.key).collect());
                    store.extend(nodes.into_iter().map(|n| (n.key, n.points)));
                }
                build.chunks_built(&built);
            }
            BuildAction::CountChildren => {
                let counts: Vec<Vec<u64>> = build
                    .tasks()
                    .iter()
                    .map(|t| t.children.iter().map(|k| store[k].len() as u64).collect())
                    .collect();
                build.children_counted(&counts).unwrap();
            }
            BuildAction::MergeTasks { tasks } => {
                for t in tasks {
                    let task = &build.tasks()[t];
                    let lists: Vec<Vec<RawPoint>> =
                        task.children.iter().map(|k| store[k].clone()).collect();
                    for node in merge_writes(&fine(task.parent), task, &lists) {
                        store.insert(node.key, node.points);
                    }
                }
                build.tasks_merged();
            }
            BuildAction::CountNodes { keys } => {
                let count = |k: &VoxelKey| store.get(k).map_or(0, |v| v.len()) as u64;
                let counts: Vec<u64> = keys.iter().map(count).collect();
                let list = assemble_node_list(&keys, &counts);
                assert!(list.iter().all(|(k, n)| count(k) == *n));
                return list;
            }
        }
    }
}

#[test]
fn conversion_keeps_every_point() {
    let points: Vec<RawPoint> =
        (0..5000i32).map(|i| point((i * i) % 1024, (i * 37) % 700, (i / 5) % 300)).collect();
    for codec in [TempCompression::Uncompressed, TempCompression::Lz4] {
        for chunk_target in [1, 400, 1_000_000] {
            let list = convert(&points, chunk_target, codec);
            assert_eq!(list.iter().map(|n| n.1).sum::<u64>(), 5000);
            assert!(list.iter().any(|n| n.0 == VoxelKey::root()));
        }
    }
}
