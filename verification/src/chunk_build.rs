//! Building the part of the octree that lies below one chunk.

use crate::chunking::PlannedChunk;
use crate::grouping::{group_views, picked, picked_groups, Group};
use crate::hierarchy::all_indices;
use crate::key::{ancestor, law_ancestor_of_ancestor, VoxelKey};
use crate::leaves::{
    chunk_leaves, chunk_local_extra_levels, classify, extra_levels, law_leaves_sort,
    leaf_is_complete, leaf_is_sound, leaves_in_range, sorts, subdivide, CHUNK_DEPTH_CAP,
};
use crate::octree::{
    all_filled, bottom_up_levels, flat, grids, is_geometry, keys_of, law_levels_conserve,
    law_levels_keys, law_levels_points_inside, lemma_flat_picked, lemma_groups_disjoint,
    lemma_picked_id, levels, no_ancestor_upto, node_views, points_inside, total_points, Node,
    NodeView,
};
use crate::point::{point_views, PointView, RawPoint};
use crate::sampling::{lemma_picked_is_multiset, VoxelGrid};
use vstd::prelude::*;

verus! {

/// The level of a chunk's leaves before any is subdivided.
pub open spec fn leaf_depth_of(chunk: PlannedChunk) -> int {
    chunk.level + extra_levels(chunk.point_count, 0)
}

/// The level of the deepest leaf, or the leaf depth where there is none.
pub open spec fn deepest(leaves: Seq<(VoxelKey, Seq<usize>)>, leaf_depth: int) -> int
    decreases leaves.len(),
{
    if leaves.len() == 0 {
        leaf_depth
    } else {
        let rest = deepest(leaves.drop_last(), leaf_depth);
        if leaves.last().0.level > rest {
            leaves.last().0.level as int
        } else {
            rest
        }
    }
}

/// The value of each point.
pub open spec fn point_of(points: Seq<PointView>) -> spec_fn(usize) -> PointView {
    |m: usize| points[m as int]
}

/// The leaves with their points.
pub open spec fn leaf_nodes(
    points: Seq<PointView>,
    leaves: Seq<(VoxelKey, Seq<usize>)>,
) -> Seq<NodeView> {
    leaves.map_values(
        |l: (VoxelKey, Seq<usize>)| (l.0, l.1.map_values(point_of(points))),
    )
}

/// The nodes of a chunk: its points sorted into leaves, which are subdivided
/// where they hold too many, and then all parents up to the chunk's own level.
pub open spec fn chunk_nodes(
    grid_of: spec_fn(VoxelKey) -> VoxelGrid,
    chunk: PlannedChunk,
    points: Seq<PointView>,
    keys: Seq<VoxelKey>,
) -> Seq<NodeView> {
    let leaf_depth = leaf_depth_of(chunk);
    let leaves = chunk_leaves(keys, leaf_depth);
    levels(
        grid_of,
        leaf_nodes(points, leaves),
        deepest(leaves, leaf_depth),
        chunk.level as int,
    )
}

/// The keys locate the points of the chunk deep enough: at the leaf depth or
/// below it, and at the depth cap or below it.
pub open spec fn deep_keys(chunk: PlannedChunk, keys: Seq<VoxelKey>) -> bool {
    forall|i: int|
        0 <= i < keys.len() ==> {
            &&& (#[trigger] keys[i]).level >= CHUNK_DEPTH_CAP
            &&& keys[i].level >= leaf_depth_of(chunk)
        }
}

/// The depth at which the points of a chunk have to be located.
pub fn chunk_key_depth(chunk: &PlannedChunk) -> (depth: u32)
    requires
        chunk.level <= i32::MAX - 13,
    ensures
        depth == (if leaf_depth_of(*chunk) > CHUNK_DEPTH_CAP {
            leaf_depth_of(*chunk)
        } else {
            CHUNK_DEPTH_CAP as int
        }),
{
    let leaf_depth: u32 = chunk.level + chunk_local_extra_levels(chunk.point_count);
    if leaf_depth > CHUNK_DEPTH_CAP as u32 {
        leaf_depth
    } else {
        CHUNK_DEPTH_CAP as u32
    }
}

/// The leaves with their points.
fn fill_leaves(points: &Vec<RawPoint>, leaves: &Vec<Group>) -> (nodes: Vec<Node>)
    requires
        leaves_in_range(group_views(leaves@), points@.len(), 0),
    ensures
        node_views(nodes@) == leaf_nodes(point_views(points@), group_views(leaves@)),
{
    let ghost gs = group_views(leaves@);
    let ghost pv = point_views(points@);
    let mut nodes: Vec<Node> = Vec::new();
    let mut i: usize = 0;
    while i < leaves.len()
        invariant
            i <= leaves@.len(),
            gs == group_views(leaves@),
            pv == point_views(points@),
            leaves_in_range(gs, points@.len(), 0),
            node_views(nodes@) =~= leaf_nodes(pv, gs).take(i as int),
        decreases leaves@.len() - i,
    {
        let ghost members = gs[i as int].1;
        assert(members == leaves@[i as int].members@);
        let mut own: Vec<RawPoint> = Vec::new();
        let mut j: usize = 0;
        while j < leaves[i].members.len()
            invariant
                i < leaves@.len(),
                pv == point_views(points@),
                members == leaves@[i as int].members@,
                j <= members.len(),
                forall|k: int| 0 <= k < members.len() ==> #[trigger] members[k] < points@.len(),
                point_views(own@) =~= members.take(j as int).map_values(point_of(pv)),
            decreases members.len() - j,
        {
            let m: usize = leaves[i].members[j];
            let p = points[m].clone();
            proof {
                assert(p@ == point_of(pv)(m));
                assert(members.take(j + 1) =~= members.take(j as int).push(m));
                assert(point_views(own@.push(p)) =~= point_views(own@).push(p@));
            }
            own.push(p);
            j = j + 1;
        }
        assert(members.take(j as int) =~= members);
        let node = Node { key: leaves[i].key, points: own };
        proof {
            assert(node@ == leaf_nodes(pv, gs)[i as int]);
            assert(node_views(nodes@.push(node)) =~= node_views(nodes@).push(node@));
        }
        nodes.push(node);
        i = i + 1;
    }
    assert(leaf_nodes(pv, gs).take(i as int) =~= leaf_nodes(pv, gs));
    nodes
}

/// Builds the part of the octree that lies below a chunk: sorts its points into
/// leaves, subdivides leaves that hold too many points, and builds the parents
/// up to the chunk's own level. `keys` locates each point.
pub fn build_chunk_in_memory<F: Fn(VoxelKey) -> VoxelGrid>(
    chunk: &PlannedChunk,
    points: &Vec<RawPoint>,
    keys: &Vec<VoxelKey>,
    geometry: &F,
) -> (nodes: Vec<Node>)
    requires
        chunk.level <= i32::MAX - 13,
        points@.len() == keys@.len(),
        deep_keys(*chunk, keys@),
        is_geometry(*geometry),
    ensures
        node_views(nodes@) == chunk_nodes(
            grids(*geometry),
            *chunk,
            point_views(points@),
            keys@,
        ),
{
    let ghost depth = leaf_depth_of(*chunk);
    let leaf_depth: u32 = chunk.level + chunk_local_extra_levels(chunk.point_count);
    let mut sel: Vec<usize> = Vec::new();
    let n: usize = keys.len();
    let mut i: usize = 0;
    while i < n
        invariant
            i <= n,
            sel@ =~= all_indices(i as nat),
        decreases n - i,
    {
        sel.push(i);
        i = i + 1;
    }
    let first = classify(keys, &sel, leaf_depth as i32);
    proof {
        crate::leaves::lemma_first_leaves(keys@, depth);
    }
    let leaves = subdivide(keys, first, leaf_depth as i32);
    proof {
        law_leaves_sort(keys@, depth);
        lemma_leaf_keys(keys@, depth);
    }
    let ghost gs = chunk_leaves(keys@, depth);
    let mut max_depth: u32 = leaf_depth;
    let mut i: usize = 0;
    assert(gs.take(0) =~= Seq::<(VoxelKey, Seq<usize>)>::empty());
    while i < leaves.len()
        invariant
            i <= leaves@.len(),
            gs == group_views(leaves@),
            max_depth <= i32::MAX,
            0 <= depth,
            leaves_in_range(gs, keys@.len(), depth),
            max_depth == deepest(gs.take(i as int), depth),
        decreases leaves@.len() - i,
    {
        proof {
            assert(gs.take(i + 1).drop_last() =~= gs.take(i as int));
            assert(gs.take(i + 1).last() == gs[i as int]);
            assert(gs[i as int].0 == leaves@[i as int].key);
        }
        let level: i32 = leaves[i].key.level;
        if level as u32 > max_depth {
            max_depth = level as u32;
        }
        i = i + 1;
    }
    assert(gs.take(i as int) =~= gs);
    let nodes = fill_leaves(points, &leaves);
    proof {
        let lv = leaf_nodes(point_views(points@), gs);
        assert(keys_of(lv) =~= gs.map_values(|l: (VoxelKey, Seq<usize>)| l.0));
        lemma_antichain(keys_of(lv), max_depth - 1);
    }
    bottom_up_levels(nodes, max_depth, chunk.level, geometry)
}

/// No key lies below another one.
pub open spec fn antichain(keys: Seq<VoxelKey>) -> bool {
    &&& keys.no_duplicates()
    &&& forall|a: VoxelKey, b: VoxelKey|
        #![trigger keys.contains(a), keys.contains(b)]
        keys.contains(a) && keys.contains(b) && a != b ==> ancestor(b, a.level as int) != a
}

/// Keys none of which lies below another have none of their ancestors among them.
pub proof fn lemma_antichain(keys: Seq<VoxelKey>, d: int)
    requires
        antichain(keys),
    ensures
        no_ancestor_upto(keys, d),
{
}

/// No leaf of a chunk lies below another one.
pub proof fn lemma_leaf_keys(keys: Seq<VoxelKey>, leaf_depth: int)
    requires
        leaf_depth >= 0,
        keys.len() <= usize::MAX,
        forall|i: int|
            0 <= i < keys.len() ==> {
                &&& (#[trigger] keys[i]).level >= CHUNK_DEPTH_CAP
                &&& keys[i].level >= leaf_depth
            },
    ensures
        antichain(
            chunk_leaves(keys, leaf_depth).map_values(|l: (VoxelKey, Seq<usize>)| l.0),
        ),
{
    let gs = chunk_leaves(keys, leaf_depth);
    let all = all_indices(keys.len());
    let ks = gs.map_values(|l: (VoxelKey, Seq<usize>)| l.0);
    law_leaves_sort(keys, leaf_depth);
    let none = Seq::<usize>::empty();
    let f = flat(gs, gs.len());
    assert(f.no_duplicates()) by {
        lemma_flat_picked(gs, gs.len());
        assert(gs.take(gs.len() as int) =~= gs);
        lemma_picked_id(all);
        assert(f.to_multiset() == all.to_multiset());
        assert(all.no_duplicates());
        all.lemma_multiset_has_no_duplicates();
        f.lemma_multiset_has_no_duplicates_conv();
    }
    assert(none + f =~= f);
    lemma_groups_disjoint(gs, none);
    assert forall|i: int, j: int|
        0 <= i < gs.len() && 0 <= j < gs.len() && i != j implies ancestor(
        (#[trigger] gs[j]).0,
        (#[trigger] gs[i]).0.level as int,
    ) != gs[i].0 by {
        let a = gs[i].0;
        let b = gs[j].0;
        assert(gs[j].1.len() > 0);
        let m = gs[j].1[0];
        assert(gs[j].1.contains(m));
        assert(leaf_is_sound(keys, all, gs[j]));
        assert(leaf_is_complete(keys, all, gs[i]));
        assert(all.contains(m));
        assert(ancestor(keys[m as int], b.level as int) == b);
        if ancestor(b, a.level as int) == a {
            if b.level >= a.level {
                law_ancestor_of_ancestor(keys[m as int], b.level as int, a.level as int);
            } else {
                assert(a == b);
            }
            assert(ancestor(keys[m as int], a.level as int) == a);
            assert(gs[i].1.contains(m));
            let k = choose|k: int| 0 <= k < gs[i].1.len() && gs[i].1[k] == m;
            if i < j {
                assert(gs[i].1[k] != gs[j].1[0]);
            } else {
                assert(gs[j].1[0] != gs[i].1[k]);
            }
        }
    }
    assert(ks.no_duplicates()) by {
        assert forall|i: int, j: int| 0 <= i < ks.len() && 0 <= j < ks.len() && i
            != j implies ks[i] != ks[j] by {
            assert(ancestor(gs[j].0, gs[i].0.level as int) != gs[i].0);
        }
    }
    assert forall|a: VoxelKey, b: VoxelKey|
        #![trigger ks.contains(a), ks.contains(b)]
        ks.contains(a) && ks.contains(b) && a != b implies ancestor(b, a.level as int) != a by {
        let i = choose|i: int| 0 <= i < ks.len() && ks[i] == a;
        let j = choose|j: int| 0 <= j < ks.len() && ks[j] == b;
        assert(ancestor(gs[j].0, gs[i].0.level as int) != gs[i].0);
    }
}

/// The points of the leaves are those that the leaves pick.
pub proof fn lemma_leaf_nodes_total(
    points: Seq<PointView>,
    leaves: Seq<(VoxelKey, Seq<usize>)>,
)
    ensures
        total_points(leaf_nodes(points, leaves)) == picked_groups(point_of(points), leaves),
    decreases leaves.len(),
{
    let nodes = leaf_nodes(points, leaves);
    if leaves.len() > 0 {
        lemma_leaf_nodes_total(points, leaves.drop_last());
        assert(nodes.drop_last() =~= leaf_nodes(points, leaves.drop_last()));
        lemma_picked_is_multiset(point_of(points), leaves.last().1);
    }
}

/// Every point of a chunk ends up in exactly one of the chunk's nodes, and lies
/// in that node's voxel. No key comes twice, no node is empty, and no node lies
/// above the chunk's level.
pub proof fn law_chunk_nodes(
    grid_of: spec_fn(VoxelKey) -> VoxelGrid,
    chunk: PlannedChunk,
    points: Seq<PointView>,
    keys: Seq<VoxelKey>,
    loc: spec_fn(PointView) -> VoxelKey,
)
    requires
        points.len() == keys.len() <= usize::MAX,
        deep_keys(chunk, keys),
        forall|i: int| 0 <= i < keys.len() ==> #[trigger] keys[i] == loc(points[i]),
    ensures
        total_points(chunk_nodes(grid_of, chunk, points, keys)) == points.to_multiset(),
        all_filled(chunk_nodes(grid_of, chunk, points, keys)),
        keys_of(chunk_nodes(grid_of, chunk, points, keys)).no_duplicates(),
        points_inside(chunk_nodes(grid_of, chunk, points, keys), loc),
        forall|k: VoxelKey| #[trigger]
            keys_of(chunk_nodes(grid_of, chunk, points, keys)).contains(k) ==> k.level
                >= chunk.level,
{
    let depth = leaf_depth_of(chunk);
    let gs = chunk_leaves(keys, depth);
    let all = all_indices(keys.len());
    let nodes = leaf_nodes(points, gs);
    let value = point_of(points);
    let max = deepest(gs, depth);
    let min = chunk.level as int;
    law_leaves_sort(keys, depth);
    lemma_leaf_keys(keys, depth);
    lemma_leaf_nodes_total(points, gs);
    assert(picked_groups(value, gs) == picked(value, all));
    lemma_picked_is_multiset(value, all);
    assert(all.map_values(value) =~= points);
    vstd::seq_lib::to_multiset_len(points);
    assert(keys_of(nodes) =~= gs.map_values(|l: (VoxelKey, Seq<usize>)| l.0));
    lemma_antichain(keys_of(nodes), max - 1);
    assert(all_filled(nodes)) by {
        assert forall|i: int| 0 <= i < nodes.len() implies (#[trigger] nodes[i]).1.len() > 0 by {
            assert(gs[i].1.len() > 0);
        }
    }
    assert(points_inside(nodes, loc)) by {
        assert forall|i: int, p: PointView| 0 <= i < nodes.len() && #[trigger] nodes[i].1.contains(
            p,
        ) implies {
            &&& loc(p).level >= nodes[i].0.level
            &&& ancestor(loc(p), nodes[i].0.level as int) == nodes[i].0
        } by {
            let j = choose|j: int| 0 <= j < nodes[i].1.len() && nodes[i].1[j] == p;
            let m = gs[i].1[j];
            assert(gs[i].1.contains(m));
            assert(leaf_is_sound(keys, all, gs[i]));
            assert(all.contains(m));
            assert(keys[m as int] == loc(points[m as int]));
            assert(ancestor(loc(p), nodes[i].0.level as int) == nodes[i].0);
            lemma_ancestor_not_below(loc(p), nodes[i].0.level as int);
        }
    }
    law_levels_conserve(grid_of, nodes, max, min);
    law_levels_keys(grid_of, nodes, max, min);
    law_levels_points_inside(grid_of, nodes, max, min, loc);
    let out = keys_of(chunk_nodes(grid_of, chunk, points, keys));
    assert forall|k: VoxelKey| #[trigger] out.contains(k) implies k.level >= chunk.level by {
        if keys_of(nodes).contains(k) {
            let i = choose|i: int| 0 <= i < nodes.len() && keys_of(nodes)[i] == k;
            assert(gs[i].0.level >= depth);
        }
    }
}

/// An ancestor never lies below its descendant.
proof fn lemma_ancestor_not_below(k: VoxelKey, level: int)
    ensures
        ancestor(k, level).level <= k.level,
    decreases k.level - level,
{
    if k.level > level && k.level > i32::MIN {
        lemma_ancestor_not_below(crate::key::parent_key(k), level);
    }
}

} // verus!
