//! Building an octree bottom-up from its leaves.

use crate::grouping::{
    add_member, gathered, gathered_groups, group_by, group_views, grouped_items,
    lemma_gathered_split, lemma_group_bounds, lemma_group_by, lemma_picked_split, picked,
    picked_groups, ungrouped, Group,
};
use crate::hierarchy::all_indices;
use crate::key::{ancestor, law_ancestor_of_ancestor, parent_key, VoxelKey};
use crate::point::{point_views, PointView, RawPoint};
use crate::sampling::{
    child_of_children, law_sample_conserves, law_sample_sources, list_points, lists_views,
    parent_of_children, sample_children, sum_of, tag_children, VoxelGrid,
};
use vstd::multiset::Multiset;
use vstd::prelude::*;

verus! {

/// A node of the octree with its points.
#[derive(Debug)]
pub struct Node {
    pub key: VoxelKey,
    pub points: Vec<RawPoint>,
}

/// What a node is.
pub type NodeView = (VoxelKey, Seq<PointView>);

impl View for Node {
    type V = NodeView;

    open spec fn view(&self) -> NodeView {
        (self.key, point_views(self.points@))
    }
}

/// The views of several nodes.
pub open spec fn node_views(nodes: Seq<Node>) -> Seq<NodeView> {
    nodes.map_values(|n: Node| n@)
}

/// A function from keys to grids that can be called on every key and gives one
/// well-formed grid for each.
pub open spec fn is_geometry<F: Fn(VoxelKey) -> VoxelGrid>(f: F) -> bool {
    &&& forall|k: VoxelKey| #[trigger] f.requires((k,))
    &&& forall|k: VoxelKey, g: VoxelGrid| #[trigger] f.ensures((k,), g) ==> g.wf()
    &&& forall|k: VoxelKey, g: VoxelGrid, h: VoxelGrid|
        #[trigger] f.ensures((k,), g) && #[trigger] f.ensures((k,), h) ==> g == h
}

/// The grid that a geometry gives for each key.
pub open spec fn grids<F: Fn(VoxelKey) -> VoxelGrid>(f: F) -> spec_fn(VoxelKey) -> VoxelGrid {
    |k: VoxelKey| choose|g: VoxelGrid| #[trigger] f.ensures((k,), g)
}

/// The parent of the nodes at the level below `d`.
pub open spec fn parent_at(nodes: Seq<NodeView>, d: int) -> spec_fn(usize) -> Option<VoxelKey> {
    |i: usize|
        if nodes[i as int].0.level == d + 1 {
            Some(parent_key(nodes[i as int].0))
        } else {
            None
        }
}

/// The points of the nodes `members`.
pub open spec fn member_points(nodes: Seq<NodeView>, members: Seq<usize>) -> Seq<Seq<PointView>> {
    members.map_values(|m: usize| nodes[m as int].1)
}

/// What is left of the first `n` of the nodes `members`: each with what the
/// sample leaves it, unless that is nothing.
pub open spec fn thinned(
    grid: VoxelGrid,
    nodes: Seq<NodeView>,
    members: Seq<usize>,
    n: nat,
) -> Seq<NodeView>
    decreases n,
{
    if n == 0 {
        Seq::empty()
    } else {
        let rest = thinned(grid, nodes, members, (n - 1) as nat);
        let left = child_of_children(grid, member_points(nodes, members), n - 1);
        if left.len() > 0 {
            rest.push((nodes[members[n - 1] as int].0, left))
        } else {
            rest
        }
    }
}

/// The nodes that one parent and its children make: the thinned children, then
/// the parent, unless it has no points.
pub open spec fn family(
    grid: VoxelGrid,
    nodes: Seq<NodeView>,
    group: (VoxelKey, Seq<usize>),
) -> Seq<NodeView> {
    let own = parent_of_children(grid, member_points(nodes, group.1));
    let children = thinned(grid, nodes, group.1, group.1.len());
    if own.len() > 0 {
        children.push((group.0, own))
    } else {
        children
    }
}

/// The nodes that the first `n` groups make.
pub open spec fn families(
    grid_of: spec_fn(VoxelKey) -> VoxelGrid,
    nodes: Seq<NodeView>,
    gs: Seq<(VoxelKey, Seq<usize>)>,
    n: nat,
) -> Seq<NodeView>
    decreases n,
{
    if n == 0 {
        Seq::empty()
    } else {
        families(grid_of, nodes, gs, (n - 1) as nat) + family(
            grid_of(gs[n - 1].0),
            nodes,
            gs[n - 1],
        )
    }
}

/// The nodes after the parents at level `d` were made from the nodes below
/// them: first the nodes at other levels, then one family after another in the
/// order of the parents' keys.
pub open spec fn level_step(
    grid_of: spec_fn(VoxelKey) -> VoxelGrid,
    nodes: Seq<NodeView>,
    d: int,
) -> Seq<NodeView> {
    let all = all_indices(nodes.len());
    let root = parent_at(nodes, d);
    let gs = group_by(all, root);
    ungrouped(all, root).map_values(|i: usize| nodes[i as int]) + families(
        grid_of,
        nodes,
        gs,
        gs.len(),
    )
}

/// The nodes after all parents from level `max - 1` up to level `min` were
/// made.
pub open spec fn levels(
    grid_of: spec_fn(VoxelKey) -> VoxelGrid,
    nodes: Seq<NodeView>,
    max: int,
    min: int,
) -> Seq<NodeView>
    decreases max - min,
{
    if max <= min {
        nodes
    } else {
        levels(grid_of, level_step(grid_of, nodes, max - 1), max - 1, min)
    }
}

/// The keys of the nodes.
pub open spec fn keys_of(nodes: Seq<NodeView>) -> Seq<VoxelKey> {
    nodes.map_values(|n: NodeView| n.0)
}

/// All points of all nodes.
pub open spec fn total_points(nodes: Seq<NodeView>) -> Multiset<PointView>
    decreases nodes.len(),
{
    if nodes.len() == 0 {
        Multiset::empty()
    } else {
        total_points(nodes.drop_last()).add(nodes.last().1.to_multiset())
    }
}

/// Keys are distinct, and no key at level `d` or above has another one below
/// it.
pub open spec fn no_ancestor_upto(keys: Seq<VoxelKey>, d: int) -> bool {
    &&& keys.no_duplicates()
    &&& forall|a: VoxelKey, b: VoxelKey|
        #![trigger keys.contains(a), keys.contains(b)]
        keys.contains(a) && keys.contains(b) && a != b && a.level <= d ==> ancestor(
            b,
            a.level as int,
        ) != a
}

// Splitting a vector of nodes into its parts.
/// All indices of all groups, one group behind another.
pub open spec fn flat(gs: Seq<(VoxelKey, Seq<usize>)>, n: nat) -> Seq<usize>
    decreases n,
{
    if n == 0 {
        Seq::empty()
    } else {
        flat(gs, (n - 1) as nat) + gs[n - 1].1
    }
}

/// Each item as its own value.
pub open spec fn id_of() -> spec_fn(usize) -> usize {
    |i: usize| i
}

/// The items picked are the items.
pub proof fn lemma_picked_id(sel: Seq<usize>)
    ensures
        picked(id_of(), sel) == sel.to_multiset(),
    decreases sel.len(),
{
    broadcast use vstd::seq_lib::group_to_multiset_ensures;

    if sel.len() == 0 {
        assert(picked(id_of(), sel) =~= sel.to_multiset());
    } else {
        lemma_picked_id(sel.drop_last());
        assert(sel =~= sel.drop_last().push(sel.last()));
    }
}

/// The groups' items, one group behind another, are the items of the groups.
pub proof fn lemma_flat_picked(gs: Seq<(VoxelKey, Seq<usize>)>, n: nat)
    requires
        n <= gs.len(),
    ensures
        flat(gs, n).to_multiset() == picked_groups(id_of(), gs.take(n as int)),
    decreases n,
{
    broadcast use vstd::seq_lib::group_to_multiset_ensures;

    if n == 0 {
        assert(gs.take(0) =~= Seq::<(VoxelKey, Seq<usize>)>::empty());
        assert(flat(gs, n).to_multiset() =~= picked_groups(id_of(), gs.take(0)));
    } else {
        lemma_flat_picked(gs, (n - 1) as nat);
        vstd::seq_lib::lemma_multiset_commutative(flat(gs, (n - 1) as nat), gs[n - 1].1);
        lemma_picked_id(gs[n - 1].1);
        assert(gs.take(n as int).drop_last() =~= gs.take(n - 1));
        assert(gs.take(n as int).last() == gs[n - 1]);
    }
}

/// The parts, one behind another, hold every index once.
pub proof fn lemma_parts_distinct(n: nat, root: spec_fn(usize) -> Option<VoxelKey>)
    requires
        n <= usize::MAX,
    ensures
        ({
            let all = all_indices(n);
            let gs = group_by(all, root);
            (ungrouped(all, root) + flat(gs, gs.len())).no_duplicates()
        }),
{
    let all = all_indices(n);
    let gs = group_by(all, root);
    let un = ungrouped(all, root);
    let seq = un + flat(gs, gs.len());
    lemma_picked_split(id_of(), all, root);
    lemma_picked_id(all);
    lemma_picked_id(un);
    lemma_flat_picked(gs, gs.len());
    assert(gs.take(gs.len() as int) =~= gs);
    vstd::seq_lib::lemma_multiset_commutative(un, flat(gs, gs.len()));
    assert(all.to_multiset() == seq.to_multiset());
    assert(all.no_duplicates());
    all.lemma_multiset_has_no_duplicates();
    seq.lemma_multiset_has_no_duplicates_conv();
}

/// Takes the points out of node `i`.
fn take_points(nodes: &mut Vec<Node>, i: usize) -> (points: Vec<RawPoint>)
    requires
        i < old(nodes)@.len(),
    ensures
        points == old(nodes)@[i as int].points,
        final(nodes)@.len() == old(nodes)@.len(),
        forall|j: int|
            0 <= j < old(nodes)@.len() && j != i ==> #[trigger] final(nodes)@[j] == old(nodes)@[j],
        final(nodes)@[i as int].key == old(nodes)@[i as int].key,
{
    let mut points: Vec<RawPoint> = Vec::new();
    core::mem::swap(&mut nodes[i].points, &mut points);
    points
}

/// Makes the family of one parent. `members` are the indices of its children,
/// whose points are taken out of `nodes`.
fn push_family(
    nodes: &mut Vec<Node>,
    key: VoxelKey,
    members: &Vec<usize>,
    grid: &VoxelGrid,
    out: &mut Vec<Node>,
    Ghost(before): Ghost<Seq<NodeView>>,
)
    requires
        grid.wf(),
        members@.no_duplicates(),
        old(nodes)@.len() == before.len(),
        forall|j: int| 0 <= j < members@.len() ==> #[trigger] members@[j] < before.len(),
        forall|j: int|
            0 <= j < members@.len() ==> old(nodes)@[#[trigger] members@[j] as int]@
                == before[members@[j] as int],
    ensures
        node_views(final(out)@) == node_views(old(out)@) + family(*grid, before, (key, members@)),
        final(nodes)@.len() == before.len(),
        forall|i: int|
            0 <= i < before.len() && !members@.contains(i as usize) ==> #[trigger] final(
            nodes)@[i] == old(nodes)@[i],
{
    let ghost lists = member_points(before, members@);
    let mut keys: Vec<VoxelKey> = Vec::new();
    let mut children: Vec<Vec<RawPoint>> = Vec::new();
    let mut j: usize = 0;
    while j < members.len()
        invariant
            j <= members@.len(),
            members@.no_duplicates(),
            nodes@.len() == before.len(),
            lists == member_points(before, members@),
            keys@.len() == j,
            children@.len() == j,
            forall|j: int| 0 <= j < members@.len() ==> #[trigger] members@[j] < before.len(),
            forall|k: int|
                j <= k < members@.len() ==> nodes@[#[trigger] members@[k] as int]@
                    == before[members@[k] as int],
            forall|k: int| 0 <= k < j ==> #[trigger] keys@[k] == before[members@[k] as int].0,
            forall|k: int| 0 <= k < j ==> point_views((#[trigger] children@[k])@) == lists[k],
            forall|i: int|
                0 <= i < before.len() && !members@.contains(i as usize) ==> #[trigger] nodes@[i]
                    == old(nodes)@[i],
        decreases members@.len() - j,
    {
        let m: usize = members[j];
        assert(members@.contains(m));
        keys.push(nodes[m].key);
        let pts = take_points(nodes, m);
        children.push(pts);
        j = j + 1;
    }
    assert(lists_views(children@) =~= lists);
    let (parent, left) = sample_children(grid, &children);
    let ghost base = node_views(out@);
    let mut left = left;
    let mut c: usize = 0;
    assert(base + thinned(*grid, before, members@, 0) =~= base);
    while c < members.len()
        invariant
            c <= members@.len(),
            lists == member_points(before, members@),
            keys@.len() == members@.len(),
            left@.len() == members@.len(),
            forall|k: int|
                0 <= k < members@.len() ==> #[trigger] keys@[k] == before[members@[k] as int].0,
            forall|k: int|
                c <= k < members@.len() ==> point_views((#[trigger] left@[k])@)
                    == child_of_children(*grid, lists, k),
            node_views(out@) == base + thinned(*grid, before, members@, c as nat),
        decreases members@.len() - c,
    {
        let mut points: Vec<RawPoint> = Vec::new();
        core::mem::swap(&mut left[c], &mut points);
        assert(point_views(points@) == child_of_children(*grid, lists, c as int));
        assert(points@.len() == point_views(points@).len());
        let ghost so_far = node_views(out@);
        if points.len() > 0 {
            let node = Node { key: keys[c], points };
            proof {
                assert(node_views(out@.push(node)) =~= so_far.push(node@));
                assert(so_far.push(node@) =~= base + thinned(
                    *grid,
                    before,
                    members@,
                    (c + 1) as nat,
                ));
            }
            out.push(node);
        }
        c = c + 1;
    }
    assert(parent@.len() == point_views(parent@).len());
    let ghost so_far = node_views(out@);
    if parent.len() > 0 {
        let node = Node { key, points: parent };
        assert(node_views(out@.push(node)) =~= so_far.push(node@));
        out.push(node);
    }
    assert(node_views(out@) =~= base + family(*grid, before, (key, members@)));
}

/// Makes the parents at level `d` from the nodes below them.
pub fn sample_level<F: Fn(VoxelKey) -> VoxelGrid>(
    nodes: Vec<Node>,
    d: u32,
    geometry: &F,
) -> (out: Vec<Node>)
    requires
        d < i32::MAX,
        is_geometry(*geometry),
    ensures
        node_views(out@) == level_step(grids(*geometry), node_views(nodes@), d as int),
{
    let ghost before = node_views(nodes@);
    let ghost root = parent_at(before, d as int);
    let mut nodes = nodes;
    let n: usize = nodes.len();
    let ghost all = all_indices(n as nat);
    let mut this_level: Vec<usize> = Vec::new();
    let mut groups: Vec<Group> = Vec::new();
    let mut i: usize = 0;
    assert(all.take(0) =~= Seq::<usize>::empty());
    assert(group_views(groups@) =~= Seq::<(VoxelKey, Seq<usize>)>::empty());
    while i < n
        invariant
            i <= n,
            n == nodes@.len(),
            d < i32::MAX,
            before == node_views(nodes@),
            root == parent_at(before, d as int),
            all == all_indices(n as nat),
            this_level@ == ungrouped(all.take(i as int), root),
            group_views(groups@) == group_by(all.take(i as int), root),
        decreases n - i,
    {
        proof {
            assert(all.take(i + 1).drop_last() =~= all.take(i as int));
            assert(all.take(i + 1).last() == i);
            assert(before[i as int] == nodes@[i as int]@);
        }
        let key = nodes[i].key;
        let mut parent: Option<VoxelKey> = None;
        if key.level == d as i32 + 1 {
            parent = key.parent();
        }
        match parent {
            Some(p) => {
                add_member(&mut groups, p, i);
            },
            None => {
                this_level.push(i);
            },
        }
        i = i + 1;
    }
    assert(all.take(i as int) =~= all);
    let ghost gs = group_by(all, root);
    let ghost un = ungrouped(all, root);
    let ghost parts = un + flat(gs, gs.len());
    proof {
        lemma_group_bounds(all, root, n as nat);
        lemma_parts_distinct(n as nat, root);
    }
    let ghost value = |i: usize| before[i as int];
    let mut out: Vec<Node> = Vec::new();
    let mut j: usize = 0;
    assert(node_views(out@) =~= un.take(0).map_values(value));
    while j < this_level.len()
        invariant
            j <= un.len(),
            un == this_level@,
            n == nodes@.len() == before.len(),
            parts == un + flat(gs, gs.len()),
            parts.no_duplicates(),
            value == (|i: usize| before[i as int]),
            forall|k: int| 0 <= k < un.len() ==> #[trigger] un[k] < n,
            forall|k: int|
                0 <= k < parts.len() && j <= k && parts[k] < n ==> nodes@[#[trigger] parts[k] as int]@
                    == before[parts[k] as int],
            node_views(out@) == un.take(j as int).map_values(value),
        decreases un.len() - j,
    {
        let m: usize = this_level[j];
        assert(parts[j as int] == m);
        let key = nodes[m].key;
        let points = take_points(&mut nodes, m);
        let node = Node { key, points };
        proof {
            assert(node@ == value(m));
            assert(un.take(j + 1) =~= un.take(j as int).push(m));
            assert(node_views(out@.push(node)) =~= node_views(out@).push(node@));
            assert(node_views(out@).push(node@) =~= un.take(j + 1).map_values(value));
        }
        out.push(node);
        j = j + 1;
    }
    assert(un.take(j as int) =~= un);
    let ghost base = node_views(out@);
    let ghost grid_of = grids(*geometry);
    let mut g: usize = 0;
    proof {
        assert(base + families(grid_of, before, gs, 0) =~= base);
        assert forall|h: int, m: int| 0 <= h < gs.len() && 0 <= m < gs[h].1.len() implies nodes@[(
        #[trigger] gs[h].1[m]) as int]@ == before[gs[h].1[m] as int] by {
            lemma_flat_position(gs, h, gs.len());
            assert(parts[un.len() + flat(gs, h as nat).len() + m] == gs[h].1[m]);
        }
    }
    while g < groups.len()
        invariant
            g <= groups@.len(),
            gs == group_views(groups@),
            n == nodes@.len() == before.len(),
            parts == un + flat(gs, gs.len()),
            parts.no_duplicates(),
            is_geometry(*geometry),
            grid_of == grids(*geometry),
            forall|g: int, m: int|
                0 <= g < gs.len() && 0 <= m < gs[g].1.len() ==> #[trigger] gs[g].1[m] < n,
            forall|h: int, m: int|
                g <= h < gs.len() && 0 <= m < gs[h].1.len() ==> nodes@[(
                #[trigger] gs[h].1[m]) as int]@ == before[gs[h].1[m] as int],
            node_views(out@) == base + families(grid_of, before, gs, g as nat),
        decreases groups@.len() - g,
    {
        let key = groups[g].key;
        let ghost members = gs[g as int].1;
        assert(members == groups@[g as int].members@);
        let grid = geometry(key);
        assert(grid == grid_of(key));
        proof {
            lemma_groups_disjoint(gs, un);
            assert forall|j: int| 0 <= j < members.len() implies #[trigger] members[j]
                < before.len() by {
                assert(gs[g as int].1[j] < n);
            }
            assert forall|j: int| 0 <= j < members.len() implies nodes@[#[trigger] members[j] as int]@
                == before[members[j] as int] by {
                assert(nodes@[gs[g as int].1[j] as int]@ == before[gs[g as int].1[j] as int]);
            }
        }
        let ghost old_nodes = nodes@;
        push_family(&mut nodes, key, &groups[g].members, &grid, &mut out, Ghost(before));
        proof {
            assert forall|h: int, m: int|
                g + 1 <= h < gs.len() && 0 <= m < gs[h].1.len() implies nodes@[(
            #[trigger] gs[h].1[m]) as int]@ == before[gs[h].1[m] as int] by {
                let v = gs[h].1[m];
                assert(!members.contains(v)) by {
                    if members.contains(v) {
                        let k = choose|k: int| 0 <= k < members.len() && members[k] == v;
                        assert(gs[g as int].1[k] == gs[h].1[m]);
                    }
                }
                assert(nodes@[v as int] == old_nodes[v as int]);
            }
            assert(node_views(out@) =~= base + families(grid_of, before, gs, (g + 1) as nat));
        }
        g = g + 1;
    }
    out
}

/// Groups whose items, one group behind another, are distinct are disjoint.
pub proof fn lemma_groups_disjoint(gs: Seq<(VoxelKey, Seq<usize>)>, un: Seq<usize>)
    requires
        (un + flat(gs, gs.len())).no_duplicates(),
    ensures
        forall|g: int| 0 <= g < gs.len() ==> (#[trigger] gs[g]).1.no_duplicates(),
        forall|g: int, h: int, k: int, m: int|
            0 <= g < h < gs.len() && 0 <= k < gs[g].1.len() && 0 <= m < gs[h].1.len()
                ==> #[trigger] gs[g].1[k] != #[trigger] gs[h].1[m],
{
    let all = un + flat(gs, gs.len());
    assert forall|g: int| 0 <= g < gs.len() implies (#[trigger] gs[g]).1.no_duplicates() by {
        lemma_flat_position(gs, g, gs.len());
        assert forall|a: int, b: int|
            0 <= a < gs[g].1.len() && 0 <= b < gs[g].1.len() && a != b implies gs[g].1[a]
            != gs[g].1[b] by {
            let at = un.len() + flat(gs, g as nat).len();
            assert(all[at + a] == gs[g].1[a]);
            assert(all[at + b] == gs[g].1[b]);
        }
    }
    assert forall|g: int, h: int, k: int, m: int|
        0 <= g < h < gs.len() && 0 <= k < gs[g].1.len() && 0 <= m < gs[h].1.len() implies
    #[trigger] gs[g].1[k] != #[trigger] gs[h].1[m] by {
        lemma_flat_position(gs, g, gs.len());
        lemma_flat_position(gs, h, gs.len());
        lemma_flat_position(gs, g, h as nat);
        assert(all[un.len() + flat(gs, g as nat).len() + k] == gs[g].1[k]);
        assert(all[un.len() + flat(gs, h as nat).len() + m] == gs[h].1[m]);
    }
}

/// Where the items of group `g` lie.
proof fn lemma_flat_position(gs: Seq<(VoxelKey, Seq<usize>)>, g: int, n: nat)
    requires
        0 <= g < n <= gs.len(),
    ensures
        flat(gs, g as nat).len() + gs[g].1.len() <= flat(gs, n).len(),
        forall|m: int|
            0 <= m < gs[g].1.len() ==> flat(gs, n)[flat(gs, g as nat).len() + m]
                == #[trigger] gs[g].1[m],
    decreases n,
{
    if g < n - 1 {
        lemma_flat_position(gs, g, (n - 1) as nat);
        let a = flat(gs, (n - 1) as nat);
        let b = flat(gs, n);
        assert forall|m: int| 0 <= m < gs[g].1.len() implies b[flat(gs, g as nat).len() + m]
            == #[trigger] gs[g].1[m] by {
            assert(a[flat(gs, g as nat).len() + m] == gs[g].1[m]);
        }
    }
}

/// Builds all parents from level `actual_max_depth - 1` up to `min_level`, each
/// from the nodes one level below it.
///
/// With `min_level = 0` this goes all the way to the root of the octree. A
/// positive `min_level` leaves coarser ancestors to a later merge. No node may
/// lie below another one to begin with.
pub fn bottom_up_levels<F: Fn(VoxelKey) -> VoxelGrid>(
    nodes: Vec<Node>,
    actual_max_depth: u32,
    min_level: u32,
    geometry: &F,
) -> (out: Vec<Node>)
    requires
        actual_max_depth <= i32::MAX,
        is_geometry(*geometry),
        no_ancestor_upto(keys_of(node_views(nodes@)), actual_max_depth - 1),
    ensures
        node_views(out@) == levels(
            grids(*geometry),
            node_views(nodes@),
            actual_max_depth as int,
            min_level as int,
        ),
{
    let ghost all = levels(
        grids(*geometry),
        node_views(nodes@),
        actual_max_depth as int,
        min_level as int,
    );
    let mut nodes = nodes;
    let mut d: u32 = actual_max_depth;
    while d > min_level
        invariant
            d <= actual_max_depth <= i32::MAX,
            is_geometry(*geometry),
            all == levels(grids(*geometry), node_views(nodes@), d as int, min_level as int),
        decreases d,
    {
        d = d - 1;
        nodes = sample_level(nodes, d, geometry);
    }
    nodes
}

// What holds of the nodes that come out.
/// Every node has points.
pub open spec fn all_filled(nodes: Seq<NodeView>) -> bool {
    forall|i: int| 0 <= i < nodes.len() ==> (#[trigger] nodes[i]).1.len() > 0
}

/// The points of node `i`.
spec fn held_by(nodes: Seq<NodeView>) -> spec_fn(usize) -> Multiset<PointView> {
    |i: usize| nodes[i as int].1.to_multiset()
}

pub proof fn lemma_total_concat(a: Seq<NodeView>, b: Seq<NodeView>)
    ensures
        total_points(a + b) == total_points(a).add(total_points(b)),
    decreases b.len(),
{
    if b.len() == 0 {
        assert(a + b =~= a);
    } else {
        assert((a + b).drop_last() =~= a + b.drop_last());
        lemma_total_concat(a, b.drop_last());
    }
    assert(total_points(a + b) =~= total_points(a).add(total_points(b)));
}

proof fn lemma_total_select(nodes: Seq<NodeView>, sel: Seq<usize>)
    ensures
        total_points(sel.map_values(|i: usize| nodes[i as int])) == gathered(held_by(nodes), sel),
    decreases sel.len(),
{
    let m = sel.map_values(|i: usize| nodes[i as int]);
    if sel.len() > 0 {
        lemma_total_select(nodes, sel.drop_last());
        assert(m.drop_last() =~= sel.drop_last().map_values(|i: usize| nodes[i as int]));
    }
}

proof fn lemma_total_all(nodes: Seq<NodeView>)
    requires
        nodes.len() <= usize::MAX,
    ensures
        gathered(held_by(nodes), all_indices(nodes.len())) == total_points(nodes),
{
    let all = all_indices(nodes.len());
    lemma_total_select(nodes, all);
    assert(all.map_values(|i: usize| nodes[i as int]) =~= nodes);
}

proof fn lemma_gathered_sum(nodes: Seq<NodeView>, members: Seq<usize>, n: nat)
    requires
        n <= members.len(),
    ensures
        gathered(held_by(nodes), members.take(n as int)) == sum_of(
            list_points(member_points(nodes, members)),
            n,
        ),
    decreases n,
{
    if n == 0 {
        assert(members.take(0) =~= Seq::<usize>::empty());
    } else {
        lemma_gathered_sum(nodes, members, (n - 1) as nat);
        assert(members.take(n as int).drop_last() =~= members.take(n - 1));
    }
}

proof fn lemma_total_thinned(
    grid: VoxelGrid,
    nodes: Seq<NodeView>,
    members: Seq<usize>,
    n: nat,
)
    ensures
        total_points(thinned(grid, nodes, members, n)) == sum_of(
            |c: int|
                child_of_children(grid, member_points(nodes, members), c).to_multiset(),
            n,
        ),
    decreases n,
{
    broadcast use vstd::seq_lib::group_to_multiset_ensures;

    let shares = |c: int|
        child_of_children(grid, member_points(nodes, members), c).to_multiset();
    if n > 0 {
        lemma_total_thinned(grid, nodes, members, (n - 1) as nat);
        let left = child_of_children(grid, member_points(nodes, members), n - 1);
        let t = thinned(grid, nodes, members, n);
        if left.len() > 0 {
            assert(t.drop_last() =~= thinned(grid, nodes, members, (n - 1) as nat));
        } else {
            vstd::seq_lib::to_multiset_len(left);
            assert(left.to_multiset() =~= Multiset::<PointView>::empty());
        }
        assert(total_points(t) =~= sum_of(shares, n));
    }
}

/// A family has the points of its members.
proof fn lemma_total_family(
    grid: VoxelGrid,
    nodes: Seq<NodeView>,
    group: (VoxelKey, Seq<usize>),
)
    requires
        group.1.len() <= usize::MAX,
        tag_children(member_points(nodes, group.1)).len() <= usize::MAX,
    ensures
        total_points(family(grid, nodes, group)) == gathered(held_by(nodes), group.1),
{
    broadcast use vstd::seq_lib::group_to_multiset_ensures;

    let members = group.1;
    let lists = member_points(nodes, members);
    law_sample_conserves(grid, lists);
    lemma_total_thinned(grid, nodes, members, members.len());
    lemma_gathered_sum(nodes, members, members.len());
    assert(members.take(members.len() as int) =~= members);
    let own = parent_of_children(grid, lists);
    let f = family(grid, nodes, group);
    if own.len() > 0 {
        assert(f.drop_last() =~= thinned(grid, nodes, members, members.len()));
    } else {
        vstd::seq_lib::to_multiset_len(own);
        assert(own.to_multiset() =~= Multiset::<PointView>::empty());
    }
    assert(total_points(f) =~= gathered(held_by(nodes), members));
}

/// The number of tagged points is the number of the nodes' points.
proof fn lemma_tagged_len(nodes: Seq<NodeView>, members: Seq<usize>)
    ensures
        tag_children(member_points(nodes, members)).len() == gathered(
            held_by(nodes),
            members,
        ).len(),
    decreases members.len(),
{
    let lists = member_points(nodes, members);
    if members.len() > 0 {
        lemma_tagged_len(nodes, members.drop_last());
        assert(lists.drop_last() =~= member_points(nodes, members.drop_last()));
        vstd::seq_lib::to_multiset_len(lists.last());
    }
}

proof fn lemma_total_families(
    grid_of: spec_fn(VoxelKey) -> VoxelGrid,
    nodes: Seq<NodeView>,
    gs: Seq<(VoxelKey, Seq<usize>)>,
    n: nat,
)
    requires
        n <= gs.len(),
        gathered_groups(held_by(nodes), gs).len() <= usize::MAX,
        forall|g: int| 0 <= g < gs.len() ==> (#[trigger] gs[g]).1.len() <= usize::MAX,
    ensures
        total_points(families(grid_of, nodes, gs, n)) == gathered_groups(
            held_by(nodes),
            gs.take(n as int),
        ),
    decreases n,
{
    if n == 0 {
        assert(gs.take(0) =~= Seq::<(VoxelKey, Seq<usize>)>::empty());
    } else {
        let m = (n - 1) as nat;
        lemma_total_families(grid_of, nodes, gs, m);
        let g = gs[n - 1];
        let more = gs.take(n as int);
        assert(more.drop_last() =~= gs.take(n - 1));
        assert(more.last() == g);
        lemma_gathered_prefix(held_by(nodes), gs, n);
        lemma_tagged_len(nodes, g.1);
        lemma_total_family(grid_of(g.0), nodes, g);
        lemma_total_concat(
            families(grid_of, nodes, gs, m),
            family(grid_of(g.0), nodes, g),
        );
    }
}

/// Fewer groups hold no more.
proof fn lemma_gathered_prefix(
    held: spec_fn(usize) -> Multiset<PointView>,
    gs: Seq<(VoxelKey, Seq<usize>)>,
    n: nat,
)
    requires
        n <= gs.len(),
    ensures
        gathered_groups(held, gs.take(n as int)).len() <= gathered_groups(held, gs).len(),
    decreases gs.len() - n,
{
    if n < gs.len() {
        lemma_gathered_prefix(held, gs, n + 1);
        let more = gs.take(n as int + 1);
        assert(more.drop_last() =~= gs.take(n as int));
    } else {
        assert(gs.take(n as int) =~= gs);
    }
}

/// Nodes that all have points are no more than their points.
pub proof fn lemma_filled_len(nodes: Seq<NodeView>)
    requires
        all_filled(nodes),
    ensures
        nodes.len() <= total_points(nodes).len(),
    decreases nodes.len(),
{
    if nodes.len() > 0 {
        let init = nodes.drop_last();
        assert forall|i: int| 0 <= i < init.len() implies (#[trigger] init[i]).1.len() > 0 by {
            assert(init[i] == nodes[i]);
        }
        lemma_filled_len(init);
        assert(nodes[nodes.len() - 1].1.len() > 0);
        vstd::seq_lib::to_multiset_len(nodes.last().1);
    }
}

proof fn lemma_thinned_filled(
    grid: VoxelGrid,
    nodes: Seq<NodeView>,
    members: Seq<usize>,
    n: nat,
)
    ensures
        all_filled(thinned(grid, nodes, members, n)),
    decreases n,
{
    if n > 0 {
        lemma_thinned_filled(grid, nodes, members, (n - 1) as nat);
    }
}

proof fn lemma_families_filled(
    grid_of: spec_fn(VoxelKey) -> VoxelGrid,
    nodes: Seq<NodeView>,
    gs: Seq<(VoxelKey, Seq<usize>)>,
    n: nat,
)
    ensures
        all_filled(families(grid_of, nodes, gs, n)),
    decreases n,
{
    if n > 0 {
        lemma_families_filled(grid_of, nodes, gs, (n - 1) as nat);
        let g = gs[n - 1];
        lemma_thinned_filled(grid_of(g.0), nodes, g.1, g.1.len());
    }
}

/// One level keeps every point, and leaves no node without points.
pub proof fn lemma_level_conserves(
    grid_of: spec_fn(VoxelKey) -> VoxelGrid,
    nodes: Seq<NodeView>,
    d: int,
)
    requires
        all_filled(nodes),
        total_points(nodes).len() <= usize::MAX,
    ensures
        total_points(level_step(grid_of, nodes, d)) == total_points(nodes),
        all_filled(level_step(grid_of, nodes, d)),
{
    let all = all_indices(nodes.len());
    let root = parent_at(nodes, d);
    let gs = group_by(all, root);
    let un = ungrouped(all, root);
    let held = held_by(nodes);
    lemma_filled_len(nodes);
    lemma_total_all(nodes);
    lemma_gathered_split(held, all, root);
    lemma_group_by(all, root);
    lemma_group_bounds(all, root, nodes.len());
    lemma_group_sizes(all, root);
    assert(gathered_groups(held, gs).len() <= total_points(nodes).len());
    lemma_total_families(grid_of, nodes, gs, gs.len());
    assert(gs.take(gs.len() as int) =~= gs);
    lemma_total_select(nodes, un);
    let first = un.map_values(|i: usize| nodes[i as int]);
    lemma_total_concat(first, families(grid_of, nodes, gs, gs.len()));
    lemma_families_filled(grid_of, nodes, gs, gs.len());
    assert forall|i: int| 0 <= i < first.len() implies (#[trigger] first[i]).1.len() > 0 by {
        assert(un[i] < nodes.len());
        assert(nodes[un[i] as int].1.len() > 0);
    }
}

/// A group has no more items than there are.
proof fn lemma_group_sizes(sel: Seq<usize>, root: spec_fn(usize) -> Option<VoxelKey>)
    ensures
        forall|g: int|
            0 <= g < group_by(sel, root).len() ==> (#[trigger] group_by(sel, root)[g]).1.len()
                <= sel.len(),
{
    let gs = group_by(sel, root);
    lemma_group_by(sel, root);
    vstd::seq_lib::to_multiset_len(sel);
    assert forall|g: int| 0 <= g < gs.len() implies (#[trigger] gs[g]).1.len() <= sel.len() by {
        lemma_group_len(gs, g);
    }
}

proof fn lemma_group_len(gs: Seq<(VoxelKey, Seq<usize>)>, g: int)
    requires
        0 <= g < gs.len(),
    ensures
        gs[g].1.len() <= grouped_items(gs).len(),
    decreases gs.len(),
{
    vstd::seq_lib::to_multiset_len(gs[0].1);
    if g > 0 {
        assert(gs.drop_first()[g - 1] == gs[g]);
        lemma_group_len(gs.drop_first(), g - 1);
    }
}

/// Building parents bottom-up keeps every point in exactly one node.
pub proof fn law_levels_conserve(
    grid_of: spec_fn(VoxelKey) -> VoxelGrid,
    nodes: Seq<NodeView>,
    max: int,
    min: int,
)
    requires
        all_filled(nodes),
        total_points(nodes).len() <= usize::MAX,
    ensures
        total_points(levels(grid_of, nodes, max, min)) == total_points(nodes),
        all_filled(levels(grid_of, nodes, max, min)),
    decreases max - min,
{
    if max > min {
        lemma_level_conserves(grid_of, nodes, max - 1);
        law_levels_conserve(grid_of, level_step(grid_of, nodes, max - 1), max - 1, min);
    }
}

/// The key of node `i`.
spec fn key_held(nodes: Seq<NodeView>) -> spec_fn(usize) -> Multiset<VoxelKey> {
    |i: usize| Multiset::singleton(nodes[i as int].0)
}

proof fn lemma_keys_push(nodes: Seq<NodeView>, n: NodeView)
    ensures
        keys_of(nodes.push(n)).to_multiset() == keys_of(nodes).to_multiset().insert(n.0),
{
    broadcast use vstd::seq_lib::group_to_multiset_ensures;

    assert(keys_of(nodes.push(n)) =~= keys_of(nodes).push(n.0));
}

proof fn lemma_keys_select(nodes: Seq<NodeView>, sel: Seq<usize>)
    ensures
        keys_of(sel.map_values(|i: usize| nodes[i as int])).to_multiset() == gathered(
            key_held(nodes),
            sel,
        ),
    decreases sel.len(),
{
    let m = sel.map_values(|i: usize| nodes[i as int]);
    if sel.len() == 0 {
        broadcast use vstd::seq_lib::group_to_multiset_ensures;

        vstd::seq_lib::to_multiset_len(keys_of(m));
        assert(keys_of(m).to_multiset() =~= Multiset::<VoxelKey>::empty());
    } else {
        lemma_keys_select(nodes, sel.drop_last());
        let init = sel.drop_last().map_values(|i: usize| nodes[i as int]);
        assert(m =~= init.push(nodes[sel.last() as int]));
        lemma_keys_push(init, nodes[sel.last() as int]);
        assert(keys_of(m).to_multiset() =~= gathered(key_held(nodes), sel));
    }
}

proof fn lemma_keys_thinned(
    grid: VoxelGrid,
    nodes: Seq<NodeView>,
    members: Seq<usize>,
    n: nat,
)
    requires
        n <= members.len(),
    ensures
        keys_of(thinned(grid, nodes, members, n)).to_multiset().subset_of(
            gathered(key_held(nodes), members.take(n as int)),
        ),
    decreases n,
{
    let t = thinned(grid, nodes, members, n);
    if n == 0 {
        vstd::seq_lib::to_multiset_len(keys_of(t));
        assert(keys_of(t).to_multiset() =~= Multiset::<VoxelKey>::empty());
    } else {
        let m = (n - 1) as nat;
        lemma_keys_thinned(grid, nodes, members, m);
        assert(members.take(n as int).drop_last() =~= members.take(n - 1));
        let left = child_of_children(grid, member_points(nodes, members), n - 1);
        if left.len() > 0 {
            lemma_keys_push(
                thinned(grid, nodes, members, m),
                (nodes[members[n - 1] as int].0, left),
            );
        }
    }
}

/// The parents' keys.
spec fn group_keys(gs: Seq<(VoxelKey, Seq<usize>)>) -> Seq<VoxelKey> {
    gs.map_values(|g: (VoxelKey, Seq<usize>)| g.0)
}

proof fn lemma_keys_families(
    grid_of: spec_fn(VoxelKey) -> VoxelGrid,
    nodes: Seq<NodeView>,
    gs: Seq<(VoxelKey, Seq<usize>)>,
    n: nat,
)
    requires
        n <= gs.len(),
    ensures
        keys_of(families(grid_of, nodes, gs, n)).to_multiset().subset_of(
            gathered_groups(key_held(nodes), gs.take(n as int)).add(
                group_keys(gs.take(n as int)).to_multiset(),
            ),
        ),
    decreases n,
{
    broadcast use vstd::seq_lib::group_to_multiset_ensures;

    let f = families(grid_of, nodes, gs, n);
    if n == 0 {
        vstd::seq_lib::to_multiset_len(keys_of(f));
        assert(keys_of(f).to_multiset() =~= Multiset::<VoxelKey>::empty());
    } else {
        let m = (n - 1) as nat;
        lemma_keys_families(grid_of, nodes, gs, m);
        let g = gs[n - 1];
        let grid = grid_of(g.0);
        let more = gs.take(n as int);
        assert(more.drop_last() =~= gs.take(n - 1));
        assert(more.last() == g);
        lemma_keys_thinned(grid, nodes, g.1, g.1.len());
        assert(g.1.take(g.1.len() as int) =~= g.1);
        let t = thinned(grid, nodes, g.1, g.1.len());
        let own = parent_of_children(grid, member_points(nodes, g.1));
        lemma_keys_push(t, (g.0, own));
        let a = families(grid_of, nodes, gs, m);
        let b = family(grid, nodes, g);
        assert(keys_of(f) =~= keys_of(a) + keys_of(b));
        vstd::seq_lib::lemma_multiset_commutative(keys_of(a), keys_of(b));
        assert(group_keys(more) =~= group_keys(gs.take(n - 1)).push(g.0));
    }
}

/// One level makes no key twice, and puts no node above another one at a
/// coarser level.
pub proof fn lemma_level_keys(
    grid_of: spec_fn(VoxelKey) -> VoxelGrid,
    nodes: Seq<NodeView>,
    d: int,
)
    requires
        d >= 0,
        nodes.len() <= usize::MAX,
        no_ancestor_upto(keys_of(nodes), d),
    ensures
        no_ancestor_upto(keys_of(level_step(grid_of, nodes, d)), d - 1),
        forall|k: VoxelKey| #[trigger]
            keys_of(level_step(grid_of, nodes, d)).contains(k) ==> keys_of(nodes).contains(k)
                || (k.level == d && exists|c: VoxelKey| #[trigger]
                keys_of(nodes).contains(c) && c.level == d + 1 && parent_key(c) == k),
{
    broadcast use vstd::seq_lib::group_to_multiset_ensures;

    let all = all_indices(nodes.len());
    let root = parent_at(nodes, d);
    let gs = group_by(all, root);
    let un = ungrouped(all, root);
    let held = key_held(nodes);
    let keys = keys_of(nodes);
    let out = level_step(grid_of, nodes, d);
    let first = un.map_values(|i: usize| nodes[i as int]);
    let fams = families(grid_of, nodes, gs, gs.len());
    let pkeys = group_keys(gs);
    lemma_keys_select(nodes, all);
    assert(all.map_values(|i: usize| nodes[i as int]) =~= nodes);
    lemma_keys_select(nodes, un);
    lemma_gathered_split(held, all, root);
    lemma_keys_families(grid_of, nodes, gs, gs.len());
    assert(gs.take(gs.len() as int) =~= gs);
    assert(keys_of(out) =~= keys_of(first) + keys_of(fams));
    vstd::seq_lib::lemma_multiset_commutative(keys_of(first), keys_of(fams));
    assert(keys_of(out).to_multiset().subset_of(keys.to_multiset().add(pkeys.to_multiset())));
    lemma_group_by(all, root);
    lemma_group_bounds(all, root, nodes.len());
    assert(pkeys.no_duplicates()) by {
        assert forall|a: int, b: int| 0 <= a < pkeys.len() && 0 <= b < pkeys.len() && a
            != b implies pkeys[a] != pkeys[b] by {
            if a < b {
                assert(crate::key::key_lt(gs[a].0, gs[b].0));
            } else {
                assert(crate::key::key_lt(gs[b].0, gs[a].0));
            }
        }
    }
    assert forall|k: VoxelKey| pkeys.contains(k) implies k.level == d && exists|c: VoxelKey|
        #[trigger]
        keys.contains(c) && c.level == d + 1 && parent_key(c) == k by {
        let g = choose|g: int| 0 <= g < pkeys.len() && pkeys[g] == k;
        assert(gs[g].1.len() > 0);
        let m = gs[g].1[0];
        assert(m < nodes.len());
        assert(root(m) == Some(gs[g].0));
        assert(keys[m as int] == nodes[m as int].0);
        assert(keys.contains(nodes[m as int].0));
    }
    keys.lemma_multiset_has_no_duplicates();
    pkeys.lemma_multiset_has_no_duplicates();
    assert forall|k: VoxelKey| #[trigger] keys_of(out).contains(k) implies {
        &&& keys.contains(k) || pkeys.contains(k)
        &&& keys_of(out).to_multiset().count(k) == 1
    } by {
        let bag = keys_of(out).to_multiset();
        assert(bag.count(k) > 0);
        assert(bag.count(k) <= keys.to_multiset().count(k) + pkeys.to_multiset().count(k));
        if keys.contains(k) && pkeys.contains(k) {
            let c = choose|c: VoxelKey| #[trigger]
                keys.contains(c) && c.level == d + 1 && parent_key(c) == k;
            reveal_with_fuel(ancestor, 3);
            assert(ancestor(c, d) == k);
        }
    }
    keys_of(out).lemma_multiset_has_no_duplicates_conv();
    let okeys = keys_of(out);
    assert forall|a: VoxelKey, b: VoxelKey|
        #![trigger okeys.contains(a), okeys.contains(b)]
        okeys.contains(a) && okeys.contains(b) && a != b && a.level <= d - 1 implies ancestor(
        b,
        a.level as int,
    ) != a by {
        assert(keys.contains(a));
        if !keys.contains(b) {
            let c = choose|c: VoxelKey| #[trigger]
                keys.contains(c) && c.level == d + 1 && parent_key(c) == b;
            assert(ancestor(c, a.level as int) == ancestor(parent_key(c), a.level as int));
        }
    }
}

/// Building parents bottom-up makes no key twice; every key that comes out is
/// that of a node that went in, or lies above one, no higher than `min`.
pub proof fn law_levels_keys(
    grid_of: spec_fn(VoxelKey) -> VoxelGrid,
    nodes: Seq<NodeView>,
    max: int,
    min: int,
)
    requires
        0 <= min,
        all_filled(nodes),
        total_points(nodes).len() <= usize::MAX,
        no_ancestor_upto(keys_of(nodes), max - 1),
    ensures
        keys_of(levels(grid_of, nodes, max, min)).no_duplicates(),
        forall|k: VoxelKey| #[trigger]
            keys_of(levels(grid_of, nodes, max, min)).contains(k) ==> keys_of(nodes).contains(k)
                || (k.level >= min && exists|c: VoxelKey| #[trigger]
                keys_of(nodes).contains(c) && c.level > k.level && ancestor(c, k.level as int)
                    == k),
    decreases max - min,
{
    if max > min {
        let d = max - 1;
        let next = level_step(grid_of, nodes, d);
        lemma_filled_len(nodes);
        lemma_level_keys(grid_of, nodes, d);
        lemma_level_conserves(grid_of, nodes, d);
        law_levels_keys(grid_of, next, d, min);
        let out = keys_of(levels(grid_of, nodes, max, min));
        assert forall|k: VoxelKey| #[trigger] out.contains(k) implies keys_of(nodes).contains(k)
            || (k.level >= min && exists|c: VoxelKey| #[trigger]
            keys_of(nodes).contains(c) && c.level > k.level && ancestor(c, k.level as int)
                == k) by {
            if !keys_of(nodes).contains(k) {
                if keys_of(next).contains(k) {
                    let c = choose|c: VoxelKey| #[trigger]
                        keys_of(nodes).contains(c) && c.level == d + 1 && parent_key(c) == k;
                    reveal_with_fuel(ancestor, 3);
                    assert(ancestor(c, k.level as int) == k);
                } else {
                    let b = choose|b: VoxelKey| #[trigger]
                        keys_of(next).contains(b) && b.level > k.level && ancestor(
                            b,
                            k.level as int,
                        ) == k;
                    if !keys_of(nodes).contains(b) {
                        let c = choose|c: VoxelKey| #[trigger]
                            keys_of(nodes).contains(c) && c.level == d + 1 && parent_key(c) == b;
                        assert(ancestor(c, k.level as int) == ancestor(
                            parent_key(c),
                            k.level as int,
                        ));
                    }
                }
            }
        }
    }
}

/// Every point lies in the voxel of its node: the node's key is the ancestor of
/// the point's own key.
pub open spec fn points_inside(
    nodes: Seq<NodeView>,
    loc: spec_fn(PointView) -> VoxelKey,
) -> bool {
    forall|i: int, p: PointView|
        0 <= i < nodes.len() && #[trigger] nodes[i].1.contains(p) ==> {
            &&& loc(p).level >= nodes[i].0.level
            &&& ancestor(loc(p), nodes[i].0.level as int) == nodes[i].0
        }
}

pub proof fn lemma_inside_concat(
    a: Seq<NodeView>,
    b: Seq<NodeView>,
    loc: spec_fn(PointView) -> VoxelKey,
)
    requires
        points_inside(a, loc),
        points_inside(b, loc),
    ensures
        points_inside(a + b, loc),
{
    assert forall|i: int, p: PointView|
        0 <= i < (a + b).len() && #[trigger] (a + b)[i].1.contains(p) implies {
        &&& loc(p).level >= (a + b)[i].0.level
        &&& ancestor(loc(p), (a + b)[i].0.level as int) == (a + b)[i].0
    } by {
        if i < a.len() {
            assert(a[i].1.contains(p));
        } else {
            assert(b[i - a.len()].1.contains(p));
        }
    }
}

proof fn lemma_inside_family(
    grid: VoxelGrid,
    nodes: Seq<NodeView>,
    group: (VoxelKey, Seq<usize>),
    d: int,
    loc: spec_fn(PointView) -> VoxelKey,
)
    requires
        d >= 0,
        points_inside(nodes, loc),
        group.1.len() <= usize::MAX,
        tag_children(member_points(nodes, group.1)).len() <= usize::MAX,
        forall|m: int|
            0 <= m < group.1.len() ==> {
                &&& #[trigger] group.1[m] < nodes.len()
                &&& nodes[group.1[m] as int].0.level == d + 1
                &&& parent_key(nodes[group.1[m] as int].0) == group.0
            },
    ensures
        points_inside(family(grid, nodes, group), loc),
{
    let members = group.1;
    let lists = member_points(nodes, members);
    lemma_inside_thinned(grid, nodes, members, members.len(), loc);
    let own = parent_of_children(grid, lists);
    let t = thinned(grid, nodes, members, members.len());
    if own.len() > 0 {
        let f = t.push((group.0, own));
        assert forall|i: int, p: PointView| 0 <= i < f.len() && #[trigger] f[i].1.contains(
            p,
        ) implies {
            &&& loc(p).level >= f[i].0.level
            &&& ancestor(loc(p), f[i].0.level as int) == f[i].0
        } by {
            if i < t.len() {
                assert(t[i].1.contains(p));
            } else {
                let j = choose|j: int| 0 <= j < own.len() && own[j] == p;
                if members.len() > 0 {
                    law_sample_sources(grid, lists, 0);
                } else {
                    lemma_empty_parent(grid, lists);
                }
                let k = choose|k: int|
                    0 <= k < lists.len() && (#[trigger] lists[k]).contains(
                        parent_of_children(grid, lists)[j],
                    );
                let m = members[k] as int;
                assert(nodes[m].1.contains(p));
                assert(ancestor(loc(p), d + 1) == nodes[m].0);
                law_ancestor_of_ancestor(loc(p), d + 1, d);
                reveal_with_fuel(ancestor, 3);
                assert(ancestor(nodes[m].0, d) == group.0);
            }
        }
    }
}

/// Without children a parent takes nothing.
proof fn lemma_empty_parent(grid: VoxelGrid, children: Seq<Seq<PointView>>)
    requires
        children.len() == 0,
    ensures
        parent_of_children(grid, children).len() == 0,
{
    law_sample_conserves(grid, children);
    let bag = parent_of_children(grid, children).to_multiset();
    let none = Multiset::<PointView>::empty();
    assert(bag.add(none) == none);
    assert(bag =~= none) by {
        assert forall|v: PointView| bag.count(v) == 0 by {
            assert(bag.add(none).count(v) == 0);
        }
    }
    vstd::seq_lib::to_multiset_len(parent_of_children(grid, children));
}

proof fn lemma_inside_thinned(
    grid: VoxelGrid,
    nodes: Seq<NodeView>,
    members: Seq<usize>,
    n: nat,
    loc: spec_fn(PointView) -> VoxelKey,
)
    requires
        n <= members.len() <= usize::MAX,
        points_inside(nodes, loc),
        tag_children(member_points(nodes, members)).len() <= usize::MAX,
        forall|m: int| 0 <= m < members.len() ==> #[trigger] members[m] < nodes.len(),
    ensures
        points_inside(thinned(grid, nodes, members, n), loc),
    decreases n,
{
    if n > 0 {
        let m = (n - 1) as nat;
        lemma_inside_thinned(grid, nodes, members, m, loc);
        let lists = member_points(nodes, members);
        let left = child_of_children(grid, lists, n - 1);
        let a = thinned(grid, nodes, members, m);
        let t = thinned(grid, nodes, members, n);
        law_sample_sources(grid, lists, n - 1);
        assert forall|i: int, p: PointView| 0 <= i < t.len() && #[trigger] t[i].1.contains(
            p,
        ) implies {
            &&& loc(p).level >= t[i].0.level
            &&& ancestor(loc(p), t[i].0.level as int) == t[i].0
        } by {
            if i < a.len() {
                assert(a[i].1.contains(p));
            } else {
                let j = choose|j: int| 0 <= j < left.len() && left[j] == p;
                assert(lists[n - 1].contains(left[j]));
                assert(nodes[members[n - 1] as int].1.contains(p));
            }
        }
    }
}

proof fn lemma_inside_families(
    grid_of: spec_fn(VoxelKey) -> VoxelGrid,
    nodes: Seq<NodeView>,
    d: int,
    loc: spec_fn(PointView) -> VoxelKey,
    n: nat,
)
    requires
        d >= 0,
        nodes.len() <= usize::MAX,
        total_points(nodes).len() <= usize::MAX,
        points_inside(nodes, loc),
        n <= group_by(all_indices(nodes.len()), parent_at(nodes, d)).len(),
    ensures
        points_inside(
            families(
                grid_of,
                nodes,
                group_by(all_indices(nodes.len()), parent_at(nodes, d)),
                n,
            ),
            loc,
        ),
    decreases n,
{
    let all = all_indices(nodes.len());
    let root = parent_at(nodes, d);
    let gs = group_by(all, root);
    if n > 0 {
        let m = (n - 1) as nat;
        lemma_inside_families(grid_of, nodes, d, loc, m);
        let g = gs[n - 1];
        lemma_group_by(all, root);
        lemma_group_bounds(all, root, nodes.len());
        lemma_group_sizes(all, root);
        lemma_total_all(nodes);
        lemma_gathered_split(held_by(nodes), all, root);
        lemma_gathered_prefix(held_by(nodes), gs, n);
        assert(gs.take(n as int).drop_last() =~= gs.take(n - 1));
        assert(gs.take(n as int).last() == g);
        lemma_tagged_len(nodes, g.1);
        assert forall|j: int| 0 <= j < g.1.len() implies {
            &&& #[trigger] g.1[j] < nodes.len()
            &&& nodes[g.1[j] as int].0.level == d + 1
            &&& parent_key(nodes[g.1[j] as int].0) == g.0
        } by {
            assert(gs[n - 1].1[j] < nodes.len());
            assert(root(gs[n - 1].1[j]) == Some(g.0));
        }
        lemma_inside_family(grid_of(g.0), nodes, g, d, loc);
        lemma_inside_concat(
            families(grid_of, nodes, gs, m),
            family(grid_of(g.0), nodes, g),
            loc,
        );
    }
}

/// Building parents bottom-up keeps every point inside the voxel of its node.
pub proof fn law_levels_points_inside(
    grid_of: spec_fn(VoxelKey) -> VoxelGrid,
    nodes: Seq<NodeView>,
    max: int,
    min: int,
    loc: spec_fn(PointView) -> VoxelKey,
)
    requires
        0 <= min,
        all_filled(nodes),
        total_points(nodes).len() <= usize::MAX,
        points_inside(nodes, loc),
    ensures
        points_inside(levels(grid_of, nodes, max, min), loc),
    decreases max - min,
{
    if max > min {
        let d = max - 1;
        let all = all_indices(nodes.len());
        let root = parent_at(nodes, d);
        let gs = group_by(all, root);
        let un = ungrouped(all, root);
        lemma_filled_len(nodes);
        lemma_inside_families(grid_of, nodes, d, loc, gs.len());
        let first = un.map_values(|i: usize| nodes[i as int]);
        lemma_group_bounds(all, root, nodes.len());
        assert forall|i: int, p: PointView| 0 <= i < first.len() && #[trigger] first[i].1.contains(
            p,
        ) implies {
            &&& loc(p).level >= first[i].0.level
            &&& ancestor(loc(p), first[i].0.level as int) == first[i].0
        } by {
            assert(un[i] < nodes.len());
            assert(nodes[un[i] as int].1.contains(p));
        }
        lemma_inside_concat(first, families(grid_of, nodes, gs, gs.len()), loc);
        lemma_level_conserves(grid_of, nodes, d);
        law_levels_points_inside(grid_of, level_step(grid_of, nodes, d), d, min, loc);
    }
}

} // verus!
