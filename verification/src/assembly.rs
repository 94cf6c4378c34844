//! What the node store holds while the chunks' octrees are merged.

use crate::key::{
    ancestor, law_ancestor_of_ancestor, lemma_ancestor_level, parent_key, VoxelKey,
};
use crate::merge::{
    law_schedule_keys, law_schedule_tasks, lemma_level_keys_level, lemma_tasks, level_keys,
    level_tasks, max_level, schedule, schedule_from, task_parents, MergeTask, TaskView,
};
use crate::octree::{keys_of, node_views, points_inside, total_points, Node, NodeView};
use crate::point::{point_views, PointView, RawPoint};
use crate::sampling::{
    child_of_children, law_sample_conserves, law_sample_sources, lemma_tags, list_points,
    lists_views, parent_of_children, sample_children, sum_of, tag_children, untagged, VoxelGrid,
};
use vstd::multiset::Multiset;
use vstd::prelude::*;

verus! {

/// What a store holds: the points last written for each key.
pub type Stored = Map<VoxelKey, Seq<PointView>>;

/// The points that a store gives for a key: none where nothing was written.
pub open spec fn held_at(s: Stored, k: VoxelKey) -> Seq<PointView> {
    if s.contains_key(k) {
        s[k]
    } else {
        Seq::empty()
    }
}

/// The points that a store gives for several keys.
pub open spec fn lists_at(s: Stored, keys: Seq<VoxelKey>) -> Seq<Seq<PointView>> {
    keys.map_values(|k: VoxelKey| held_at(s, k))
}

/// All points that a store gives for a list of keys.
pub open spec fn held(s: Stored, keys: Seq<VoxelKey>) -> Multiset<PointView>
    decreases keys.len(),
{
    if keys.len() == 0 {
        Multiset::empty()
    } else {
        held(s, keys.drop_last()).add(held_at(s, keys.last()).to_multiset())
    }
}

/// The store after nodes were written, one after another.
pub open spec fn after_writes(s: Stored, ws: Seq<NodeView>) -> Stored
    decreases ws.len(),
{
    if ws.len() == 0 {
        s
    } else {
        after_writes(s, ws.drop_last()).insert(ws.last().0, ws.last().1)
    }
}

/// The children of a task with what the sample leaves them.
pub open spec fn thinned_children(
    grid: VoxelGrid,
    children: Seq<VoxelKey>,
    lists: Seq<Seq<PointView>>,
) -> Seq<NodeView> {
    Seq::new(children.len(), |c: int| (children[c], child_of_children(grid, lists, c)))
}

/// The nodes that a merge task writes, where its children hold `lists`: the
/// thinned children, then the parent unless it has no points. Where there are
/// no points at all, nothing is written.
pub open spec fn task_writes(
    grid: VoxelGrid,
    task: TaskView,
    lists: Seq<Seq<PointView>>,
) -> Seq<NodeView> {
    let own = parent_of_children(grid, lists);
    if tag_children(lists).len() == 0 {
        Seq::empty()
    } else if own.len() > 0 {
        thinned_children(grid, task.1, lists).push((task.0, own))
    } else {
        thinned_children(grid, task.1, lists)
    }
}

/// Builds a parent from its children: returns the nodes to write, in order.
pub fn merge_writes(grid: &VoxelGrid, task: &MergeTask, children: &Vec<Vec<RawPoint>>) -> (out: Vec<
    Node,
>)
    requires
        grid.wf(),
        task.children@.len() == children@.len(),
    ensures
        node_views(out@) == task_writes(
            *grid,
            (task.parent, task.children@),
            lists_views(children@),
        ),
{
    let ghost lists = lists_views(children@);
    let ghost want = thinned_children(*grid, task.children@, lists);
    let mut out: Vec<Node> = Vec::new();
    let mut i: usize = 0;
    while i < children.len() && children[i].len() == 0
        invariant
            i <= children@.len(),
            lists == lists_views(children@),
            tag_children(lists.take(i as int)).len() == 0,
        decreases children@.len() - i,
    {
        proof {
            assert(lists.take(i + 1).drop_last() =~= lists.take(i as int));
            assert(lists.take(i + 1).last() == point_views(children@[i as int]@));
        }
        i = i + 1;
    }
    if i == children.len() {
        assert(lists.take(i as int) =~= lists);
        assert(node_views(out@) =~= Seq::<NodeView>::empty());
        return out;
    }
    proof {
        assert(lists[i as int].len() > 0);
        lemma_some_points(lists, i as int);
    }
    let (parent, left) = sample_children(grid, children);
    let mut left = left;
    let mut c: usize = 0;
    while c < task.children.len()
        invariant
            c <= task.children@.len(),
            left@.len() == task.children@.len(),
            want == thinned_children(*grid, task.children@, lists),
            forall|k: int|
                c <= k < left@.len() ==> point_views((#[trigger] left@[k])@) == child_of_children(
                    *grid,
                    lists,
                    k,
                ),
            node_views(out@) =~= want.take(c as int),
        decreases task.children@.len() - c,
    {
        let mut points: Vec<RawPoint> = Vec::new();
        core::mem::swap(&mut left[c], &mut points);
        let node = Node { key: task.children[c], points };
        proof {
            assert(node@ == want[c as int]);
            assert(node_views(out@.push(node)) =~= node_views(out@).push(node@));
            assert(want.take(c + 1) =~= want.take(c as int).push(want[c as int]));
        }
        out.push(node);
        c = c + 1;
    }
    assert(want.take(c as int) =~= want);
    assert(parent@.len() == point_views(parent@).len());
    if parent.len() > 0 {
        let node = Node { key: task.parent, points: parent };
        assert(node_views(out@.push(node)) =~= want.push(node@));
        out.push(node);
    }
    out
}

/// Where one list has points, there are points to sample.
pub proof fn lemma_some_points(lists: Seq<Seq<PointView>>, i: int)
    requires
        0 <= i < lists.len(),
        lists[i].len() > 0,
    ensures
        tag_children(lists).len() > 0,
    decreases lists.len(),
{
    if i < lists.len() - 1 {
        assert(lists.drop_last()[i] == lists[i]);
        lemma_some_points(lists.drop_last(), i);
    }
}

/// The store after a merge task.
pub open spec fn after_task(
    grid_of: spec_fn(VoxelKey) -> VoxelGrid,
    s: Stored,
    task: TaskView,
) -> Stored {
    after_writes(s, task_writes(grid_of(task.0), task, lists_at(s, task.1)))
}

/// The store after several merge tasks.
pub open spec fn after_tasks(
    grid_of: spec_fn(VoxelKey) -> VoxelGrid,
    s: Stored,
    tasks: Seq<TaskView>,
) -> Stored
    decreases tasks.len(),
{
    if tasks.len() == 0 {
        s
    } else {
        after_task(grid_of, after_tasks(grid_of, s, tasks.drop_last()), tasks.last())
    }
}

/// The store after the merge tasks of several levels.
pub open spec fn after_levels(
    grid_of: spec_fn(VoxelKey) -> VoxelGrid,
    s: Stored,
    levels: Seq<Seq<TaskView>>,
) -> Stored
    decreases levels.len(),
{
    if levels.len() == 0 {
        s
    } else {
        after_levels(grid_of, after_tasks(grid_of, s, levels[0]), levels.drop_first())
    }
}

// What is written and what is not.
pub proof fn lemma_unwritten(s: Stored, ws: Seq<NodeView>, k: VoxelKey)
    requires
        forall|i: int| 0 <= i < ws.len() ==> (#[trigger] ws[i]).0 != k,
    ensures
        held_at(after_writes(s, ws), k) == held_at(s, k),
    decreases ws.len(),
{
    if ws.len() > 0 {
        assert(ws[ws.len() - 1].0 != k);
        assert forall|i: int| 0 <= i < ws.drop_last().len() implies (#[trigger] ws.drop_last()[i]).0
            != k by {
            assert(ws[i].0 != k);
        }
        lemma_unwritten(s, ws.drop_last(), k);
    }
}

/// A write to a key that is not in the list.
proof fn lemma_held_elsewhere(s: Stored, keys: Seq<VoxelKey>, k: VoxelKey, v: Seq<PointView>)
    requires
        !keys.contains(k),
    ensures
        held(s.insert(k, v), keys) == held(s, keys),
    decreases keys.len(),
{
    if keys.len() > 0 {
        assert(keys[keys.len() - 1] != k);
        assert(!keys.drop_last().contains(k)) by {
            if keys.drop_last().contains(k) {
                let j = choose|j: int| 0 <= j < keys.len() - 1 && keys.drop_last()[j] == k;
                assert(keys[j] == k);
            }
        }
        lemma_held_elsewhere(s, keys.drop_last(), k, v);
    }
}

/// A write replaces what the key held.
proof fn lemma_held_insert(s: Stored, keys: Seq<VoxelKey>, k: VoxelKey, v: Seq<PointView>)
    requires
        keys.no_duplicates(),
        keys.contains(k),
    ensures
        held(s.insert(k, v), keys).add(held_at(s, k).to_multiset()) == held(s, keys).add(
            v.to_multiset(),
        ),
    decreases keys.len(),
{
    let init = keys.drop_last();
    let t = s.insert(k, v);
    let at = choose|j: int| 0 <= j < keys.len() && keys[j] == k;
    if keys.last() == k {
        assert(!init.contains(k)) by {
            if init.contains(k) {
                let j = choose|j: int| 0 <= j < init.len() && init[j] == k;
                assert(keys[j] == keys[keys.len() - 1]);
            }
        }
        lemma_held_elsewhere(s, init, k, v);
        assert(held_at(t, k) == v);
    } else {
        assert(init[at] == k);
        assert(init.contains(k));
        lemma_held_insert(s, init, k, v);
        assert(held_at(t, keys.last()) == held_at(s, keys.last()));
    }
    let own = held_at(s, k).to_multiset();
    let l = held(t, keys).add(own);
    let r = held(s, keys).add(v.to_multiset());
    assert forall|p: PointView| #[trigger] l.count(p) == r.count(p) by {
        assert(held(t, init).add(own).count(p) == held(t, init).count(p) + own.count(p));
        assert(held(s, init).add(v.to_multiset()).count(p) == held(s, init).count(p)
            + v.to_multiset().count(p));
        assert(held(t, keys).count(p) == held(t, init).count(p) + held_at(
            t,
            keys.last(),
        ).to_multiset().count(p));
        assert(held(s, keys).count(p) == held(s, init).count(p) + held_at(
            s,
            keys.last(),
        ).to_multiset().count(p));
    }
    assert(l =~= r);
}

/// Writes to distinct keys replace what the keys held.
pub proof fn lemma_held_writes(s: Stored, keys: Seq<VoxelKey>, ws: Seq<NodeView>)
    requires
        keys.no_duplicates(),
        keys_of(ws).no_duplicates(),
        forall|i: int| 0 <= i < ws.len() ==> keys.contains((#[trigger] ws[i]).0),
    ensures
        held(after_writes(s, ws), keys).add(held(s, keys_of(ws))) == held(s, keys).add(
            total_points(ws),
        ),
    decreases ws.len(),
{
    if ws.len() == 0 {
        assert(held(s, keys_of(ws)) =~= Multiset::empty());
        assert(held(s, keys).add(Multiset::empty()) =~= held(s, keys));
    } else {
        let init = ws.drop_last();
        let last = ws.last();
        let ks = keys_of(ws);
        assert(ks.drop_last() =~= keys_of(init));
        assert forall|i: int, j: int|
            0 <= i < keys_of(init).len() && 0 <= j < keys_of(init).len() && i != j implies keys_of(
            init,
        )[i] != keys_of(init)[j] by {
            assert(ks[i] != ks[j]);
        }
        assert forall|i: int| 0 <= i < init.len() implies keys.contains((#[trigger] init[i]).0) by {
            assert(keys.contains(ws[i].0));
        }
        lemma_held_writes(s, keys, init);
        let mid = after_writes(s, init);
        assert(keys.contains(ws[ws.len() - 1].0));
        lemma_held_insert(mid, keys, last.0, last.1);
        assert forall|i: int| 0 <= i < init.len() implies (#[trigger] init[i]).0 != last.0 by {
            assert(ks[i] != ks[ks.len() - 1]);
        }
        lemma_unwritten(s, init, last.0);
        lemma_replace_both(
            held(after_writes(s, ws), keys),
            held_at(s, last.0).to_multiset(),
            held(mid, keys),
            last.1.to_multiset(),
            held(s, keys_of(init)),
            held(s, keys),
            total_points(init),
        );
        assert(held(s, ks) == held(s, keys_of(init)).add(held_at(s, last.0).to_multiset()));
    }
}

/// Two replacements, one after another.
proof fn lemma_replace_both(
    after: Multiset<PointView>,
    old_last: Multiset<PointView>,
    mid: Multiset<PointView>,
    new_last: Multiset<PointView>,
    old_first: Multiset<PointView>,
    before: Multiset<PointView>,
    new_first: Multiset<PointView>,
)
    requires
        after.add(old_last) == mid.add(new_last),
        mid.add(old_first) == before.add(new_first),
    ensures
        after.add(old_first.add(old_last)) == before.add(new_first.add(new_last)),
{
    let l = after.add(old_first.add(old_last));
    let r = before.add(new_first.add(new_last));
    assert forall|p: PointView| #[trigger] l.count(p) == r.count(p) by {
        assert(after.count(p) + old_last.count(p) == after.add(old_last).count(p));
        assert(mid.count(p) + new_last.count(p) == mid.add(new_last).count(p));
        assert(mid.count(p) + old_first.count(p) == mid.add(old_first).count(p));
        assert(before.count(p) + new_first.count(p) == before.add(new_first).count(p));
        assert(old_first.add(old_last).count(p) == old_first.count(p) + old_last.count(p));
        assert(new_first.add(new_last).count(p) == new_first.count(p) + new_last.count(p));
    }
    assert(l =~= r);
}

/// The points of the children are the points of their lists.
proof fn lemma_held_lists(s: Stored, children: Seq<VoxelKey>, n: nat)
    requires
        n <= children.len(),
    ensures
        held(s, children.take(n as int)) == sum_of(list_points(lists_at(s, children)), n),
    decreases n,
{
    let now = children.take(n as int);
    if n > 0 {
        lemma_held_lists(s, children, (n - 1) as nat);
        assert(now.drop_last() =~= children.take(n - 1));
        assert(now.last() == children[n - 1]);
    }
}

/// The points of the first `n` thinned children.
proof fn lemma_total_thinned(
    grid: VoxelGrid,
    children: Seq<VoxelKey>,
    lists: Seq<Seq<PointView>>,
    n: nat,
)
    requires
        n <= children.len(),
    ensures
        total_points(thinned_children(grid, children, lists).take(n as int)) == sum_of(
            |c: int| child_of_children(grid, lists, c).to_multiset(),
            n,
        ),
    decreases n,
{
    let ws = thinned_children(grid, children, lists);
    let now = ws.take(n as int);
    if n > 0 {
        lemma_total_thinned(grid, children, lists, (n - 1) as nat);
        assert(now.drop_last() =~= ws.take(n - 1));
        assert(now.last() == ws[n - 1]);
    }
}

/// A list of writes that write nothing has no points.
proof fn lemma_total_of_none(ws: Seq<NodeView>)
    requires
        forall|i: int| 0 <= i < ws.len() ==> (#[trigger] ws[i]).1 == Seq::<PointView>::empty(),
    ensures
        total_points(ws) == Multiset::<PointView>::empty(),
    decreases ws.len(),
{
    if ws.len() > 0 {
        let init = ws.drop_last();
        assert forall|i: int| 0 <= i < init.len() implies (#[trigger] init[i]).1 == Seq::<
            PointView,
        >::empty() by {
            assert(ws[i].1 == Seq::<PointView>::empty());
        }
        lemma_total_of_none(init);
        assert(ws[ws.len() - 1].1 == Seq::<PointView>::empty());
        vstd::seq_lib::to_multiset_len(ws.last().1);
        assert(total_points(ws) =~= Multiset::<PointView>::empty());
    }
}

/// Distinct keys of a list hold no more than the whole list.
proof fn lemma_held_part(s: Stored, keys: Seq<VoxelKey>, part: Seq<VoxelKey>)
    requires
        keys.no_duplicates(),
        part.no_duplicates(),
        forall|i: int| 0 <= i < part.len() ==> keys.contains(#[trigger] part[i]),
    ensures
        held(s, part).len() <= held(s, keys).len(),
{
    let ws = part.map_values(|k: VoxelKey| (k, Seq::<PointView>::empty()));
    assert(keys_of(ws) =~= part);
    assert forall|i: int| 0 <= i < ws.len() implies keys.contains((#[trigger] ws[i]).0) by {
        assert(keys.contains(part[i]));
    }
    lemma_held_writes(s, keys, ws);
    lemma_total_of_none(ws);
    assert(held(s, keys).add(Multiset::empty()) =~= held(s, keys));
    assert(held(after_writes(s, ws), keys).add(held(s, part)).len() == held(
        after_writes(s, ws),
        keys,
    ).len() + held(s, part).len());
}

/// The children of a task are few enough, and so are their points.
proof fn lemma_task_size(s: Stored, keys: Seq<VoxelKey>, children: Seq<VoxelKey>)
    requires
        keys.no_duplicates(),
        children.no_duplicates(),
        children.len() <= usize::MAX,
        forall|i: int| 0 <= i < children.len() ==> keys.contains(#[trigger] children[i]),
        held(s, keys).len() <= usize::MAX,
    ensures
        tag_children(lists_at(s, children)).len() <= usize::MAX,
{
    let lists = lists_at(s, children);
    lemma_held_part(s, keys, children);
    lemma_held_lists(s, children, children.len());
    assert(children.take(children.len() as int) =~= children);
    lemma_tags(lists);
    vstd::seq_lib::to_multiset_len(untagged(tag_children(lists)));
}

/// A task can be run on a store: the parent is new, and the children are its
/// own and distinct.
pub open spec fn task_ok(s: Stored, task: TaskView) -> bool {
    &&& held_at(s, task.0) == Seq::<PointView>::empty()
    &&& task.1.no_duplicates()
    &&& task.1.len() <= usize::MAX
    &&& task.0.level >= 0
    &&& forall|j: int|
        0 <= j < task.1.len() ==> {
            &&& parent_key(#[trigger] task.1[j]) == task.0
            &&& task.1[j].level == task.0.level + 1
        }
}

/// The keys of a task are among `keys`.
pub open spec fn task_among(keys: Seq<VoxelKey>, task: TaskView) -> bool {
    &&& keys.contains(task.0)
    &&& forall|j: int| 0 <= j < task.1.len() ==> keys.contains(#[trigger] task.1[j])
}

/// A task loses and doubles no point.
proof fn lemma_task_conserves(
    grid_of: spec_fn(VoxelKey) -> VoxelGrid,
    s: Stored,
    keys: Seq<VoxelKey>,
    task: TaskView,
)
    requires
        keys.no_duplicates(),
        task_ok(s, task),
        task_among(keys, task),
        held(s, keys).len() <= usize::MAX,
    ensures
        held(after_task(grid_of, s, task), keys) == held(s, keys),
{
    let grid = grid_of(task.0);
    let children = task.1;
    let lists = lists_at(s, children);
    let n = children.len();
    let ws = thinned_children(grid, children, lists);
    let own = parent_of_children(grid, lists);
    let all = task_writes(grid, task, lists);
    lemma_task_size(s, keys, children);
    law_sample_conserves(grid, lists);
    lemma_held_lists(s, children, n);
    assert(children.take(n as int) =~= children);
    lemma_total_thinned(grid, children, lists, n);
    assert(ws.take(n as int) =~= ws);
    assert(keys_of(ws) =~= children);
    if tag_children(lists).len() > 0 {
        assert forall|i: int| 0 <= i < ws.len() implies keys.contains((#[trigger] ws[i]).0) by {
            assert(keys.contains(children[i]));
        }
        let old_points = held(s, children);
        let shares = total_points(ws);
        vstd::seq_lib::to_multiset_len(own);
        if own.len() > 0 {
            assert(keys_of(all) =~= children.push(task.0));
            assert(keys_of(all).no_duplicates()) by {
                assert forall|j: int| 0 <= j < children.len() implies #[trigger] children[j]
                    != task.0 by {}
            }
            assert forall|i: int| 0 <= i < all.len() implies keys.contains(
                (#[trigger] all[i]).0,
            ) by {
                if i < ws.len() {
                    assert(all[i] == ws[i]);
                }
            }
            lemma_held_writes(s, keys, all);
            assert(all.drop_last() =~= ws);
            assert(children.push(task.0).drop_last() =~= children);
            vstd::seq_lib::to_multiset_len(held_at(s, task.0));
            assert(held(s, keys_of(all)) =~= old_points);
        } else {
            lemma_held_writes(s, keys, all);
            assert(own.to_multiset().add(shares) =~= shares);
        }
        let after = held(after_task(grid_of, s, task), keys);
        let before = held(s, keys);
        assert(old_points == own.to_multiset().add(shares));
        assert(after.add(old_points) == before.add(total_points(all)));
        assert(total_points(all) =~= own.to_multiset().add(shares));
        lemma_cancel(after, before, old_points);
    }
}

proof fn lemma_cancel(
    a: Multiset<PointView>,
    b: Multiset<PointView>,
    c: Multiset<PointView>,
)
    requires
        a.add(c) == b.add(c),
    ensures
        a == b,
{
    assert forall|p: PointView| #[trigger] a.count(p) == b.count(p) by {
        assert(a.add(c).count(p) == a.count(p) + c.count(p));
        assert(b.add(c).count(p) == b.count(p) + c.count(p));
    }
    assert(a =~= b);
}

// The merge.
/// The keys that a task writes: its children and its parent.
proof fn lemma_task_leaves_others(
    grid_of: spec_fn(VoxelKey) -> VoxelGrid,
    s: Stored,
    task: TaskView,
    k: VoxelKey,
)
    requires
        k != task.0,
        forall|j: int| 0 <= j < task.1.len() ==> #[trigger] task.1[j] != k,
    ensures
        held_at(after_task(grid_of, s, task), k) == held_at(s, k),
{
    let lists = lists_at(s, task.1);
    let ws = task_writes(grid_of(task.0), task, lists);
    assert forall|i: int| 0 <= i < ws.len() implies (#[trigger] ws[i]).0 != k by {
        if i < task.1.len() {
            assert(ws[i].0 == task.1[i]);
        }
    }
    lemma_unwritten(s, ws, k);
}

/// Tasks that make the parents at level `d`, each parent once.
pub open spec fn tasks_ok(s: Stored, tasks: Seq<TaskView>, d: int) -> bool {
    &&& forall|t: int|
        0 <= t < tasks.len() ==> (#[trigger] tasks[t]).0.level == d && task_ok(s, tasks[t])
    &&& forall|a: int, b: int|
        0 <= a < b < tasks.len() ==> (#[trigger] tasks[a]).0 != (#[trigger] tasks[b]).0
}

/// Tasks that make the parents at level `d` leave alone what they do not make and
/// what is at other levels up to `d`.
proof fn lemma_tasks_leave_others(
    grid_of: spec_fn(VoxelKey) -> VoxelGrid,
    s: Stored,
    tasks: Seq<TaskView>,
    d: int,
    k: VoxelKey,
)
    requires
        tasks_ok(s, tasks, d),
        k.level <= d,
        forall|t: int| 0 <= t < tasks.len() ==> (#[trigger] tasks[t]).0 != k,
    ensures
        held_at(after_tasks(grid_of, s, tasks), k) == held_at(s, k),
    decreases tasks.len(),
{
    if tasks.len() > 0 {
        let init = tasks.drop_last();
        assert(tasks_ok(s, init, d)) by {
            assert forall|t: int| 0 <= t < init.len() implies (#[trigger] init[t]).0.level == d
                && task_ok(s, init[t]) by {
                assert(tasks[t] == init[t]);
            }
            assert forall|a: int, b: int| 0 <= a < b < init.len() implies (#[trigger] init[a]).0 != (
            #[trigger] init[b]).0 by {
                assert(tasks[a].0 != tasks[b].0);
            }
        }
        assert forall|t: int| 0 <= t < init.len() implies (#[trigger] init[t]).0 != k by {
            assert(tasks[t].0 != k);
        }
        lemma_tasks_leave_others(grid_of, s, init, d, k);
        let last = tasks[tasks.len() - 1];
        assert(task_ok(s, last));
        lemma_task_leaves_others(grid_of, after_tasks(grid_of, s, init), last, k);
    }
}

/// Every point lies in the voxel of the key that it is stored under.
pub open spec fn stored_inside(s: Stored, loc: spec_fn(PointView) -> VoxelKey) -> bool {
    forall|k: VoxelKey, p: PointView| #[trigger]
        held_at(s, k).contains(p) ==> loc(p).level >= k.level && ancestor(loc(p), k.level as int)
            == k
}

pub proof fn lemma_writes_inside(s: Stored, ws: Seq<NodeView>, loc: spec_fn(PointView) -> VoxelKey)
    requires
        stored_inside(s, loc),
        points_inside(ws, loc),
    ensures
        stored_inside(after_writes(s, ws), loc),
    decreases ws.len(),
{
    if ws.len() > 0 {
        let init = ws.drop_last();
        let last = ws.last();
        assert(points_inside(init, loc)) by {
            assert forall|i: int, p: PointView|
                0 <= i < init.len() && #[trigger] init[i].1.contains(p) implies {
                &&& loc(p).level >= init[i].0.level
                &&& ancestor(loc(p), init[i].0.level as int) == init[i].0
            } by {
                assert(ws[i].1.contains(p));
            }
        }
        lemma_writes_inside(s, init, loc);
        let mid = after_writes(s, init);
        let now = after_writes(s, ws);
        assert forall|k: VoxelKey, p: PointView| #[trigger] held_at(now, k).contains(p) implies loc(
            p,
        ).level >= k.level && ancestor(loc(p), k.level as int) == k by {
            if k == last.0 {
                assert(ws[ws.len() - 1].1.contains(p));
            } else {
                assert(held_at(now, k) == held_at(mid, k));
            }
        }
    }
}

/// A task moves points within their voxels.
proof fn lemma_task_inside(
    grid_of: spec_fn(VoxelKey) -> VoxelGrid,
    s: Stored,
    task: TaskView,
    loc: spec_fn(PointView) -> VoxelKey,
)
    requires
        task_ok(s, task),
        tag_children(lists_at(s, task.1)).len() <= usize::MAX,
        stored_inside(s, loc),
    ensures
        stored_inside(after_task(grid_of, s, task), loc),
{
    let grid = grid_of(task.0);
    let lists = lists_at(s, task.1);
    let ws = task_writes(grid, task, lists);
    let own = parent_of_children(grid, lists);
    assert forall|i: int, p: PointView| 0 <= i < ws.len() && #[trigger] ws[i].1.contains(
        p,
    ) implies {
        &&& loc(p).level >= ws[i].0.level
        &&& ancestor(loc(p), ws[i].0.level as int) == ws[i].0
    } by {
        if i < task.1.len() {
            law_sample_sources(grid, lists, i);
            let left = child_of_children(grid, lists, i);
            let j = choose|j: int| 0 <= j < left.len() && left[j] == p;
            assert(lists[i].contains(left[j]));
            assert(held_at(s, task.1[i]).contains(p));
        } else {
            assert(lists.len() == task.1.len());
            assert(task.1.len() > 0) by {
                if task.1.len() == 0 {
                    assert(tag_children(lists).len() == 0);
                }
            }
            law_sample_sources(grid, lists, 0);
            let j = choose|j: int| 0 <= j < own.len() && own[j] == p;
            let c = choose|c: int|
                0 <= c < lists.len() && (#[trigger] lists[c]).contains(own[j]);
            let child = task.1[c];
            assert(held_at(s, child).contains(p));
            law_ancestor_of_ancestor(loc(p), child.level as int, task.0.level as int);
            reveal_with_fuel(ancestor, 3);
            assert(ancestor(child, task.0.level as int) == task.0);
        }
    }
    lemma_writes_inside(s, ws, loc);
}

/// The tasks of one level lose and double no point, and move points within their
/// voxels.
proof fn lemma_tasks_conserve(
    grid_of: spec_fn(VoxelKey) -> VoxelGrid,
    s: Stored,
    keys: Seq<VoxelKey>,
    tasks: Seq<TaskView>,
    d: int,
    loc: spec_fn(PointView) -> VoxelKey,
)
    requires
        keys.no_duplicates(),
        tasks_ok(s, tasks, d),
        forall|t: int| 0 <= t < tasks.len() ==> task_among(keys, #[trigger] tasks[t]),
        held(s, keys).len() <= usize::MAX,
    ensures
        held(after_tasks(grid_of, s, tasks), keys) == held(s, keys),
        stored_inside(s, loc) ==> stored_inside(after_tasks(grid_of, s, tasks), loc),
    decreases tasks.len(),
{
    if tasks.len() > 0 {
        let init = tasks.drop_last();
        let last = tasks[tasks.len() - 1];
        assert(tasks_ok(s, init, d)) by {
            assert forall|t: int| 0 <= t < init.len() implies (#[trigger] init[t]).0.level == d
                && task_ok(s, init[t]) by {
                assert(tasks[t] == init[t]);
            }
            assert forall|a: int, b: int| 0 <= a < b < init.len() implies (#[trigger] init[a]).0 != (
            #[trigger] init[b]).0 by {
                assert(tasks[a].0 != tasks[b].0);
            }
        }
        assert forall|t: int| 0 <= t < init.len() implies task_among(keys, #[trigger] init[t]) by {
            assert(task_among(keys, tasks[t]));
        }
        lemma_tasks_conserve(grid_of, s, keys, init, d, loc);
        let mid = after_tasks(grid_of, s, init);
        assert(task_ok(s, last));
        assert forall|t: int| 0 <= t < init.len() implies (#[trigger] init[t]).0 != last.0 by {
            assert(tasks[t].0 != tasks[tasks.len() - 1].0);
        }
        lemma_tasks_leave_others(grid_of, s, init, d, last.0);
        assert(task_ok(mid, last));
        lemma_task_conserves(grid_of, mid, keys, last);
        lemma_task_size(mid, keys, last.1);
        if stored_inside(s, loc) {
            lemma_task_inside(grid_of, mid, last, loc);
        }
    }
}

/// Every ancestor of a chunk root at level `d` or above has no points yet.
pub open spec fn unbuilt_upto(s: Stored, roots: Seq<VoxelKey>, d: int) -> bool {
    forall|i: int, e: int|
        0 <= i < roots.len() && 0 <= e <= d && e < roots[i].level ==> held_at(
            s,
            #[trigger] ancestor(roots[i], e),
        ) == Seq::<PointView>::empty()
}

/// The list has every chunk root and all of its ancestors.
pub open spec fn has_ancestors(keys: Seq<VoxelKey>, roots: Seq<VoxelKey>) -> bool {
    forall|i: int, e: int|
        0 <= i < roots.len() && 0 <= e <= roots[i].level ==> keys.contains(
            #[trigger] ancestor(roots[i], e),
        )
}

/// The tasks of level `d` can be run.
pub proof fn lemma_level_ok(s: Stored, roots: Seq<VoxelKey>, keys: Seq<VoxelKey>, d: int)
    requires
        roots.len() <= usize::MAX,
        0 <= d < max_level(roots) < i32::MAX,
        has_ancestors(keys, roots),
        unbuilt_upto(s, roots, d),
    ensures
        tasks_ok(s, level_tasks(roots, d), d),
        forall|t: int|
            0 <= t < level_tasks(roots, d).len() ==> task_among(
                keys,
                #[trigger] level_tasks(roots, d)[t],
            ),
{
    let max = max_level(roots);
    let ts = level_tasks(roots, d);
    let below = level_keys(roots, d + 1, max);
    law_schedule_tasks(roots, d);
    lemma_level_keys_level(roots, d + 1, max);
    lemma_tasks(below);
    assert forall|t: int| 0 <= t < ts.len() implies (#[trigger] ts[t]).0.level == d && task_ok(
        s,
        ts[t],
    ) && task_among(keys, ts[t]) by {
        let task = ts[t];
        assert(task_parents(ts)[t] == task.0);
        assert(task_parents(ts).contains(task.0));
        let c = choose|c: VoxelKey| #[trigger] below.contains(c) && parent_key(c) == task.0;
        law_schedule_keys(roots, d + 1, c);
        let i = choose|i: int|
            0 <= i < roots.len() && d + 1 <= (#[trigger] roots[i]).level && ancestor(
                roots[i],
                d + 1,
            ) == c;
        law_ancestor_of_ancestor(roots[i], d + 1, d);
        lemma_ancestor_level(roots[i], d + 1);
        reveal_with_fuel(ancestor, 3);
        assert(ancestor(roots[i], d) == task.0);
        assert forall|j: int| 0 <= j < task.1.len() implies {
            &&& parent_key(#[trigger] task.1[j]) == task.0
            &&& task.1[j].level == task.0.level + 1
            &&& keys.contains(task.1[j])
        } by {
            assert(ts[t].1[j] == task.1[j]);
            law_schedule_keys(roots, d + 1, task.1[j]);
            let m = choose|m: int|
                0 <= m < roots.len() && d + 1 <= (#[trigger] roots[m]).level && ancestor(
                    roots[m],
                    d + 1,
                ) == task.1[j];
            assert(keys.contains(ancestor(roots[m], d + 1)));
        }
        assert(task.1.len() <= usize::MAX) by {
            assert forall|k: VoxelKey| #[trigger] task.1.to_set().contains(k) implies below.to_set().contains(k) by {
                let j = choose|j: int| 0 <= j < task.1.len() && task.1[j] == k;
                assert(below.contains(ts[t].1[j]));
            }
            task.1.unique_seq_to_set();
            below.lemma_cardinality_of_set();
            vstd::set_lib::lemma_len_subset(task.1.to_set(), below.to_set());
        }
    }
    assert forall|a: int, b: int| 0 <= a < b < ts.len() implies (#[trigger] ts[a]).0 != (
    #[trigger] ts[b]).0 by {
        assert(task_parents(ts)[a] != task_parents(ts)[b]);
    }
}

proof fn lemma_merge_from(
    grid_of: spec_fn(VoxelKey) -> VoxelGrid,
    s: Stored,
    roots: Seq<VoxelKey>,
    keys: Seq<VoxelKey>,
    loc: spec_fn(PointView) -> VoxelKey,
    d: int,
)
    requires
        roots.len() <= usize::MAX,
        -1 <= d < max_level(roots) < i32::MAX,
        keys.no_duplicates(),
        has_ancestors(keys, roots),
        unbuilt_upto(s, roots, d),
        held(s, keys).len() <= usize::MAX,
    ensures
        ({
            let after = after_levels(grid_of, s, schedule_from(roots, d, max_level(roots)));
            &&& held(after, keys) == held(s, keys)
            &&& stored_inside(s, loc) ==> stored_inside(after, loc)
        }),
    decreases d + 1,
{
    let max = max_level(roots);
    let all = schedule_from(roots, d, max);
    if d >= 0 {
        let ts = level_tasks(roots, d);
        assert(all[0] == ts);
        assert(all.drop_first() =~= schedule_from(roots, d - 1, max));
        lemma_level_ok(s, roots, keys, d);
        lemma_tasks_conserve(grid_of, s, keys, ts, d, loc);
        let mid = after_tasks(grid_of, s, ts);
        assert forall|i: int, e: int|
            0 <= i < roots.len() && 0 <= e <= d - 1 && e < roots[i].level implies held_at(
            mid,
            #[trigger] ancestor(roots[i], e),
        ) == Seq::<PointView>::empty() by {
            lemma_ancestor_level(roots[i], e);
            lemma_tasks_leave_others(grid_of, s, ts, d, ancestor(roots[i], e));
        }
        lemma_merge_from(grid_of, mid, roots, keys, loc, d - 1);
    }
}

/// The merge of the chunks keeps every point, and keeps it in a voxel that it
/// lies in. `keys` is any list of distinct keys that has the chunk roots and
/// their ancestors; none of the ancestors has points before the merge.
pub proof fn law_merge_conserves(
    grid_of: spec_fn(VoxelKey) -> VoxelGrid,
    s: Stored,
    roots: Seq<VoxelKey>,
    keys: Seq<VoxelKey>,
    loc: spec_fn(PointView) -> VoxelKey,
)
    requires
        roots.len() <= usize::MAX,
        max_level(roots) < i32::MAX,
        keys.no_duplicates(),
        has_ancestors(keys, roots),
        unbuilt_upto(s, roots, max_level(roots)),
        held(s, keys).len() <= usize::MAX,
    ensures
        held(after_levels(grid_of, s, schedule(roots)), keys) == held(s, keys),
        stored_inside(s, loc) ==> stored_inside(
            after_levels(grid_of, s, schedule(roots)),
            loc,
        ),
{
    lemma_max_level_positive(roots);
    lemma_merge_from(grid_of, s, roots, keys, loc, max_level(roots) - 1);
}

pub proof fn lemma_max_level_positive(keys: Seq<VoxelKey>)
    ensures
        max_level(keys) >= 0,
    decreases keys.len(),
{
    if keys.len() > 0 {
        lemma_max_level_positive(keys.drop_last());
    }
}

/// The keys that a level's tasks write.
pub open spec fn written_by(tasks: Seq<TaskView>, k: VoxelKey) -> bool {
    exists|t: int|
        0 <= t < tasks.len() && ((#[trigger] tasks[t]).0 == k || tasks[t].1.contains(k))
}

proof fn lemma_tasks_leave_rest(
    grid_of: spec_fn(VoxelKey) -> VoxelGrid,
    s: Stored,
    tasks: Seq<TaskView>,
    k: VoxelKey,
)
    requires
        !written_by(tasks, k),
    ensures
        held_at(after_tasks(grid_of, s, tasks), k) == held_at(s, k),
    decreases tasks.len(),
{
    if tasks.len() > 0 {
        let init = tasks.drop_last();
        let last = tasks[tasks.len() - 1];
        assert(!written_by(init, k)) by {
            if written_by(init, k) {
                let t = choose|t: int|
                    0 <= t < init.len() && ((#[trigger] init[t]).0 == k || init[t].1.contains(k));
                assert(tasks[t].0 == k || tasks[t].1.contains(k));
            }
        }
        lemma_tasks_leave_rest(grid_of, s, init, k);
        assert(last.0 != k && !last.1.contains(k));
        lemma_task_leaves_others(grid_of, after_tasks(grid_of, s, init), last, k);
    }
}

/// The tasks of a merge leave every node alone that is neither a parent nor a
/// child of one of them.
pub proof fn law_merge_leaves_others(
    grid_of: spec_fn(VoxelKey) -> VoxelGrid,
    s: Stored,
    levels: Seq<Seq<TaskView>>,
    k: VoxelKey,
)
    requires
        forall|l: int| 0 <= l < levels.len() ==> !written_by(#[trigger] levels[l], k),
    ensures
        held_at(after_levels(grid_of, s, levels), k) == held_at(s, k),
    decreases levels.len(),
{
    if levels.len() > 0 {
        assert(!written_by(levels[0], k));
        lemma_tasks_leave_rest(grid_of, s, levels[0], k);
        let rest = levels.drop_first();
        assert forall|l: int| 0 <= l < rest.len() implies !written_by(#[trigger] rest[l], k) by {
            assert(rest[l] == levels[l + 1]);
        }
        law_merge_leaves_others(grid_of, after_tasks(grid_of, s, levels[0]), rest, k);
    }
}

} // verus!
