//! Merging the chunks' octrees into one: which parents to build from which
//! children, in which batches, and the list of nodes that results.

use crate::batches::{batch_views, batches, sizes_ok, split_batches};
use crate::grouping::{
    add_member, group_by, group_views, lemma_group_bounds, lemma_group_by, ungrouped, Group,
};
use crate::hierarchy::all_indices;
use crate::key::{ancestor, key_code, key_id, key_lt, lemma_key_code_order, parent_key, VoxelKey};
use crate::octree::{lemma_groups_disjoint, lemma_parts_distinct};
use crate::sorting::{is_sort_order, sorted_order};
use std::collections::HashSet;
use vstd::prelude::*;

verus! {

/// A parent to build and the children to build it from.
#[derive(Debug)]
pub struct MergeTask {
    pub parent: VoxelKey,
    pub children: Vec<VoxelKey>,
}

/// What a task is.
pub type TaskView = (VoxelKey, Seq<VoxelKey>);

/// The views of several tasks.
pub open spec fn task_views(ts: Seq<MergeTask>) -> Seq<TaskView> {
    ts.map_values(|t: MergeTask| (t.parent, t.children@))
}

/// The keys without repetitions, in the order of their first occurrences.
pub open spec fn dedup(keys: Seq<VoxelKey>) -> Seq<VoxelKey>
    decreases keys.len(),
{
    if keys.len() == 0 {
        Seq::empty()
    } else {
        let d = dedup(keys.drop_last());
        if d.contains(keys.last()) {
            d
        } else {
            d.push(keys.last())
        }
    }
}

/// The keys at one level.
pub open spec fn at_level(keys: Seq<VoxelKey>, level: int) -> Seq<VoxelKey>
    decreases keys.len(),
{
    if keys.len() == 0 {
        Seq::empty()
    } else if keys.last().level == level {
        at_level(keys.drop_last(), level).push(keys.last())
    } else {
        at_level(keys.drop_last(), level)
    }
}

/// The parent of each key.
pub open spec fn parent_of_each(keys: Seq<VoxelKey>) -> spec_fn(usize) -> Option<VoxelKey> {
    |i: usize| Some(parent_key(keys[i as int]))
}

/// The tasks that build the parents of `keys`, in the order of the parents.
pub open spec fn tasks_for(keys: Seq<VoxelKey>) -> Seq<TaskView> {
    group_by(all_indices(keys.len()), parent_of_each(keys)).map_values(
        |g: (VoxelKey, Seq<usize>)| (g.0, g.1.map_values(|i: usize| keys[i as int])),
    )
}

/// The parents that the tasks build.
pub open spec fn task_parents(ts: Seq<TaskView>) -> Seq<VoxelKey> {
    ts.map_values(|t: TaskView| t.0)
}

/// The keys at level `d`: the chunk roots at that level, and the parents of the
/// keys one level below. No chunk root lies below level `max`.
pub open spec fn level_keys(roots: Seq<VoxelKey>, d: int, max: int) -> Seq<VoxelKey>
    decreases max - d + 1,
{
    if d > max {
        Seq::empty()
    } else {
        dedup(
            at_level(roots, d) + task_parents(tasks_for(level_keys(roots, d + 1, max))),
        )
    }
}

/// The deepest level of the keys, not above the root.
pub open spec fn max_level(keys: Seq<VoxelKey>) -> int
    decreases keys.len(),
{
    if keys.len() == 0 {
        0
    } else {
        let m = max_level(keys.drop_last());
        if keys.last().level > m {
            keys.last().level as int
        } else {
            m
        }
    }
}

/// The tasks of the levels from `d` up to the root, the deepest level first.
pub open spec fn schedule_from(roots: Seq<VoxelKey>, d: int, max: int) -> Seq<Seq<TaskView>>
    decreases d + 1,
{
    if d < 0 {
        Seq::empty()
    } else {
        seq![tasks_for(level_keys(roots, d + 1, max))] + schedule_from(roots, d - 1, max)
    }
}

/// All tasks that lead from the chunk roots to the root of the octree, level by
/// level.
pub open spec fn schedule(roots: Seq<VoxelKey>) -> Seq<Seq<TaskView>> {
    schedule_from(roots, max_level(roots) - 1, max_level(roots))
}

/// The keys without repetitions, in the order of their first occurrences.
fn dedup_keys(keys: &Vec<VoxelKey>) -> (out: Vec<VoxelKey>)
    ensures
        out@ == dedup(keys@),
{
    broadcast use vstd::std_specs::hash::group_hash_axioms;

    let mut out: Vec<VoxelKey> = Vec::new();
    let mut seen: HashSet<u128> = HashSet::new();
    let mut i: usize = 0;
    assert(keys@.take(0) =~= Seq::<VoxelKey>::empty());
    while i < keys.len()
        invariant
            i <= keys@.len(),
            out@ == dedup(keys@.take(i as int)),
            holds_codes(seen@, out@),
        decreases keys@.len() - i,
    {
        broadcast use vstd::std_specs::hash::group_hash_axioms;

        let k = keys[i];
        proof {
            assert(keys@.take(i + 1).drop_last() =~= keys@.take(i as int));
            assert(keys@.take(i + 1).last() == k);
            lemma_holds_codes(seen@, out@, k);
        }
        if seen.insert(key_id(k)) {
            out.push(k);
        }
        i = i + 1;
    }
    assert(keys@.take(i as int) =~= keys@);
    out
}

/// `seen` holds the integers of exactly the keys `keys`.
pub open spec fn holds_codes(seen: Set<u128>, keys: Seq<VoxelKey>) -> bool {
    &&& forall|j: int| 0 <= j < keys.len() ==> seen.contains(key_code(#[trigger] keys[j]) as u128)
    &&& forall|c: u128| #[trigger]
        seen.contains(c) ==> exists|j: int|
            0 <= j < keys.len() && key_code(#[trigger] keys[j]) == c
}

proof fn lemma_key_code_bounds(k: VoxelKey)
    ensures
        0 <= key_code(k) <= u128::MAX,
{
}

/// Looking up a key's integer tells whether the key is there, and entering it
/// enters the key.
pub proof fn lemma_holds_codes(seen: Set<u128>, keys: Seq<VoxelKey>, k: VoxelKey)
    requires
        holds_codes(seen, keys),
    ensures
        seen.contains(key_code(k) as u128) <==> keys.contains(k),
        holds_codes(seen.insert(key_code(k) as u128), keys.push(k)),
        keys.contains(k) ==> holds_codes(seen.insert(key_code(k) as u128), keys),
{
    lemma_key_code_bounds(k);
    let id = key_code(k) as u128;
    if seen.contains(id) {
        let j = choose|j: int| 0 <= j < keys.len() && key_code(#[trigger] keys[j]) == id;
        lemma_key_code_order(keys[j], k);
    }
    if keys.contains(k) {
        let j = choose|j: int| 0 <= j < keys.len() && keys[j] == k;
        assert(seen.contains(key_code(keys[j]) as u128));
        assert(seen.insert(id) =~= seen);
    }
    let more = keys.push(k);
    let now = seen.insert(id);
    assert forall|j: int| 0 <= j < more.len() implies now.contains(
        key_code(#[trigger] more[j]) as u128,
    ) by {
        if j < keys.len() {
            assert(more[j] == keys[j]);
        }
    }
    assert forall|c: u128| #[trigger] now.contains(c) implies exists|j: int|
        0 <= j < more.len() && key_code(#[trigger] more[j]) == c by {
        if c == id {
            assert(more[keys.len() as int] == k);
        } else {
            let j = choose|j: int| 0 <= j < keys.len() && key_code(#[trigger] keys[j]) == c;
            assert(more[j] == keys[j]);
        }
    }
}

/// The tasks that build the parents of `keys`.
fn group_by_parent(keys: &Vec<VoxelKey>) -> (tasks: Vec<MergeTask>)
    requires
        forall|i: int| 0 <= i < keys@.len() ==> (#[trigger] keys@[i]).level > 0,
    ensures
        task_views(tasks@) == tasks_for(keys@),
{
    let ghost all = all_indices(keys@.len());
    let ghost root = parent_of_each(keys@);
    let mut groups: Vec<Group> = Vec::new();
    let mut i: usize = 0;
    assert(all.take(0) =~= Seq::<usize>::empty());
    assert(group_views(groups@) =~= Seq::<(VoxelKey, Seq<usize>)>::empty());
    while i < keys.len()
        invariant
            i <= keys@.len(),
            all == all_indices(keys@.len()),
            root == parent_of_each(keys@),
            forall|i: int| 0 <= i < keys@.len() ==> (#[trigger] keys@[i]).level > 0,
            group_views(groups@) == group_by(all.take(i as int), root),
        decreases keys@.len() - i,
    {
        proof {
            assert(all.take(i + 1).drop_last() =~= all.take(i as int));
            assert(all.take(i + 1).last() == i);
        }
        match keys[i].parent() {
            Some(p) => {
                add_member(&mut groups, p, i);
            },
            None => {},
        }
        i = i + 1;
    }
    assert(all.take(i as int) =~= all);
    let ghost gs = group_by(all, root);
    proof {
        lemma_group_bounds(all, root, keys@.len());
    }
    let mut tasks: Vec<MergeTask> = Vec::new();
    let mut g: usize = 0;
    while g < groups.len()
        invariant
            g <= groups@.len(),
            gs == group_views(groups@),
            gs == group_by(all_indices(keys@.len()), parent_of_each(keys@)),
            forall|g: int, m: int|
                0 <= g < gs.len() && 0 <= m < gs[g].1.len() ==> #[trigger] gs[g].1[m]
                    < keys@.len(),
            task_views(tasks@) =~= tasks_for(keys@).take(g as int),
        decreases groups@.len() - g,
    {
        let ghost members = gs[g as int].1;
        assert(members == groups@[g as int].members@);
        let ghost value = |i: usize| keys@[i as int];
        let mut children: Vec<VoxelKey> = Vec::new();
        let mut j: usize = 0;
        while j < groups[g].members.len()
            invariant
                g < groups@.len(),
                members == groups@[g as int].members@,
                j <= members.len(),
                value == (|i: usize| keys@[i as int]),
                forall|m: int| 0 <= m < members.len() ==> #[trigger] members[m] < keys@.len(),
                children@ =~= members.take(j as int).map_values(value),
            decreases members.len() - j,
        {
            let m: usize = groups[g].members[j];
            assert(members.take(j + 1) =~= members.take(j as int).push(m));
            children.push(keys[m]);
            j = j + 1;
        }
        assert(members.take(j as int) =~= members);
        let task = MergeTask { parent: groups[g].key, children };
        proof {
            assert((task.parent, task.children@) == tasks_for(keys@)[g as int]);
            assert(task_views(tasks@.push(task)) =~= task_views(tasks@).push(
                (task.parent, task.children@),
            ));
        }
        tasks.push(task);
        g = g + 1;
    }
    assert(tasks_for(keys@).take(g as int) =~= tasks_for(keys@));
    tasks
}

/// The views of the tasks of several levels.
pub open spec fn schedule_views(s: Seq<Vec<MergeTask>>) -> Seq<Seq<TaskView>> {
    s.map_values(|v: Vec<MergeTask>| task_views(v@))
}

/// Plans the merge of the chunks: level by level, from the deepest chunk root up
/// to the root of the octree, the parents to build and their children. What is
/// built on one level is a child on the next.
pub fn merge_schedule(chunk_root_keys: &Vec<VoxelKey>) -> (levels: Vec<Vec<MergeTask>>)
    requires
        forall|i: int|
            0 <= i < chunk_root_keys@.len() ==> 0 <= (#[trigger] chunk_root_keys@[i]).level
                < i32::MAX,
    ensures
        schedule_views(levels@) == schedule(chunk_root_keys@),
{
    let ghost roots = chunk_root_keys@;
    let mut max: i32 = 0;
    let mut i: usize = 0;
    assert(roots.take(0) =~= Seq::<VoxelKey>::empty());
    while i < chunk_root_keys.len()
        invariant
            roots == chunk_root_keys@,
            i <= roots.len(),
            0 <= max < i32::MAX,
            max == max_level(roots.take(i as int)),
            forall|i: int| 0 <= i < roots.len() ==> 0 <= (#[trigger] roots[i]).level < i32::MAX,
        decreases roots.len() - i,
    {
        assert(roots.take(i + 1).drop_last() =~= roots.take(i as int));
        assert(roots.take(i + 1).last() == roots[i as int]);
        if chunk_root_keys[i].level > max {
            max = chunk_root_keys[i].level;
        }
        i = i + 1;
    }
    assert(roots.take(i as int) =~= roots);
    let mut levels: Vec<Vec<MergeTask>> = Vec::new();
    let mut parents: Vec<VoxelKey> = Vec::new();
    let mut d: i32 = max - 1;
    let ghost all = schedule(roots);
    proof {
        assert(schedule_views(levels@) + schedule_from(roots, d as int, max as int) =~= all);
        lemma_tasks_of_none();
        assert(parents@ =~= task_parents(tasks_for(level_keys(roots, d + 2, max as int))));
    }
    while d >= 0
        invariant
            roots == chunk_root_keys@,
            -1 <= d < max < i32::MAX,
            max == max_level(roots),
            parents@ == task_parents(tasks_for(level_keys(roots, d + 2, max as int))),
            schedule_views(levels@) + schedule_from(roots, d as int, max as int) == all,
        decreases d + 1,
    {
        let mut keys: Vec<VoxelKey> = select_level(chunk_root_keys, d + 1);
        let ghost first = keys@;
        keys.append(&mut parents);
        let keys = dedup_keys(&keys);
        proof {
            assert(keys@ == level_keys(roots, d + 1, max as int));
            assert(chunk_root_keys.len() <= usize::MAX);
            lemma_level_keys_level(roots, d + 1, max as int);
        }
        let tasks = group_by_parent(&keys);
        let mut next: Vec<VoxelKey> = Vec::new();
        let mut t: usize = 0;
        while t < tasks.len()
            invariant
                t <= tasks@.len(),
                next@ =~= task_parents(task_views(tasks@)).take(t as int),
            decreases tasks@.len() - t,
        {
            next.push(tasks[t].parent);
            t = t + 1;
        }
        assert(task_parents(task_views(tasks@)).take(t as int) =~= task_parents(
            task_views(tasks@),
        ));
        parents = next;
        proof {
            assert(schedule_views(levels@.push(tasks)) =~= schedule_views(levels@).push(
                task_views(tasks@),
            ));
            assert(schedule_views(levels@) + schedule_from(roots, d as int, max as int)
                =~= schedule_views(levels@.push(tasks)) + schedule_from(
                roots,
                d - 1,
                max as int,
            ));
        }
        levels.push(tasks);
        d = d - 1;
    }
    assert(schedule_views(levels@) + Seq::<Seq<TaskView>>::empty() =~= schedule_views(levels@));
    levels
}

proof fn lemma_tasks_of_none()
    ensures
        task_parents(tasks_for(Seq::<VoxelKey>::empty())) == Seq::<VoxelKey>::empty(),
{
    let none = Seq::<VoxelKey>::empty();
    assert(all_indices(none.len()) =~= Seq::<usize>::empty());
    assert(task_parents(tasks_for(none)) =~= none);
}

/// The keys at one level, such as the roots among the nodes of a chunk.
pub fn select_level(keys: &Vec<VoxelKey>, level: i32) -> (out: Vec<VoxelKey>)
    ensures
        out@ == at_level(keys@, level as int),
{
    let mut out: Vec<VoxelKey> = Vec::new();
    let mut i: usize = 0;
    assert(keys@.take(0) =~= Seq::<VoxelKey>::empty());
    while i < keys.len()
        invariant
            i <= keys@.len(),
            out@ == at_level(keys@.take(i as int), level as int),
        decreases keys@.len() - i,
    {
        assert(keys@.take(i + 1).drop_last() =~= keys@.take(i as int));
        assert(keys@.take(i + 1).last() == keys@[i as int]);
        if keys[i].level == level {
            out.push(keys[i]);
        }
        i = i + 1;
    }
    assert(keys@.take(i as int) =~= keys@);
    out
}

proof fn lemma_dedup(keys: Seq<VoxelKey>)
    ensures
        dedup(keys).no_duplicates(),
        forall|k: VoxelKey| #[trigger] dedup(keys).contains(k) <==> keys.contains(k),
    decreases keys.len(),
{
    if keys.len() > 0 {
        let init = keys.drop_last();
        let last = keys.last();
        lemma_dedup(init);
        let d = dedup(init);
        let now = dedup(keys);
        assert(keys[keys.len() - 1] == last);
        assert forall|k: VoxelKey| #[trigger] now.contains(k) <==> keys.contains(k) by {
            if keys.contains(k) {
                let j = choose|j: int| 0 <= j < keys.len() && keys[j] == k;
                if j < init.len() {
                    assert(init[j] == k);
                    assert(d.contains(k));
                    let m = choose|m: int| 0 <= m < d.len() && d[m] == k;
                    assert(now[m] == k);
                } else if !d.contains(last) {
                    assert(now[d.len() as int] == k);
                }
            }
            if now.contains(k) {
                let m = choose|m: int| 0 <= m < now.len() && now[m] == k;
                if m < d.len() {
                    assert(d[m] == k);
                    assert(d.contains(k));
                    let j = choose|j: int| 0 <= j < init.len() && init[j] == k;
                    assert(keys[j] == k);
                }
            }
        }
    }
}

pub proof fn lemma_at_level(keys: Seq<VoxelKey>, level: int)
    ensures
        forall|k: VoxelKey| #[trigger]
            at_level(keys, level).contains(k) <==> keys.contains(k) && k.level == level,
    decreases keys.len(),
{
    if keys.len() > 0 {
        let init = keys.drop_last();
        let last = keys.last();
        lemma_at_level(init, level);
        let a = at_level(init, level);
        let now = at_level(keys, level);
        assert(keys[keys.len() - 1] == last);
        assert forall|k: VoxelKey| #[trigger] now.contains(k) <==> keys.contains(k) && k.level
            == level by {
            if keys.contains(k) && k.level == level {
                let j = choose|j: int| 0 <= j < keys.len() && keys[j] == k;
                if j < init.len() {
                    assert(init[j] == k);
                    assert(a.contains(k));
                    let m = choose|m: int| 0 <= m < a.len() && a[m] == k;
                    assert(now[m] == k);
                } else {
                    assert(now[a.len() as int] == k);
                }
            }
            if now.contains(k) {
                let m = choose|m: int| 0 <= m < now.len() && now[m] == k;
                if m < a.len() {
                    assert(a[m] == k);
                    assert(a.contains(k));
                    let j = choose|j: int| 0 <= j < init.len() && init[j] == k;
                    assert(keys[j] == k);
                }
            }
        }
    }
}

/// The tasks build the parents of the keys, and each key is a child of the task
/// for its parent.
pub proof fn lemma_tasks(keys: Seq<VoxelKey>)
    requires
        keys.len() <= usize::MAX,
    ensures
        forall|k: VoxelKey| #[trigger]
            task_parents(tasks_for(keys)).contains(k) <==> exists|c: VoxelKey| #[trigger]
                keys.contains(c) && parent_key(c) == k,
        task_parents(tasks_for(keys)).no_duplicates(),
        forall|t: int, j: int|
            0 <= t < tasks_for(keys).len() && 0 <= j < tasks_for(keys)[t].1.len()
                ==> parent_key(#[trigger] tasks_for(keys)[t].1[j]) == tasks_for(keys)[t].0,
{
    let all = all_indices(keys.len());
    let root = parent_of_each(keys);
    let gs = group_by(all, root);
    let ts = tasks_for(keys);
    let ps = task_parents(ts);
    lemma_group_by(all, root);
    lemma_group_bounds(all, root, keys.len());
    lemma_no_ungrouped(all, root);
    assert(ps.no_duplicates()) by {
        assert forall|a: int, b: int| 0 <= a < ps.len() && 0 <= b < ps.len() && a != b implies
        ps[a] != ps[b] by {
            if a < b {
                assert(key_lt(gs[a].0, gs[b].0));
            } else {
                assert(key_lt(gs[b].0, gs[a].0));
            }
        }
    }
    assert forall|t: int, j: int| 0 <= t < ts.len() && 0 <= j < ts[t].1.len() implies parent_key(
        #[trigger] ts[t].1[j],
    ) == ts[t].0 by {
        assert(root(gs[t].1[j]) == Some(gs[t].0));
        assert(gs[t].1[j] < keys.len());
    }
    assert forall|k: VoxelKey| #[trigger] ps.contains(k) <==> exists|c: VoxelKey| #[trigger]
        keys.contains(c) && parent_key(c) == k by {
        if ps.contains(k) {
            let t = choose|t: int| 0 <= t < ps.len() && ps[t] == k;
            assert(gs[t].1.len() > 0);
            let m = gs[t].1[0];
            assert(m < keys.len());
            assert(root(m) == Some(gs[t].0));
            assert(keys.contains(keys[m as int]));
        }
        if exists|c: VoxelKey| #[trigger] keys.contains(c) && parent_key(c) == k {
            let c = choose|c: VoxelKey| #[trigger] keys.contains(c) && parent_key(c) == k;
            let i = choose|i: int| 0 <= i < keys.len() && keys[i] == c;
            lemma_in_a_group(keys, i);
            let t = choose|t: int|
                0 <= t < gs.len() && (#[trigger] gs[t]).1.contains(i as usize);
            let j = choose|j: int| 0 <= j < gs[t].1.len() && gs[t].1[j] == i as usize;
            assert(root(gs[t].1[j]) == Some(gs[t].0));
            assert(ps[t] == k);
        }
    }
}

proof fn lemma_no_ungrouped(sel: Seq<usize>, root: spec_fn(usize) -> Option<VoxelKey>)
    requires
        forall|i: usize| #[trigger] root(i) is Some,
    ensures
        ungrouped(sel, root).len() == 0,
    decreases sel.len(),
{
    if sel.len() > 0 {
        lemma_no_ungrouped(sel.drop_last(), root);
        assert(root(sel.last()) is Some);
    }
}

/// Every key is in a group.
proof fn lemma_in_a_group(keys: Seq<VoxelKey>, i: int)
    requires
        0 <= i < keys.len() <= usize::MAX,
    ensures
        exists|t: int|
            0 <= t < group_by(all_indices(keys.len()), parent_of_each(keys)).len() && (
            #[trigger] group_by(all_indices(keys.len()), parent_of_each(keys))[t]).1.contains(
                i as usize,
            ),
{
    broadcast use vstd::seq_lib::group_to_multiset_ensures;

    let all = all_indices(keys.len());
    let root = parent_of_each(keys);
    let gs = group_by(all, root);
    let un = ungrouped(all, root);
    lemma_group_by(all, root);
    lemma_no_ungrouped(all, root);
    assert(all[i] == i as usize);
    assert(all.contains(i as usize));
    assert(all.to_multiset().count(i as usize) > 0);
    vstd::seq_lib::to_multiset_len(un);
    assert(un.to_multiset().count(i as usize) == 0) by {
        assert(!un.contains(i as usize));
    }
    lemma_item_in_group(gs, i as usize);
}

proof fn lemma_item_in_group(gs: Seq<(VoxelKey, Seq<usize>)>, v: usize)
    requires
        crate::grouping::grouped_items(gs).count(v) > 0,
    ensures
        exists|t: int| 0 <= t < gs.len() && (#[trigger] gs[t]).1.contains(v),
    decreases gs.len(),
{
    broadcast use vstd::seq_lib::group_to_multiset_ensures;

    if gs[0].1.to_multiset().count(v) > 0 {
        assert(gs[0].1.contains(v));
    } else {
        let rest = gs.drop_first();
        lemma_item_in_group(rest, v);
        let t = choose|t: int| 0 <= t < rest.len() && (#[trigger] rest[t]).1.contains(v);
        assert(gs[t + 1] == rest[t]);
    }
}

/// How many keys lie at level `d` or below it.
pub open spec fn deep_count(keys: Seq<VoxelKey>, d: int) -> nat
    decreases keys.len(),
{
    if keys.len() == 0 {
        0
    } else {
        deep_count(keys.drop_last(), d) + if keys.last().level >= d {
            1nat
        } else {
            0nat
        }
    }
}

proof fn lemma_deep_count(keys: Seq<VoxelKey>, d: int)
    ensures
        deep_count(keys, d) == at_level(keys, d).len() + deep_count(keys, d + 1),
        deep_count(keys, d) <= keys.len(),
    decreases keys.len(),
{
    if keys.len() > 0 {
        lemma_deep_count(keys.drop_last(), d);
    }
}

proof fn lemma_dedup_len(keys: Seq<VoxelKey>)
    ensures
        dedup(keys).len() <= keys.len(),
    decreases keys.len(),
{
    if keys.len() > 0 {
        lemma_dedup_len(keys.drop_last());
    }
}

/// The keys at level `d` lie at level `d`.
pub proof fn lemma_level_keys_level(roots: Seq<VoxelKey>, d: int, max: int)
    requires
        roots.len() <= usize::MAX,
        d > i32::MIN,
        max < i32::MAX,
    ensures
        forall|i: int|
            0 <= i < level_keys(roots, d, max).len() ==> (#[trigger] level_keys(roots, d, max)[
                i
            ]).level == d,
        level_keys(roots, d, max).len() <= deep_count(roots, d) <= roots.len(),
    decreases max - d + 1,
{
    lemma_deep_count(roots, d);
    if d <= max {
        lemma_level_keys_level(roots, d + 1, max);
        let below = level_keys(roots, d + 1, max);
        let ps = task_parents(tasks_for(below));
        let keys = level_keys(roots, d, max);
        lemma_tasks(below);
        lemma_at_level(roots, d);
        lemma_dedup(at_level(roots, d) + ps);
        assert forall|i: int| 0 <= i < keys.len() implies (#[trigger] keys[i]).level == d by {
            assert(keys.contains(keys[i]));
            let both = at_level(roots, d) + ps;
            let j = choose|j: int| 0 <= j < both.len() && both[j] == keys[i];
            if j < at_level(roots, d).len() {
                assert(at_level(roots, d)[j] == keys[i]);
                assert(at_level(roots, d).contains(keys[i]));
            } else {
                assert(ps[j - at_level(roots, d).len()] == keys[i]);
                assert(ps.contains(keys[i]));
                let c = choose|c: VoxelKey| #[trigger]
                    below.contains(c) && parent_key(c) == keys[i];
                let m = choose|m: int| 0 <= m < below.len() && below[m] == c;
                assert(below[m].level == d + 1);
            }
        }
        lemma_group_by(all_indices(below.len()), parent_of_each(below));
        lemma_dedup_len(at_level(roots, d) + ps);
    }
}

/// Which keys there are at level `d`.
pub proof fn lemma_level_keys_contains(roots: Seq<VoxelKey>, d: int, max: int)
    requires
        roots.len() <= usize::MAX,
        d > i32::MIN,
        d <= max < i32::MAX,
    ensures
        forall|k: VoxelKey| #[trigger]
            level_keys(roots, d, max).contains(k) <==> (roots.contains(k) && k.level == d)
                || task_parents(tasks_for(level_keys(roots, d + 1, max))).contains(k),
{
    let below = level_keys(roots, d + 1, max);
    let ps = task_parents(tasks_for(below));
    let own = at_level(roots, d);
    let both = own + ps;
    lemma_at_level(roots, d);
    lemma_dedup(both);
    assert forall|k: VoxelKey| #[trigger] level_keys(roots, d, max).contains(k) <==> (
    roots.contains(k) && k.level == d) || ps.contains(k) by {
        if both.contains(k) {
            let j = choose|j: int| 0 <= j < both.len() && both[j] == k;
            if j < own.len() {
                assert(own[j] == k);
                assert(own.contains(k));
            } else {
                assert(ps[j - own.len()] == k);
            }
        }
        if roots.contains(k) && k.level == d {
            assert(own.contains(k));
            let j = choose|j: int| 0 <= j < own.len() && own[j] == k;
            assert(both[j] == k);
        }
        if ps.contains(k) {
            let j = choose|j: int| 0 <= j < ps.len() && ps[j] == k;
            assert(both[own.len() + j] == k);
        }
    }
}

proof fn lemma_max_level(keys: Seq<VoxelKey>, i: int)
    requires
        0 <= i < keys.len(),
    ensures
        keys[i].level <= max_level(keys),
    decreases keys.len(),
{
    if i < keys.len() - 1 {
        assert(keys.drop_last()[i] == keys[i]);
        lemma_max_level(keys.drop_last(), i);
    }
}

/// The tasks of level `d`.
pub open spec fn level_tasks(roots: Seq<VoxelKey>, d: int) -> Seq<TaskView> {
    tasks_for(level_keys(roots, d + 1, max_level(roots)))
}

pub proof fn lemma_schedule_from(roots: Seq<VoxelKey>, d: int, max: int, e: int)
    requires
        0 <= e <= d,
    ensures
        schedule_from(roots, d, max).len() == d + 1,
        schedule_from(roots, d, max)[d - e] == tasks_for(level_keys(roots, e + 1, max)),
    decreases d + 1,
{
    if d > 0 {
        if e < d {
            lemma_schedule_from(roots, d - 1, max, e);
        } else {
            lemma_schedule_from(roots, d - 1, max, 0);
        }
    } else {
        reveal_with_fuel(schedule_from, 3);
    }
}

/// The merge builds every ancestor of every chunk root, up to the root of the
/// octree: the one at level `d` on the level of the schedule that belongs to
/// `d`.
pub proof fn law_schedule_builds_ancestors(roots: Seq<VoxelKey>, i: int, d: int)
    requires
        roots.len() <= usize::MAX,
        0 <= i < roots.len(),
        0 <= d < roots[i].level,
        max_level(roots) < i32::MAX,
    ensures
        d < max_level(roots),
        schedule(roots)[max_level(roots) - 1 - d] == level_tasks(roots, d),
        task_parents(level_tasks(roots, d)).contains(ancestor(roots[i], d)),
    decreases roots[i].level - d,
{
    let max = max_level(roots);
    lemma_max_level(roots, i);
    lemma_schedule_from(roots, max - 1, max, d);
    let below = level_keys(roots, d + 1, max);
    lemma_level_keys_level(roots, d + 1, max);
    lemma_tasks(below);
    lemma_level_keys_contains(roots, d + 1, max);
    if d + 1 == roots[i].level {
        assert(roots.contains(roots[i]));
        assert(below.contains(roots[i]));
        reveal_with_fuel(ancestor, 3);
        assert(parent_key(roots[i]) == ancestor(roots[i], d));
    } else {
        law_schedule_builds_ancestors(roots, i, d + 1);
        let a = ancestor(roots[i], d + 1);
        assert(below.contains(a));
        crate::key::law_ancestor_of_ancestor(roots[i], d + 1, d);
        crate::key::lemma_ancestor_level(roots[i], d + 1);
        reveal_with_fuel(ancestor, 3);
        assert(parent_key(a) == ancestor(roots[i], d));
    }
}

/// On every level of the merge each parent is built once, from children that
/// are its own, each of them once.
pub proof fn law_schedule_tasks(roots: Seq<VoxelKey>, d: int)
    requires
        roots.len() <= usize::MAX,
        0 <= d,
        max_level(roots) < i32::MAX,
    ensures
        task_parents(level_tasks(roots, d)).no_duplicates(),
        forall|t: int, j: int|
            0 <= t < level_tasks(roots, d).len() && 0 <= j < level_tasks(roots, d)[t].1.len()
                ==> {
                let c = #[trigger] level_tasks(roots, d)[t].1[j];
                &&& parent_key(c) == level_tasks(roots, d)[t].0
                &&& c.level == d + 1
                &&& level_keys(roots, d + 1, max_level(roots)).contains(c)
            },
        forall|t: int|
            0 <= t < level_tasks(roots, d).len() ==> {
                &&& (#[trigger] level_tasks(roots, d)[t]).0.level == d
                &&& level_tasks(roots, d)[t].1.no_duplicates()
            },
{
    let max = max_level(roots);
    let below = level_keys(roots, d + 1, max);
    lemma_level_keys_level(roots, d + 1, max);
    lemma_tasks(below);
    let all = all_indices(below.len());
    let root = parent_of_each(below);
    lemma_group_bounds(all, root, below.len());
    let gs = group_by(all, root);
    let ts = level_tasks(roots, d);
    assert forall|t: int, j: int| 0 <= t < ts.len() && 0 <= j < ts[t].1.len() implies {
        let c = #[trigger] ts[t].1[j];
        &&& parent_key(c) == ts[t].0
        &&& c.level == d + 1
        &&& below.contains(c)
    } by {
        assert(gs[t].1[j] < below.len());
        assert(below[gs[t].1[j] as int].level == d + 1);
    }
    assert forall|t: int| 0 <= t < ts.len() implies {
        &&& (#[trigger] ts[t]).0.level == d
        &&& ts[t].1.no_duplicates()
    } by {
        assert(task_parents(ts)[t] == ts[t].0);
        assert(task_parents(ts).contains(ts[t].0));
        let c = choose|c: VoxelKey| #[trigger] below.contains(c) && parent_key(c) == ts[t].0;
        let m = choose|m: int| 0 <= m < below.len() && below[m] == c;
        assert(below[m].level == d + 1);
        lemma_parts_distinct(below.len(), root);
        lemma_groups_disjoint(gs, ungrouped(all, root));
        lemma_level_keys_distinct(roots, d + 1, max);
        assert(gs[t].1.no_duplicates());
        assert forall|a: int, b: int|
            0 <= a < ts[t].1.len() && 0 <= b < ts[t].1.len() && a != b implies ts[t].1[a]
            != ts[t].1[b] by {
            assert(gs[t].1[a] != gs[t].1[b]);
            assert(gs[t].1[a] < below.len() && gs[t].1[b] < below.len());
        }
    }
}

proof fn lemma_level_keys_distinct(roots: Seq<VoxelKey>, d: int, max: int)
    ensures
        level_keys(roots, d, max).no_duplicates(),
{
    if d <= max {
        lemma_dedup(at_level(roots, d) + task_parents(tasks_for(level_keys(roots, d + 1, max))));
    }
}

/// The merge works on nothing but chunk roots and their ancestors.
pub proof fn law_schedule_keys(roots: Seq<VoxelKey>, d: int, k: VoxelKey)
    requires
        roots.len() <= usize::MAX,
        0 <= d,
        max_level(roots) < i32::MAX,
        level_keys(roots, d, max_level(roots)).contains(k),
    ensures
        exists|i: int|
            0 <= i < roots.len() && d <= (#[trigger] roots[i]).level && ancestor(roots[i], d) == k,
    decreases max_level(roots) - d + 1,
{
    let max = max_level(roots);
    if d <= max {
        lemma_level_keys_contains(roots, d, max);
        if roots.contains(k) && k.level == d {
            let i = choose|i: int| 0 <= i < roots.len() && roots[i] == k;
            assert(ancestor(roots[i], d) == k);
        } else {
            let below = level_keys(roots, d + 1, max);
            lemma_level_keys_level(roots, d + 1, max);
            lemma_tasks(below);
            let c = choose|c: VoxelKey| #[trigger] below.contains(c) && parent_key(c) == k;
            law_schedule_keys(roots, d + 1, c);
            let i = choose|i: int|
                0 <= i < roots.len() && d + 1 <= (#[trigger] roots[i]).level && ancestor(
                    roots[i],
                    d + 1,
                ) == c;
            crate::key::law_ancestor_of_ancestor(roots[i], d + 1, d);
            crate::key::lemma_ancestor_level(roots[i], d + 1);
            reveal_with_fuel(ancestor, 3);
            assert(ancestor(c, d) == k);
            assert(ancestor(roots[i], d) == k);
        }
    }
}

// Memory.
/// A parent whose children do not fit the memory budget.
#[derive(Debug, Clone, Copy, PartialEq, Eq, Structural)]
pub struct MergeOverBudget {
    pub parent: VoxelKey,
    pub children: usize,
    pub est_mem: u128,
    pub memory_budget: u64,
}

/// The memory that one point takes while a parent is built: a tagged point and a
/// point, and their extra bytes.
pub fn merge_mem_per_point(tagged_size: u16, point_size: u16, num_extra_bytes: u16) -> (n: u32)
    ensures
        n == tagged_size + point_size + 2 * num_extra_bytes,
{
    tagged_size as u32 + point_size as u32 + 2 * num_extra_bytes as u32
}

/// The sum of the children's point counts.
pub open spec fn sum_counts(counts: Seq<u64>) -> nat
    decreases counts.len(),
{
    if counts.len() == 0 {
        0
    } else {
        sum_counts(counts.drop_last()) + counts.last() as nat
    }
}

/// The memory that each task needs.
pub open spec fn task_sizes(counts: Seq<Vec<u64>>, mem_per_point: u32) -> Seq<u128> {
    counts.map_values(|c: Vec<u64>| (sum_counts(c@) * mem_per_point) as u128)
}

/// The children of each task together have a number of points that 64 bits can
/// hold.
pub open spec fn counts_ok(counts: Seq<Vec<u64>>) -> bool {
    forall|i: int| 0 <= i < counts.len() ==> sum_counts((#[trigger] counts[i])@) <= u64::MAX
}

fn count_points(counts: &Vec<u64>) -> (n: u64)
    requires
        sum_counts(counts@) <= u64::MAX,
    ensures
        n == sum_counts(counts@),
{
    let mut n: u64 = 0;
    let mut i: usize = 0;
    assert(counts@.take(0) =~= Seq::<u64>::empty());
    while i < counts.len()
        invariant
            i <= counts@.len(),
            n == sum_counts(counts@.take(i as int)),
            sum_counts(counts@) <= u64::MAX,
        decreases counts@.len() - i,
    {
        proof {
            assert(counts@.take(i + 1).drop_last() =~= counts@.take(i as int));
            assert(counts@.take(i + 1).last() == counts@[i as int]);
            lemma_sum_counts_prefix(counts@, i + 1);
        }
        n = n + counts[i];
        i = i + 1;
    }
    assert(counts@.take(i as int) =~= counts@);
    n
}

proof fn lemma_sum_counts_prefix(counts: Seq<u64>, n: int)
    requires
        0 <= n <= counts.len(),
    ensures
        sum_counts(counts.take(n)) <= sum_counts(counts),
    decreases counts.len() - n,
{
    if n < counts.len() {
        lemma_sum_counts_prefix(counts, n + 1);
        assert(counts.take(n + 1).drop_last() =~= counts.take(n));
    } else {
        assert(counts.take(n) =~= counts);
    }
}

/// Splits the tasks of one level into batches that fit the memory budget, the
/// largest tasks first. `counts` holds for each task the point counts of its
/// children. Fails on the first task that exceeds the budget on its own.
pub fn plan_merge_level(
    tasks: &Vec<MergeTask>,
    counts: &Vec<Vec<u64>>,
    mem_per_point: u32,
    memory_budget: u64,
) -> (r: Result<Vec<Vec<usize>>, MergeOverBudget>)
    requires
        tasks@.len() == counts@.len(),
        counts_ok(counts@),
    ensures
        match r {
            Ok(b) => {
                &&& batch_views(b@) == batches(task_sizes(counts@, mem_per_point), memory_budget)
                &&& forall|i: int|
                    0 <= i < counts@.len() ==> #[trigger] task_sizes(counts@, mem_per_point)[i]
                        <= memory_budget
            },
            Err(e) => exists|i: int|
                {
                    &&& 0 <= i < tasks@.len()
                    &&& #[trigger] task_sizes(counts@, mem_per_point)[i] > memory_budget
                    &&& forall|j: int|
                        0 <= j < i ==> #[trigger] task_sizes(counts@, mem_per_point)[j]
                            <= memory_budget
                    &&& e.parent == tasks@[i].parent
                    &&& e.children == tasks@[i].children@.len()
                    &&& e.est_mem == task_sizes(counts@, mem_per_point)[i]
                    &&& e.memory_budget == memory_budget
                },
        },
{
    let ghost want = task_sizes(counts@, mem_per_point);
    let mut sizes: Vec<u128> = Vec::new();
    let mut i: usize = 0;
    while i < tasks.len()
        invariant
            i <= tasks@.len(),
            tasks@.len() == counts@.len(),
            counts_ok(counts@),
            want == task_sizes(counts@, mem_per_point),
            sizes@ =~= want.take(i as int),
            forall|j: int| 0 <= j < i ==> #[trigger] want[j] <= memory_budget,
        decreases tasks@.len() - i,
    {
        let n: u64 = count_points(&counts[i]);
        assert(n * mem_per_point <= 0xFFFF_FFFF_FFFF_FFFF * 0xFFFF_FFFF && 0 <= n * mem_per_point)
            by (nonlinear_arith)
            requires
                0 <= n <= 0xFFFF_FFFF_FFFF_FFFF,
                0 <= mem_per_point <= 0xFFFF_FFFF,
        ;
        let est: u128 = n as u128 * mem_per_point as u128;
        assert(est == want[i as int]);
        if est > memory_budget as u128 {
            return Err(
                MergeOverBudget {
                    parent: tasks[i].parent,
                    children: tasks[i].children.len(),
                    est_mem: est,
                    memory_budget,
                },
            );
        }
        sizes.push(est);
        i = i + 1;
    }
    assert(sizes@ =~= want);
    assert(sizes_ok(sizes@));
    Ok(split_batches(&sizes, memory_budget))
}

// The list of nodes.
/// Keys that rise strictly.
pub open spec fn keys_ascend(keys: Seq<VoxelKey>) -> bool {
    forall|i: int, j: int| 0 <= i < j < keys.len() ==> key_lt(#[trigger] keys[i], #[trigger] keys[j])
}

/// The keys in ascending order, each once.
pub fn unique_keys(keys: &Vec<VoxelKey>) -> (out: Vec<VoxelKey>)
    ensures
        keys_ascend(out@),
        forall|k: VoxelKey| #[trigger] out@.contains(k) <==> keys@.contains(k),
{
    let mut codes: Vec<u128> = Vec::new();
    let mut i: usize = 0;
    while i < keys.len()
        invariant
            i <= keys@.len(),
            codes@.len() == i,
            forall|j: int| 0 <= j < i ==> #[trigger] codes@[j] == key_code(keys@[j]),
        decreases keys@.len() - i,
    {
        codes.push(key_id(keys[i]));
        i = i + 1;
    }
    let order = sorted_order(codes.as_slice());
    let n: usize = order.len();
    let mut out: Vec<VoxelKey> = Vec::new();
    let mut i: usize = 0;
    while i < n
        invariant
            n == order@.len() == keys@.len() == codes@.len(),
            i <= n,
            is_sort_order(order@, codes@),
            forall|j: int| 0 <= j < n ==> #[trigger] codes@[j] == key_code(keys@[j]),
            keys_ascend(out@),
            i > 0 ==> out@.len() > 0 && out@.last() == keys@[order@[i - 1] as int],
            i == 0 ==> out@.len() == 0,
            forall|j: int| 0 <= j < i ==> out@.contains(keys@[#[trigger] order@[j] as int]),
            forall|j: int| 0 <= j < out@.len() ==> keys@.contains(#[trigger] out@[j]),
        decreases n - i,
    {
        let k = keys[order[i]];
        let mut fresh: bool = true;
        if i > 0 {
            let last = out[out.len() - 1];
            proof {
                assert(codes@[order@[i - 1] as int] <= codes@[order@[i as int] as int]);
                lemma_key_code_order(last, k);
            }
            if last == k {
                fresh = false;
            }
        }
        let ghost before = out@;
        if fresh {
            proof {
                assert forall|a: int, b: int| 0 <= a < b < before.push(k).len() implies key_lt(
                    #[trigger] before.push(k)[a],
                    #[trigger] before.push(k)[b],
                ) by {
                    if b < before.len() {
                        assert(key_lt(before[a], before[b]));
                    } else {
                        assert(key_lt(before.last(), k));
                        if a < before.len() - 1 {
                            assert(key_lt(before[a], before[before.len() - 1]));
                            crate::key::lemma_key_lt_trans(before[a], before.last(), k);
                        }
                    }
                }
            }
            out.push(k);
            assert(out@[before.len() as int] == k);
        }
        assert(out@.contains(k)) by {
            assert(out@[out@.len() - 1] == k);
        }
        assert forall|j: int| 0 <= j < i + 1 implies out@.contains(
            keys@[#[trigger] order@[j] as int],
        ) by {
            if j < i {
                let kk = keys@[order@[j] as int];
                assert(before.contains(kk));
                let m = choose|m: int| 0 <= m < before.len() && before[m] == kk;
                assert(out@[m] == kk);
            }
        }
        assert(keys@.contains(k));
        i = i + 1;
    }
    assert forall|k: VoxelKey| #[trigger] out@.contains(k) <==> keys@.contains(k) by {
        if keys@.contains(k) {
            let j = choose|j: int| 0 <= j < keys@.len() && keys@[j] == k;
            assert(order@.contains(j as usize));
            let m = choose|m: int| 0 <= m < order@.len() && order@[m] == j as usize;
            assert(out@.contains(keys@[order@[m] as int]));
        }
        if out@.contains(k) {
            let j = choose|j: int| 0 <= j < out@.len() && out@[j] == k;
            assert(keys@.contains(out@[j]));
        }
    }
    out
}

} // verus!
