//! Sorting the points of a chunk into leaves, and splitting leaves that hold
//! too many.

use crate::grouping::{group_views, picked, picked_groups, Group};
use crate::hierarchy::all_indices;
use crate::key::{
    ancestor, ancestor_at_level, key_code, key_id, law_ancestor_of_ancestor,
    lemma_ancestor_level, lemma_key_code_order, VoxelKey,
};
use crate::point::PointView;
use std::collections::HashMap;
use vstd::multiset::Multiset;
use vstd::prelude::*;

verus! {

/// Maximum points per leaf voxel before it is subdivided further.
pub const MAX_LEAF_POINTS: u64 = 100_000;

/// The level at which subdivision stops, whatever a leaf holds.
pub const CHUNK_DEPTH_CAP: i32 = 20;

/// Eight to the power `n`.
pub open spec fn pow8(n: nat) -> nat
    decreases n,
{
    if n == 0 {
        1
    } else {
        8 * pow8((n - 1) as nat)
    }
}

/// Whether `d` levels below the chunk root bring a chunk of `point_count`
/// points down to leaves of the maximum size on average.
pub open spec fn enough_levels(point_count: u64, d: nat) -> bool {
    point_count <= MAX_LEAF_POINTS * pow8(d)
}

/// The least number of levels, from `d` on, that is enough; at most 13.
pub open spec fn extra_levels(point_count: u64, d: nat) -> nat
    decreases 13 - d,
{
    if d >= 13 || enough_levels(point_count, d) {
        d
    } else {
        extra_levels(point_count, d + 1)
    }
}

/// How many extra octree levels a chunk needs to subdivide internally so that
/// its leaves hold at most `MAX_LEAF_POINTS` on average; never more than 13.
/// A chunk at or below that size needs none.
pub fn chunk_local_extra_levels(point_count: u64) -> (d: u32)
    ensures
        d == extra_levels(point_count, 0),
        d <= 13,
{
    let mut d: u32 = 0;
    let mut bound: u64 = MAX_LEAF_POINTS;
    assert(pow8(12) == 0x10_0000_0000) by {
        reveal_with_fuel(pow8, 13);
    }
    while d <= 12 && point_count > bound
        invariant
            d <= 13,
            pow8(12) == 0x10_0000_0000,
            d <= 12 ==> bound == MAX_LEAF_POINTS * pow8(d as nat),
            extra_levels(point_count, 0) == extra_levels(point_count, d as nat),
        decreases 13 - d,
    {
        assert(!enough_levels(point_count, d as nat));
        if d < 12 {
            proof {
                lemma_pow8_monotonic((d + 1) as nat, 12);
                assert(pow8((d + 1) as nat) == 8 * pow8(d as nat));
            }
            bound = bound * 8;
        }
        d = d + 1;
    }
    d
}

proof fn lemma_pow8_monotonic(a: nat, b: nat)
    requires
        a <= b,
    ensures
        0 < pow8(a) <= pow8(b),
    decreases b,
{
    if b > 0 {
        if a < b {
            lemma_pow8_monotonic(a, (b - 1) as nat);
        } else {
            lemma_pow8_monotonic((a - 1) as nat, (b - 1) as nat);
        }
    }
}

/// The last group with key `k`.
pub open spec fn position(gs: Seq<(VoxelKey, Seq<usize>)>, k: VoxelKey) -> Option<int>
    decreases gs.len(),
{
    if gs.len() == 0 {
        None
    } else if gs.last().0 == k {
        Some(gs.len() - 1)
    } else {
        position(gs.drop_last(), k)
    }
}

/// Puts item `i` under key `k`: behind the other items of that key, or as a new
/// group behind the other groups.
pub open spec fn put(gs: Seq<(VoxelKey, Seq<usize>)>, k: VoxelKey, i: usize) -> Seq<
    (VoxelKey, Seq<usize>),
> {
    match position(gs, k) {
        Some(p) => gs.update(p, (k, gs[p].1.push(i))),
        None => gs.push((k, seq![i])),
    }
}

/// The points `sel`, grouped by the voxel that they lie in at `level`. Groups
/// come in the order of their first points.
pub open spec fn classified(keys: Seq<VoxelKey>, sel: Seq<usize>, level: int) -> Seq<
    (VoxelKey, Seq<usize>),
>
    decreases sel.len(),
{
    if sel.len() == 0 {
        Seq::empty()
    } else {
        put(
            classified(keys, sel.drop_last(), level),
            ancestor(keys[sel.last() as int], level),
            sel.last(),
        )
    }
}

proof fn lemma_position(gs: Seq<(VoxelKey, Seq<usize>)>, k: VoxelKey)
    ensures
        match position(gs, k) {
            Some(p) => 0 <= p < gs.len() && gs[p].0 == k,
            None => forall|p: int| 0 <= p < gs.len() ==> (#[trigger] gs[p]).0 != k,
        },
    decreases gs.len(),
{
    if gs.len() > 0 && gs.last().0 != k {
        lemma_position(gs.drop_last(), k);
        assert forall|p: int|
            0 <= p < gs.len() && position(gs, k) is None implies (#[trigger] gs[p]).0 != k by {
            if p < gs.len() - 1 {
                assert(gs.drop_last()[p] == gs[p]);
            }
        }
    }
}

/// No two groups have the same key.
pub open spec fn distinct_keys(gs: Seq<(VoxelKey, Seq<usize>)>) -> bool {
    forall|p: int, q: int|
        0 <= p < gs.len() && 0 <= q < gs.len() && p != q ==> (#[trigger] gs[p]).0 != (
        #[trigger] gs[q]).0
}

/// `index` says where each key's group is.
spec fn indexes(index: Map<u128, usize>, gs: Seq<(VoxelKey, Seq<usize>)>) -> bool {
    &&& forall|p: int|
        0 <= p < gs.len() ==> index.contains_key(key_code((#[trigger] gs[p]).0) as u128)
            && index[key_code(gs[p].0) as u128] == p
    &&& forall|c: u128| #[trigger]
        index.contains_key(c) ==> exists|p: int|
            0 <= p < gs.len() && key_code((#[trigger] gs[p]).0) == c
}

/// Groups the points `sel` by the voxel that they lie in at `level`; `keys`
/// holds for each point the key of a voxel at that level or below.
pub fn classify(keys: &Vec<VoxelKey>, sel: &Vec<usize>, level: i32) -> (groups: Vec<Group>)
    requires
        level >= 0,
        forall|i: int| 0 <= i < sel@.len() ==> #[trigger] sel@[i] < keys@.len(),
    ensures
        group_views(groups@) == classified(keys@, sel@, level as int),
{
    broadcast use vstd::std_specs::hash::group_hash_axioms;

    let mut groups: Vec<Group> = Vec::new();
    let mut index: HashMap<u128, usize> = HashMap::new();
    let mut i: usize = 0;
    assert(sel@.take(0) =~= Seq::<usize>::empty());
    assert(group_views(groups@) =~= Seq::<(VoxelKey, Seq<usize>)>::empty());
    while i < sel.len()
        invariant
            i <= sel@.len(),
            level >= 0,
            forall|i: int| 0 <= i < sel@.len() ==> #[trigger] sel@[i] < keys@.len(),
            group_views(groups@) == classified(keys@, sel@.take(i as int), level as int),
            indexes(index@, group_views(groups@)),
        decreases sel@.len() - i,
    {
        broadcast use vstd::std_specs::hash::group_hash_axioms;

        let ghost gs = group_views(groups@);
        let item: usize = sel[i];
        let key = ancestor_at_level(keys[item], level);
        let id: u128 = key_id(key);
        proof {
            let more = sel@.take(i + 1);
            assert(more.drop_last() =~= sel@.take(i as int));
            assert(more.last() == item);
            lemma_position(gs, key);
        }
        let mut found: Option<usize> = None;
        match index.get(&id) {
            Some(p) => {
                found = Some(*p);
            },
            None => {},
        }
        match found {
            Some(p) => {
                proof {
                    assert(index@.contains_key(id));
                    let q = choose|q: int|
                        0 <= q < gs.len() && key_code((#[trigger] gs[q]).0) == id;
                    lemma_key_code_order(gs[q].0, key);
                    assert(index@[key_code(gs[q].0) as u128] == q);
                    assert(p == q);
                    match position(gs, key) {
                        Some(r) => {
                            assert(index@[key_code(gs[r].0) as u128] == r);
                        },
                        None => {
                            assert(gs[q].0 != key);
                        },
                    }
                }
                groups[p].members.push(item);
                proof {
                    assert(group_views(groups@) =~= put(gs, key, item));
                    let now = group_views(groups@);
                    assert forall|r: int| 0 <= r < now.len() implies index@.contains_key(
                        key_code((#[trigger] now[r]).0) as u128,
                    ) && index@[key_code(now[r].0) as u128] == r by {
                        assert(now[r].0 == gs[r].0);
                    }
                    assert forall|c: u128| #[trigger] index@.contains_key(c) implies exists|r: int|
                        0 <= r < now.len() && key_code((#[trigger] now[r]).0) == c by {
                        let r = choose|r: int|
                            0 <= r < gs.len() && key_code((#[trigger] gs[r]).0) == c;
                        assert(now[r].0 == gs[r].0);
                    }
                }
            },
            None => {
                proof {
                    match position(gs, key) {
                        Some(r) => {
                            assert(index@.contains_key(key_code(gs[r].0) as u128));
                        },
                        None => {},
                    }
                }
                let ghost old_index = index@;
                let mut members: Vec<usize> = Vec::new();
                members.push(item);
                assert(members@ =~= seq![item]);
                index.insert(id, groups.len());
                groups.push(Group { key, members });
                proof {
                    let now = group_views(groups@);
                    assert(now =~= put(gs, key, item));
                    assert forall|r: int| 0 <= r < now.len() implies index@.contains_key(
                        key_code((#[trigger] now[r]).0) as u128,
                    ) && index@[key_code(now[r].0) as u128] == r by {
                        if r < gs.len() {
                            assert(now[r] == gs[r]);
                            assert(old_index.contains_key(key_code(gs[r].0) as u128));
                        }
                    }
                    assert forall|c: u128| #[trigger] index@.contains_key(c) implies exists|r: int|
                        0 <= r < now.len() && key_code((#[trigger] now[r]).0) == c by {
                        if c == id {
                            assert(now[gs.len() as int].0 == key);
                        } else {
                            assert(old_index.contains_key(c));
                            let r = choose|r: int|
                                0 <= r < gs.len() && key_code((#[trigger] gs[r]).0) == c;
                            assert(now[r] == gs[r]);
                        }
                    }
                }
            },
        }
        i = i + 1;
    }
    assert(sel@.take(i as int) =~= sel@);
    groups
}

/// Whether a leaf holds too many points.
pub open spec fn oversized(leaf: (VoxelKey, Seq<usize>)) -> bool {
    leaf.1.len() > MAX_LEAF_POINTS
}

/// Whether subdivision goes on: some leaf is oversized, and none of the
/// oversized ones has reached the depth cap.
pub open spec fn goes_on(leaves: Seq<(VoxelKey, Seq<usize>)>) -> bool {
    &&& exists|i: int| 0 <= i < leaves.len() && oversized(#[trigger] leaves[i])
    &&& forall|i: int|
        0 <= i < leaves.len() && oversized(#[trigger] leaves[i]) ==> leaves[i].0.level
            < CHUNK_DEPTH_CAP
}

/// One round: each oversized leaf is replaced by its children.
pub open spec fn split_round(keys: Seq<VoxelKey>, leaves: Seq<(VoxelKey, Seq<usize>)>) -> Seq<
    (VoxelKey, Seq<usize>),
>
    decreases leaves.len(),
{
    if leaves.len() == 0 {
        Seq::empty()
    } else {
        let leaf = leaves.last();
        split_round(keys, leaves.drop_last()) + if oversized(leaf) {
            classified(keys, leaf.1, leaf.0.level + 1)
        } else {
            seq![leaf]
        }
    }
}

/// The leaves after at most `rounds` rounds.
pub open spec fn subdivided(
    keys: Seq<VoxelKey>,
    leaves: Seq<(VoxelKey, Seq<usize>)>,
    rounds: nat,
) -> Seq<(VoxelKey, Seq<usize>)>
    decreases rounds,
{
    if rounds == 0 || !goes_on(leaves) {
        leaves
    } else {
        subdivided(keys, split_round(keys, leaves), (rounds - 1) as nat)
    }
}

/// Every item of every leaf is one of `n` points, and every leaf lies at `low`
/// or below it.
pub open spec fn leaves_in_range(leaves: Seq<(VoxelKey, Seq<usize>)>, n: nat, low: int) -> bool {
    forall|i: int|
        0 <= i < leaves.len() ==> {
            &&& (#[trigger] leaves[i]).0.level >= low
            &&& forall|j: int| 0 <= j < leaves[i].1.len() ==> #[trigger] leaves[i].1[j] < n
        }
}

/// Every oversized leaf lies at `low` or below it.
pub open spec fn oversized_below(leaves: Seq<(VoxelKey, Seq<usize>)>, low: int) -> bool {
    forall|i: int|
        0 <= i < leaves.len() && oversized(#[trigger] leaves[i]) ==> leaves[i].0.level >= low
}

proof fn lemma_classified_range(keys: Seq<VoxelKey>, sel: Seq<usize>, level: int, n: nat)
    requires
        level >= 0,
        n <= keys.len(),
        forall|i: int| 0 <= i < sel.len() ==> #[trigger] sel[i] < n,
        forall|i: int| 0 <= i < keys.len() ==> (#[trigger] keys[i]).level >= level,
    ensures
        leaves_in_range(classified(keys, sel, level), n, level),
        forall|i: int|
            0 <= i < classified(keys, sel, level).len() ==> (#[trigger] classified(
                keys,
                sel,
                level,
            )[i]).0.level == level,
    decreases sel.len(),
{
    if sel.len() > 0 {
        let init = sel.drop_last();
        assert forall|i: int| 0 <= i < init.len() implies #[trigger] init[i] < n by {
            assert(init[i] == sel[i]);
        }
        lemma_classified_range(keys, init, level, n);
        let gs = classified(keys, init, level);
        let last = sel.last();
        assert(sel[sel.len() - 1] == last);
        let k = ancestor(keys[last as int], level);
        lemma_ancestor_level(keys[last as int], level);
        lemma_position(gs, k);
        let now = put(gs, k, last);
        assert forall|i: int| 0 <= i < now.len() implies {
            &&& (#[trigger] now[i]).0.level == level
            &&& forall|j: int| 0 <= j < now[i].1.len() ==> #[trigger] now[i].1[j] < n
        } by {
            match position(gs, k) {
                Some(p) => {
                    assert(gs[i].0.level == level);
                    if i == p {
                        assert forall|j: int| 0 <= j < now[i].1.len() implies #[trigger] now[i].1[j]
                            < n by {
                            if j < gs[p].1.len() {
                                assert(gs[p].1[j] < n);
                            }
                        }
                    }
                },
                None => {
                    if i < gs.len() {
                        assert(now[i] == gs[i]);
                    }
                },
            }
        }
    }
}

/// One round keeps the leaves in range, and moves oversized leaves down.
pub proof fn lemma_round_range(
    keys: Seq<VoxelKey>,
    leaves: Seq<(VoxelKey, Seq<usize>)>,
    low: int,
    floor: int,
)
    requires
        0 <= low,
        leaves_in_range(leaves, keys.len(), low),
        oversized_below(leaves, floor),
        forall|i: int|
            0 <= i < leaves.len() && oversized(#[trigger] leaves[i]) ==> leaves[i].0.level
                < CHUNK_DEPTH_CAP,
        forall|i: int| 0 <= i < keys.len() ==> (#[trigger] keys[i]).level >= CHUNK_DEPTH_CAP,
    ensures
        leaves_in_range(split_round(keys, leaves), keys.len(), low),
        oversized_below(split_round(keys, leaves), floor + 1),
    decreases leaves.len(),
{
    if leaves.len() > 0 {
        let init = leaves.drop_last();
        let leaf = leaves.last();
        assert(leaves[leaves.len() - 1] == leaf);
        assert forall|i: int| 0 <= i < init.len() implies {
            &&& (#[trigger] init[i]).0.level >= low
            &&& forall|j: int| 0 <= j < init[i].1.len() ==> #[trigger] init[i].1[j] < keys.len()
        } by {
            assert(init[i] == leaves[i]);
        }
        assert(oversized_below(init, floor)) by {
            assert forall|i: int| 0 <= i < init.len() && oversized(#[trigger] init[i]) implies
            init[i].0.level >= floor by {
                assert(init[i] == leaves[i]);
            }
        }
        lemma_round_range(keys, init, low, floor);
        let a = split_round(keys, init);
        let b = if oversized(leaf) {
            classified(keys, leaf.1, leaf.0.level + 1)
        } else {
            seq![leaf]
        };
        let all = split_round(keys, leaves);
        assert(all =~= a + b);
        if oversized(leaf) {
            lemma_classified_range(keys, leaf.1, leaf.0.level + 1, keys.len());
        }
        assert forall|i: int| 0 <= i < all.len() implies {
            &&& (#[trigger] all[i]).0.level >= low
            &&& forall|j: int| 0 <= j < all[i].1.len() ==> #[trigger] all[i].1[j] < keys.len()
        } by {
            if i < a.len() {
                assert(all[i] == a[i]);
            } else {
                assert(all[i] == b[i - a.len()]);
            }
        }
        assert forall|i: int| 0 <= i < all.len() && oversized(#[trigger] all[i]) implies
        all[i].0.level >= floor + 1 by {
            if i < a.len() {
                assert(all[i] == a[i]);
            } else {
                assert(all[i] == b[i - a.len()]);
            }
        }
    }
}

/// Whether subdivision goes on.
fn must_split(leaves: &Vec<Group>) -> (r: bool)
    ensures
        r == goes_on(group_views(leaves@)),
{
    let ghost gs = group_views(leaves@);
    let mut any: bool = false;
    let mut i: usize = 0;
    while i < leaves.len()
        invariant
            i <= leaves@.len(),
            gs == group_views(leaves@),
            any == exists|k: int| 0 <= k < i && oversized(#[trigger] gs[k]),
            forall|k: int|
                0 <= k < i && oversized(#[trigger] gs[k]) ==> gs[k].0.level < CHUNK_DEPTH_CAP,
        decreases leaves@.len() - i,
    {
        assert(gs[i as int] == (leaves@[i as int].key, leaves@[i as int].members@));
        if leaves[i].members.len() as u64 > MAX_LEAF_POINTS {
            assert(oversized(gs[i as int]));
            if leaves[i].key.level >= CHUNK_DEPTH_CAP {
                return false;
            }
            any = true;
        }
        i = i + 1;
    }
    any
}

/// Splits each oversized leaf into its children.
fn split_leaves(keys: &Vec<VoxelKey>, leaves: Vec<Group>) -> (out: Vec<Group>)
    requires
        leaves_in_range(group_views(leaves@), keys@.len(), 0),
        goes_on(group_views(leaves@)),
    ensures
        group_views(out@) == split_round(keys@, group_views(leaves@)),
{
    let ghost gs = group_views(leaves@);
    let mut leaves = leaves;
    let mut out: Vec<Group> = Vec::new();
    let n: usize = leaves.len();
    let mut i: usize = 0;
    assert(gs.take(0) =~= Seq::<(VoxelKey, Seq<usize>)>::empty());
    assert(group_views(out@) =~= split_round(keys@, gs.take(0)));
    while i < n
        invariant
            i <= n,
            n == leaves@.len(),
            n == gs.len(),
            leaves_in_range(gs, keys@.len(), 0),
            goes_on(gs),
            forall|k: int| i <= k < n ==> gs[k] == (
                (#[trigger] leaves@[k]).key,
                leaves@[k].members@,
            ),
            group_views(out@) == split_round(keys@, gs.take(i as int)),
        decreases n - i,
    {
        let key = leaves[i].key;
        let mut members: Vec<usize> = Vec::new();
        core::mem::swap(&mut leaves[i].members, &mut members);
        let ghost leaf = gs[i as int];
        let ghost so_far = group_views(out@);
        proof {
            assert(leaf == (key, members@));
            assert(gs.take(i + 1).drop_last() =~= gs.take(i as int));
            assert(gs.take(i + 1).last() == leaf);
        }
        if members.len() as u64 > MAX_LEAF_POINTS {
            assert(oversized(leaf));
            let mut children = classify(keys, &members, key.level + 1);
            let ghost kids = group_views(children@);
            out.append(&mut children);
            assert(group_views(out@) =~= so_far + kids);
        } else {
            out.push(Group { key, members });
            assert(group_views(out@) =~= so_far + seq![leaf]);
        }
        i = i + 1;
    }
    assert(gs.take(i as int) =~= gs);
    out
}

/// Repeatedly splits every leaf that exceeds `MAX_LEAF_POINTS` into its
/// children one level deeper, until no leaf is oversized or an oversized leaf
/// has reached the depth cap. All leaves lie at `level` to begin with.
pub fn subdivide(keys: &Vec<VoxelKey>, leaves: Vec<Group>, level: i32) -> (out: Vec<Group>)
    requires
        level >= 0,
        leaves_in_range(group_views(leaves@), keys@.len(), level as int),
        forall|i: int| 0 <= i < keys@.len() ==> (#[trigger] keys@[i]).level >= CHUNK_DEPTH_CAP,
    ensures
        group_views(out@) == subdivided(
            keys@,
            group_views(leaves@),
            CHUNK_DEPTH_CAP as nat,
        ),
        !goes_on(group_views(out@)),
{
    let mut leaves = leaves;
    let ghost all = subdivided(keys@, group_views(leaves@), CHUNK_DEPTH_CAP as nat);
    let ghost mut r: int = 0;
    while must_split(&leaves)
        invariant
            level >= 0,
            0 <= r <= CHUNK_DEPTH_CAP,
            leaves_in_range(group_views(leaves@), keys@.len(), 0),
            oversized_below(group_views(leaves@), level + r),
            forall|i: int| 0 <= i < keys@.len() ==> (#[trigger] keys@[i]).level >= CHUNK_DEPTH_CAP,
            all == subdivided(keys@, group_views(leaves@), (CHUNK_DEPTH_CAP - r) as nat),
        decreases CHUNK_DEPTH_CAP - r,
    {
        proof {
            let gs = group_views(leaves@);
            let i = choose|i: int| 0 <= i < gs.len() && oversized(#[trigger] gs[i]);
            assert(gs[i].0.level >= level + r);
            lemma_round_range(keys@, gs, 0, level + r);
            r = r + 1;
        }
        leaves = split_leaves(keys, leaves);
    }
    leaves
}

// What holds of the leaves.
/// Every leaf has points, all of them points of `sel` that lie in its voxel, and
/// has all such points.
pub open spec fn sorts(
    keys: Seq<VoxelKey>,
    sel: Seq<usize>,
    leaves: Seq<(VoxelKey, Seq<usize>)>,
) -> bool {
    forall|i: int|
        0 <= i < leaves.len() ==> {
            &&& (#[trigger] leaves[i]).1.len() > 0
            &&& leaf_is_sound(keys, sel, leaves[i])
            &&& leaf_is_complete(keys, sel, leaves[i])
        }
}

/// The leaf's points are points of `sel` that lie in its voxel.
pub open spec fn leaf_is_sound(
    keys: Seq<VoxelKey>,
    sel: Seq<usize>,
    leaf: (VoxelKey, Seq<usize>),
) -> bool {
    forall|m: usize| #[trigger]
        leaf.1.contains(m) ==> {
            &&& sel.contains(m)
            &&& ancestor(keys[m as int], leaf.0.level as int) == leaf.0
        }
}

/// The leaf has all points of `sel` that lie in its voxel.
pub open spec fn leaf_is_complete(
    keys: Seq<VoxelKey>,
    sel: Seq<usize>,
    leaf: (VoxelKey, Seq<usize>),
) -> bool {
    forall|m: usize| #[trigger]
        sel.contains(m) && ancestor(keys[m as int], leaf.0.level as int) == leaf.0
            ==> leaf.1.contains(m)
}

proof fn lemma_push_contains(s: Seq<usize>, v: usize)
    ensures
        forall|m: usize| #[trigger] s.push(v).contains(m) <==> s.contains(m) || m == v,
{
    assert forall|m: usize| #[trigger] s.push(v).contains(m) <==> s.contains(m) || m == v by {
        if s.contains(m) {
            let k = choose|k: int| 0 <= k < s.len() && s[k] == m;
            assert(s.push(v)[k] == m);
        }
        if m == v {
            assert(s.push(v)[s.len() as int] == m);
        }
        if s.push(v).contains(m) && m != v {
            let k = choose|k: int| 0 <= k < s.push(v).len() && s.push(v)[k] == m;
            assert(s[k] == m);
        }
    }
}

/// Grouping by voxel puts every point into the leaf of its voxel.
proof fn lemma_classified_sorts(keys: Seq<VoxelKey>, sel: Seq<usize>, level: int)
    requires
        level >= 0,
        forall|i: int| 0 <= i < sel.len() ==> #[trigger] sel[i] < keys.len(),
        forall|i: int| 0 <= i < keys.len() ==> (#[trigger] keys[i]).level >= level,
    ensures
        sorts(keys, sel, classified(keys, sel, level)),
        distinct_keys(classified(keys, sel, level)),
    decreases sel.len(),
{
    if sel.len() > 0 {
        let init = sel.drop_last();
        let last = sel.last();
        assert forall|i: int| 0 <= i < init.len() implies #[trigger] init[i] < keys.len() by {
            assert(init[i] == sel[i]);
        }
        assert(sel[sel.len() - 1] == last);
        lemma_classified_sorts(keys, init, level);
        lemma_classified_range(keys, init, level, keys.len());
        let gs = classified(keys, init, level);
        let k = ancestor(keys[last as int], level);
        lemma_ancestor_level(keys[last as int], level);
        lemma_position(gs, k);
        let now = classified(keys, sel, level);
        assert(sel =~= init.push(last));
        lemma_push_contains(init, last);
        assert forall|i: int| 0 <= i < now.len() implies {
            &&& (#[trigger] now[i]).1.len() > 0
            &&& leaf_is_sound(keys, sel, now[i])
            &&& leaf_is_complete(keys, sel, now[i])
        } by {
            match position(gs, k) {
                Some(p) => {
                    assert(gs[i].1.len() > 0);
                    assert(gs[i].0.level == level);
                    if i == p {
                        lemma_push_contains(gs[p].1, last);
                        assert(now[i] == (k, gs[p].1.push(last)));
                    } else {
                        assert(now[i] == gs[i]);
                        assert(gs[i].0 != gs[p].0);
                    }
                },
                None => {
                    if i < gs.len() {
                        assert(now[i] == gs[i]);
                        assert(gs[i].0.level == level);
                    } else {
                        let one = seq![last];
                        assert(now[i] == (k, one));
                        assert(one[0] == last);
                        assert(one.contains(last));
                        assert forall|m: usize| #[trigger] sel.contains(m) && ancestor(
                            keys[m as int],
                            level,
                        ) == k implies one.contains(m) by {
                            if m != last {
                                assert(init.contains(m));
                                lemma_classified_covers(keys, init, level, m);
                                let q = choose|q: int|
                                    0 <= q < gs.len() && (#[trigger] gs[q]).0 == ancestor(
                                        keys[m as int],
                                        level,
                                    );
                                assert(gs[q].0 != k);
                            }
                        }
                    }
                },
            }
        }
        assert(distinct_keys(now)) by {
            assert forall|p: int, q: int|
                0 <= p < now.len() && 0 <= q < now.len() && p != q implies (#[trigger] now[p]).0 != (
            #[trigger] now[q]).0 by {
                match position(gs, k) {
                    Some(r) => {
                        assert(now[p].0 == gs[p].0 && now[q].0 == gs[q].0);
                    },
                    None => {
                        if p < gs.len() && q < gs.len() {
                            assert(now[p] == gs[p] && now[q] == gs[q]);
                        } else if p < gs.len() {
                            assert(now[p] == gs[p]);
                        } else {
                            assert(now[q] == gs[q]);
                        }
                    },
                }
            }
        }
    }
}

/// Every point's voxel has a group.
proof fn lemma_classified_covers(keys: Seq<VoxelKey>, sel: Seq<usize>, level: int, m: usize)
    requires
        sel.contains(m),
    ensures
        exists|q: int|
            0 <= q < classified(keys, sel, level).len() && (#[trigger] classified(
                keys,
                sel,
                level,
            )[q]).0 == ancestor(keys[m as int], level),
    decreases sel.len(),
{
    let init = sel.drop_last();
    let last = sel.last();
    let gs = classified(keys, init, level);
    let now = classified(keys, sel, level);
    let k = ancestor(keys[last as int], level);
    lemma_position(gs, k);
    if m == last {
        match position(gs, k) {
            Some(p) => {
                assert(now[p].0 == k);
            },
            None => {
                assert(now[gs.len() as int].0 == k);
            },
        }
    } else {
        let j = choose|j: int| 0 <= j < sel.len() && sel[j] == m;
        assert(init[j] == m);
        lemma_classified_covers(keys, init, level, m);
        let q = choose|q: int|
            0 <= q < gs.len() && (#[trigger] gs[q]).0 == ancestor(keys[m as int], level);
        assert(now[q].0 == gs[q].0);
    }
}

proof fn lemma_picked_update<T>(
    value: spec_fn(usize) -> T,
    gs: Seq<(VoxelKey, Seq<usize>)>,
    p: int,
    i: usize,
)
    requires
        0 <= p < gs.len(),
    ensures
        picked_groups(value, gs.update(p, (gs[p].0, gs[p].1.push(i)))) == picked_groups(
            value,
            gs,
        ).insert(value(i)),
    decreases gs.len(),
{
    let now = gs.update(p, (gs[p].0, gs[p].1.push(i)));
    assert(gs[p].1.push(i).drop_last() =~= gs[p].1);
    if p == gs.len() - 1 {
        assert(now.drop_last() =~= gs.drop_last());
    } else {
        lemma_picked_update(value, gs.drop_last(), p, i);
        assert(now.drop_last() =~= gs.drop_last().update(
            p,
            (gs.drop_last()[p].0, gs.drop_last()[p].1.push(i)),
        ));
        assert(now.last() == gs.last());
    }
    assert(picked_groups(value, now) =~= picked_groups(value, gs).insert(value(i)));
}

/// Grouping by voxel keeps every point.
pub proof fn lemma_classified_conserves<T>(
    value: spec_fn(usize) -> T,
    keys: Seq<VoxelKey>,
    sel: Seq<usize>,
    level: int,
)
    ensures
        picked_groups(value, classified(keys, sel, level)) == picked(value, sel),
    decreases sel.len(),
{
    if sel.len() > 0 {
        let init = sel.drop_last();
        let last = sel.last();
        lemma_classified_conserves(value, keys, init, level);
        let gs = classified(keys, init, level);
        let k = ancestor(keys[last as int], level);
        lemma_position(gs, k);
        match position(gs, k) {
            Some(p) => {
                lemma_picked_update(value, gs, p, last);
            },
            None => {
                let one = seq![last];
                assert(one.drop_last() =~= Seq::<usize>::empty());
                assert(picked(value, one.drop_last()) =~= Multiset::<T>::empty());
                assert(gs.push((k, one)).drop_last() =~= gs);
                assert(picked_groups(value, gs.push((k, one))) =~= picked_groups(value, gs).insert(
                    value(last),
                ));
            },
        }
    }
}

proof fn lemma_picked_groups_concat<T>(
    value: spec_fn(usize) -> T,
    a: Seq<(VoxelKey, Seq<usize>)>,
    b: Seq<(VoxelKey, Seq<usize>)>,
)
    ensures
        picked_groups(value, a + b) == picked_groups(value, a).add(picked_groups(value, b)),
    decreases b.len(),
{
    if b.len() == 0 {
        assert(a + b =~= a);
    } else {
        lemma_picked_groups_concat(value, a, b.drop_last());
        assert((a + b).drop_last() =~= a + b.drop_last());
    }
    assert(picked_groups(value, a + b) =~= picked_groups(value, a).add(picked_groups(value, b)));
}

proof fn lemma_round_conserves<T>(
    value: spec_fn(usize) -> T,
    keys: Seq<VoxelKey>,
    leaves: Seq<(VoxelKey, Seq<usize>)>,
)
    ensures
        picked_groups(value, split_round(keys, leaves)) == picked_groups(value, leaves),
    decreases leaves.len(),
{
    if leaves.len() > 0 {
        let init = leaves.drop_last();
        let leaf = leaves.last();
        lemma_round_conserves(value, keys, init);
        let b = if oversized(leaf) {
            classified(keys, leaf.1, leaf.0.level + 1)
        } else {
            seq![leaf]
        };
        lemma_picked_groups_concat(value, split_round(keys, init), b);
        if oversized(leaf) {
            lemma_classified_conserves(value, keys, leaf.1, leaf.0.level + 1);
        } else {
            assert(b.drop_last() =~= Seq::<(VoxelKey, Seq<usize>)>::empty());
            assert(picked_groups(value, b.drop_last()) =~= Multiset::<T>::empty());
            assert(b.last() == leaf);
            assert(picked_groups(value, b) =~= picked(value, leaf.1));
        }
    }
}

/// Subdivision keeps every point.
pub proof fn lemma_subdivided_conserves<T>(
    value: spec_fn(usize) -> T,
    keys: Seq<VoxelKey>,
    leaves: Seq<(VoxelKey, Seq<usize>)>,
    rounds: nat,
)
    ensures
        picked_groups(value, subdivided(keys, leaves, rounds)) == picked_groups(value, leaves),
    decreases rounds,
{
    if rounds > 0 && goes_on(leaves) {
        lemma_round_conserves(value, keys, leaves);
        lemma_subdivided_conserves(
            value,
            keys,
            split_round(keys, leaves),
            (rounds - 1) as nat,
        );
    }
}

/// Where a leaf of the next round comes from.
proof fn lemma_round_sources(
    keys: Seq<VoxelKey>,
    leaves: Seq<(VoxelKey, Seq<usize>)>,
    o: int,
)
    requires
        0 <= o < split_round(keys, leaves).len(),
    ensures
        exists|i: int|
            0 <= i < leaves.len() && (if oversized(#[trigger] leaves[i]) {
                classified(keys, leaves[i].1, leaves[i].0.level + 1).contains(
                    split_round(keys, leaves)[o],
                )
            } else {
                split_round(keys, leaves)[o] == leaves[i]
            }),
    decreases leaves.len(),
{
    let init = leaves.drop_last();
    let leaf = leaves.last();
    let a = split_round(keys, init);
    let all = split_round(keys, leaves);
    if o < a.len() {
        lemma_round_sources(keys, init, o);
        assert(all[o] == a[o]);
        let i = choose|i: int|
            0 <= i < init.len() && (if oversized(#[trigger] init[i]) {
                classified(keys, init[i].1, init[i].0.level + 1).contains(a[o])
            } else {
                a[o] == init[i]
            });
        assert(leaves[i] == init[i]);
    } else {
        let i = leaves.len() - 1;
        assert(leaves[i] == leaf);
        if oversized(leaf) {
            let c = classified(keys, leaf.1, leaf.0.level + 1);
            assert(all[o] == c[o - a.len()]);
        } else {
            assert(all[o] == seq![leaf][o - a.len()]);
        }
    }
}

/// One round keeps every leaf sound and complete.
proof fn lemma_round_sorts(
    keys: Seq<VoxelKey>,
    sel: Seq<usize>,
    leaves: Seq<(VoxelKey, Seq<usize>)>,
)
    requires
        sorts(keys, sel, leaves),
        goes_on(leaves),
        leaves_in_range(leaves, keys.len(), 0),
        forall|i: int| 0 <= i < keys.len() ==> (#[trigger] keys[i]).level >= CHUNK_DEPTH_CAP,
    ensures
        sorts(keys, sel, split_round(keys, leaves)),
{
    let all = split_round(keys, leaves);
    assert forall|o: int| 0 <= o < all.len() implies {
        &&& (#[trigger] all[o]).1.len() > 0
        &&& leaf_is_sound(keys, sel, all[o])
        &&& leaf_is_complete(keys, sel, all[o])
    } by {
        lemma_round_sources(keys, leaves, o);
        let i = choose|i: int|
            0 <= i < leaves.len() && (if oversized(#[trigger] leaves[i]) {
                classified(keys, leaves[i].1, leaves[i].0.level + 1).contains(all[o])
            } else {
                all[o] == leaves[i]
            });
        let leaf = leaves[i];
        assert(leaf.0.level >= 0);
        if oversized(leaf) {
            let level = leaf.0.level + 1;
            let kids = classified(keys, leaf.1, level);
            let q = choose|q: int| 0 <= q < kids.len() && kids[q] == all[o];
            let c = kids[q];
            lemma_classified_sorts(keys, leaf.1, level);
            lemma_classified_range(keys, leaf.1, level, keys.len());
            assert(c.0.level == level);
            assert(c.1.len() > 0);
            let m0 = c.1[0];
            assert(c.1.contains(m0));
            assert(leaf.1.contains(m0));
            assert(ancestor(keys[m0 as int], level) == c.0);
            assert(ancestor(keys[m0 as int], leaf.0.level as int) == leaf.0);
            law_ancestor_of_ancestor(keys[m0 as int], level, leaf.0.level as int);
            assert forall|m: usize| #[trigger] c.1.contains(m) implies {
                &&& sel.contains(m)
                &&& ancestor(keys[m as int], c.0.level as int) == c.0
            } by {
                assert(leaf.1.contains(m));
            }
            assert forall|m: usize| #[trigger] sel.contains(m) && ancestor(
                keys[m as int],
                c.0.level as int,
            ) == c.0 implies c.1.contains(m) by {
                law_ancestor_of_ancestor(keys[m as int], level, leaf.0.level as int);
                assert(ancestor(keys[m as int], leaf.0.level as int) == leaf.0);
                assert(leaf.1.contains(m));
            }
        }
    }
}

/// Subdivision keeps every leaf sound and complete.
proof fn lemma_subdivided_sorts(
    keys: Seq<VoxelKey>,
    sel: Seq<usize>,
    leaves: Seq<(VoxelKey, Seq<usize>)>,
    low: int,
    rounds: nat,
)
    requires
        low >= 0,
        sorts(keys, sel, leaves),
        leaves_in_range(leaves, keys.len(), low),
        forall|i: int| 0 <= i < keys.len() ==> (#[trigger] keys[i]).level >= CHUNK_DEPTH_CAP,
    ensures
        sorts(keys, sel, subdivided(keys, leaves, rounds)),
        leaves_in_range(subdivided(keys, leaves, rounds), keys.len(), low),
    decreases rounds,
{
    if rounds > 0 && goes_on(leaves) {
        assert(oversized_below(leaves, low));
        lemma_round_sorts(keys, sel, leaves);
        lemma_round_range(keys, leaves, low, low);
        lemma_subdivided_sorts(
            keys,
            sel,
            split_round(keys, leaves),
            low,
            (rounds - 1) as nat,
        );
    }
}

/// The leaves of a chunk.
pub open spec fn chunk_leaves(keys: Seq<VoxelKey>, leaf_depth: int) -> Seq<(VoxelKey, Seq<usize>)> {
    subdivided(
        keys,
        classified(keys, all_indices(keys.len()), leaf_depth),
        CHUNK_DEPTH_CAP as nat,
    )
}

/// The leaves of a chunk before any is subdivided lie at the leaf depth.
pub proof fn lemma_first_leaves(keys: Seq<VoxelKey>, leaf_depth: int)
    requires
        leaf_depth >= 0,
        keys.len() <= usize::MAX,
        forall|i: int| 0 <= i < keys.len() ==> (#[trigger] keys[i]).level >= leaf_depth,
    ensures
        leaves_in_range(
            classified(keys, all_indices(keys.len()), leaf_depth),
            keys.len(),
            leaf_depth,
        ),
{
    lemma_classified_range(keys, all_indices(keys.len()), leaf_depth, keys.len());
}

/// The leaves of a chunk hold every point exactly once, each in the leaf whose
/// voxel it lies in; every leaf has points.
pub proof fn law_leaves_sort(keys: Seq<VoxelKey>, leaf_depth: int)
    requires
        leaf_depth >= 0,
        keys.len() <= usize::MAX,
        forall|i: int|
            0 <= i < keys.len() ==> {
                &&& (#[trigger] keys[i]).level >= CHUNK_DEPTH_CAP
                &&& keys[i].level >= leaf_depth
            },
    ensures
        sorts(
            keys,
            all_indices(keys.len()),
            chunk_leaves(keys, leaf_depth),
        ),
        leaves_in_range(chunk_leaves(keys, leaf_depth), keys.len(), leaf_depth),
        forall|value: spec_fn(usize) -> PointView| #[trigger]
            picked_groups(value, chunk_leaves(keys, leaf_depth)) == picked(
                value,
                all_indices(keys.len()),
            ),
        forall|value: spec_fn(usize) -> usize| #[trigger]
            picked_groups(value, chunk_leaves(keys, leaf_depth)) == picked(
                value,
                all_indices(keys.len()),
            ),
{
    let all = all_indices(keys.len());
    let first = classified(keys, all, leaf_depth);
    let rounds = CHUNK_DEPTH_CAP as nat;
    lemma_classified_sorts(keys, all, leaf_depth);
    lemma_classified_range(keys, all, leaf_depth, keys.len());
    lemma_subdivided_sorts(keys, all, first, leaf_depth, rounds);
    assert forall|value: spec_fn(usize) -> PointView| #[trigger]
        picked_groups(value, chunk_leaves(keys, leaf_depth)) == picked(value, all) by {
        lemma_classified_conserves(value, keys, all, leaf_depth);
        lemma_subdivided_conserves(value, keys, first, rounds);
    }
    assert forall|value: spec_fn(usize) -> usize| #[trigger]
        picked_groups(value, chunk_leaves(keys, leaf_depth)) == picked(value, all) by {
        lemma_classified_conserves(value, keys, all, leaf_depth);
        lemma_subdivided_conserves(value, keys, first, rounds);
    }
}

} // verus!
