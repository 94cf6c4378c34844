//! Grouping of items by an octree key.
//!
//! Items are named by their index. Groups are kept in the order of their keys,
//! and inside a group items keep the order in which they came.

use crate::key::{key_lt, lemma_key_lt_total, lemma_key_lt_trans, VoxelKey};
use vstd::multiset::Multiset;
use vstd::prelude::*;

verus! {

/// A key and the items that share it.
pub struct Group {
    pub key: VoxelKey,
    pub members: Vec<usize>,
}

/// What a sequence of groups is.
pub open spec fn group_views(gs: Seq<Group>) -> Seq<(VoxelKey, Seq<usize>)> {
    gs.map_values(|g: Group| (g.key, g.members@))
}

/// Puts item `i` under key `k`: behind the other items of that key, or as a new
/// group in the place that the order of keys gives it.
pub open spec fn add_to_groups(
    gs: Seq<(VoxelKey, Seq<usize>)>,
    k: VoxelKey,
    i: usize,
) -> Seq<(VoxelKey, Seq<usize>)>
    decreases gs.len(),
{
    if gs.len() == 0 {
        seq![(k, seq![i])]
    } else if gs[0].0 == k {
        seq![(k, gs[0].1.push(i))] + gs.drop_first()
    } else if key_lt(k, gs[0].0) {
        seq![(k, seq![i])] + gs
    } else {
        seq![gs[0]] + add_to_groups(gs.drop_first(), k, i)
    }
}

/// The groups of the items of `sel` for which `root` gives a key.
pub open spec fn group_by(sel: Seq<usize>, root: spec_fn(usize) -> Option<VoxelKey>) -> Seq<
    (VoxelKey, Seq<usize>),
>
    decreases sel.len(),
{
    if sel.len() == 0 {
        Seq::empty()
    } else {
        let gs = group_by(sel.drop_last(), root);
        match root(sel.last()) {
            None => gs,
            Some(k) => add_to_groups(gs, k, sel.last()),
        }
    }
}

/// The items of `sel` for which `root` gives no key, in order.
pub open spec fn ungrouped(sel: Seq<usize>, root: spec_fn(usize) -> Option<VoxelKey>) -> Seq<
    usize,
>
    decreases sel.len(),
{
    if sel.len() == 0 {
        Seq::empty()
    } else {
        let rest = ungrouped(sel.drop_last(), root);
        match root(sel.last()) {
            None => rest.push(sel.last()),
            Some(_) => rest,
        }
    }
}

/// All items of all groups.
pub open spec fn grouped_items(gs: Seq<(VoxelKey, Seq<usize>)>) -> Multiset<usize>
    decreases gs.len(),
{
    if gs.len() == 0 {
        Multiset::empty()
    } else {
        gs[0].1.to_multiset().add(grouped_items(gs.drop_first()))
    }
}

/// The keys of the groups rise strictly.
pub open spec fn keys_rise(gs: Seq<(VoxelKey, Seq<usize>)>) -> bool {
    forall|i: int, j: int| 0 <= i < j < gs.len() ==> key_lt(#[trigger] gs[i].0, #[trigger] gs[j].0)
}

/// Every group has an item, and every item has the group's key.
pub open spec fn groups_match(
    gs: Seq<(VoxelKey, Seq<usize>)>,
    root: spec_fn(usize) -> Option<VoxelKey>,
) -> bool {
    forall|g: int|
        0 <= g < gs.len() ==> {
            &&& (#[trigger] gs[g]).1.len() > 0
            &&& forall|m: int|
                0 <= m < gs[g].1.len() ==> root(#[trigger] gs[g].1[m]) == Some(gs[g].0)
        }
}

/// Adding an item adds it to the items, and to no group of another key.
pub proof fn lemma_add_to_groups(
    gs: Seq<(VoxelKey, Seq<usize>)>,
    k: VoxelKey,
    i: usize,
    root: spec_fn(usize) -> Option<VoxelKey>,
)
    requires
        groups_match(gs, root),
        root(i) == Some(k),
    ensures
        grouped_items(add_to_groups(gs, k, i)) == grouped_items(gs).insert(i),
        groups_match(add_to_groups(gs, k, i), root),
    decreases gs.len(),
{
    broadcast use vstd::seq_lib::group_to_multiset_ensures;

    let all = add_to_groups(gs, k, i);
    if gs.len() == 0 {
        assert(all.drop_first() =~= gs);
        assert(seq![i] =~= Seq::<usize>::empty().push(i));
        assert(grouped_items(all) =~= grouped_items(gs).insert(i));
    } else if gs[0].0 == k {
        assert(all.drop_first() =~= gs.drop_first());
        assert(grouped_items(all) =~= grouped_items(gs).insert(i));
        assert forall|g: int| 0 <= g < all.len() implies {
            &&& (#[trigger] all[g]).1.len() > 0
            &&& forall|m: int|
                0 <= m < all[g].1.len() ==> root(#[trigger] all[g].1[m]) == Some(all[g].0)
        } by {
            if g > 0 {
                assert(all[g] == gs[g]);
            } else {
                assert(gs[0].1.len() > 0);
            }
        }
    } else if key_lt(k, gs[0].0) {
        assert(all.drop_first() =~= gs);
        assert(seq![i] =~= Seq::<usize>::empty().push(i));
        assert(grouped_items(all) =~= grouped_items(gs).insert(i));
        assert forall|g: int| 0 <= g < all.len() implies {
            &&& (#[trigger] all[g]).1.len() > 0
            &&& forall|m: int|
                0 <= m < all[g].1.len() ==> root(#[trigger] all[g].1[m]) == Some(all[g].0)
        } by {
            if g > 0 {
                assert(all[g] == gs[g - 1]);
            }
        }
    } else {
        let rest = gs.drop_first();
        assert(groups_match(rest, root)) by {
            assert forall|g: int| 0 <= g < rest.len() implies {
                &&& (#[trigger] rest[g]).1.len() > 0
                &&& forall|m: int|
                    0 <= m < rest[g].1.len() ==> root(#[trigger] rest[g].1[m]) == Some(rest[g].0)
            } by {
                assert(rest[g] == gs[g + 1]);
            }
        }
        lemma_add_to_groups(rest, k, i, root);
        assert(all.drop_first() =~= add_to_groups(rest, k, i));
        assert(grouped_items(all) =~= grouped_items(gs).insert(i));
        assert forall|g: int| 0 <= g < all.len() implies {
            &&& (#[trigger] all[g]).1.len() > 0
            &&& forall|m: int|
                0 <= m < all[g].1.len() ==> root(#[trigger] all[g].1[m]) == Some(all[g].0)
        } by {
            if g > 0 {
                assert(all[g] == add_to_groups(rest, k, i)[g - 1]);
            } else {
                assert(all[0] == gs[0]);
            }
        }
    }
}

/// Adding an item keeps the keys in order.
pub proof fn lemma_add_keeps_order(gs: Seq<(VoxelKey, Seq<usize>)>, k: VoxelKey, i: usize)
    requires
        keys_rise(gs),
    ensures
        keys_rise(add_to_groups(gs, k, i)),
        add_to_groups(gs, k, i).len() > 0,
        add_to_groups(gs, k, i).len() <= gs.len() + 1,
        gs.len() > 0 && key_lt(gs[0].0, k) ==> add_to_groups(gs, k, i)[0].0 == gs[0].0,
        gs.len() == 0 || !key_lt(gs[0].0, k) ==> add_to_groups(gs, k, i)[0].0 == k,
    decreases gs.len(),
{
    let all = add_to_groups(gs, k, i);
    if gs.len() > 0 {
        lemma_key_lt_total(gs[0].0, k);
    }
    if gs.len() == 0 {
    } else if gs[0].0 == k {
        assert forall|a: int, b: int| 0 <= a < b < all.len() implies key_lt(
            #[trigger] all[a].0,
            #[trigger] all[b].0,
        ) by {
            assert(all[b].0 == gs[b].0);
            assert(all[a].0 == gs[a].0);
        }
    } else if key_lt(k, gs[0].0) {
        assert forall|a: int, b: int| 0 <= a < b < all.len() implies key_lt(
            #[trigger] all[a].0,
            #[trigger] all[b].0,
        ) by {
            assert(all[b].0 == gs[b - 1].0);
            if a > 0 {
                assert(all[a].0 == gs[a - 1].0);
            } else if b > 1 {
                lemma_key_lt_trans(k, gs[0].0, gs[b - 1].0);
            }
        }
    } else {
        let rest = gs.drop_first();
        assert forall|a: int, b: int| 0 <= a < b < rest.len() implies key_lt(
            #[trigger] rest[a].0,
            #[trigger] rest[b].0,
        ) by {
            assert(rest[a].0 == gs[a + 1].0 && rest[b].0 == gs[b + 1].0);
        }
        lemma_add_keeps_order(rest, k, i);
        let more = add_to_groups(rest, k, i);
        if rest.len() > 0 {
            assert(rest[0].0 == gs[1].0);
        }
        assert(key_lt(gs[0].0, more[0].0));
        assert forall|a: int, b: int| 0 <= a < b < all.len() implies key_lt(
            #[trigger] all[a].0,
            #[trigger] all[b].0,
        ) by {
            assert(all[b].0 == more[b - 1].0);
            if a > 0 {
                assert(all[a].0 == more[a - 1].0);
            } else if b > 1 {
                assert(key_lt(more[0].0, more[b - 1].0));
                lemma_key_lt_trans(gs[0].0, more[0].0, more[b - 1].0);
            }
        }
    }
}

/// Every item is in exactly one place: among the ungrouped ones or in the group
/// of its key. The groups' keys rise.
pub proof fn lemma_group_by(sel: Seq<usize>, root: spec_fn(usize) -> Option<VoxelKey>)
    ensures
        sel.to_multiset() == ungrouped(sel, root).to_multiset().add(
            grouped_items(group_by(sel, root)),
        ),
        groups_match(group_by(sel, root), root),
        keys_rise(group_by(sel, root)),
        ungrouped(sel, root).len() + group_by(sel, root).len() <= sel.len(),
    decreases sel.len(),
{
    broadcast use vstd::seq_lib::group_to_multiset_ensures;

    if sel.len() == 0 {
        assert(sel.to_multiset() =~= ungrouped(sel, root).to_multiset().add(
            grouped_items(group_by(sel, root)),
        ));
    } else {
        let init = sel.drop_last();
        lemma_group_by(init, root);
        assert(sel =~= init.push(sel.last()));
        match root(sel.last()) {
            None => {},
            Some(k) => {
                lemma_add_to_groups(group_by(init, root), k, sel.last(), root);
                lemma_add_keeps_order(group_by(init, root), k, sel.last());
            },
        }
        assert(sel.to_multiset() =~= ungrouped(sel, root).to_multiset().add(
            grouped_items(group_by(sel, root)),
        ));
    }
}

/// The items of one group are among the items of all groups.
pub proof fn lemma_group_in_items(gs: Seq<(VoxelKey, Seq<usize>)>, g: int, m: int)
    requires
        0 <= g < gs.len(),
        0 <= m < gs[g].1.len(),
    ensures
        grouped_items(gs).count(gs[g].1[m]) > 0,
    decreases gs.len(),
{
    broadcast use vstd::seq_lib::group_to_multiset_ensures;

    if g == 0 {
        assert(gs[0].1.contains(gs[0].1[m]));
        assert(gs[0].1.to_multiset().count(gs[0].1[m]) > 0);
    } else {
        assert(gs.drop_first()[g - 1] == gs[g]);
        lemma_group_in_items(gs.drop_first(), g - 1, m);
    }
}

/// What holds of every item of `sel` holds of every item of a group, and of
/// every ungrouped item.
pub proof fn lemma_group_bounds(
    sel: Seq<usize>,
    root: spec_fn(usize) -> Option<VoxelKey>,
    n: nat,
)
    requires
        forall|i: int| 0 <= i < sel.len() ==> #[trigger] sel[i] < n,
    ensures
        forall|i: int|
            0 <= i < ungrouped(sel, root).len() ==> #[trigger] ungrouped(sel, root)[i] < n,
        forall|g: int, m: int|
            0 <= g < group_by(sel, root).len() && 0 <= m < group_by(sel, root)[g].1.len()
                ==> #[trigger] group_by(sel, root)[g].1[m] < n,
{
    broadcast use vstd::seq_lib::group_to_multiset_ensures;

    let un = ungrouped(sel, root);
    let gs = group_by(sel, root);
    lemma_group_by(sel, root);
    assert forall|v: usize| sel.to_multiset().count(v) > 0 implies v < n by {
        assert(sel.contains(v));
    }
    assert forall|i: int| 0 <= i < un.len() implies #[trigger] un[i] < n by {
        assert(un.contains(un[i]));
        assert(un.to_multiset().count(un[i]) > 0);
        assert(sel.to_multiset().count(un[i]) > 0);
    }
    assert forall|g: int, m: int| 0 <= g < gs.len() && 0 <= m < gs[g].1.len() implies #[trigger] gs[g].1[m]
        < n by {
        lemma_group_in_items(gs, g, m);
        assert(sel.to_multiset().count(gs[g].1[m]) > 0);
    }
}

/// Groups that come before `k` are passed over.
proof fn lemma_add_skips(gs: Seq<(VoxelKey, Seq<usize>)>, k: VoxelKey, i: usize, p: int)
    requires
        0 <= p <= gs.len(),
        forall|j: int| 0 <= j < p ==> key_lt(#[trigger] gs[j].0, k),
    ensures
        add_to_groups(gs, k, i) == gs.take(p) + add_to_groups(gs.skip(p), k, i),
    decreases p,
{
    if p == 0 {
        assert(gs.skip(0) =~= gs);
        assert(add_to_groups(gs, k, i) =~= gs.take(p) + add_to_groups(gs.skip(p), k, i));
    } else {
        lemma_key_lt_total(gs[0].0, k);
        let rest = gs.drop_first();
        assert forall|j: int| 0 <= j < p - 1 implies key_lt(#[trigger] rest[j].0, k) by {
            assert(rest[j] == gs[j + 1]);
        }
        lemma_add_skips(rest, k, i, p - 1);
        assert(rest.skip(p - 1) =~= gs.skip(p));
        assert(gs.take(p) =~= seq![gs[0]] + rest.take(p - 1));
        assert(add_to_groups(gs, k, i) =~= gs.take(p) + add_to_groups(gs.skip(p), k, i));
    }
}

/// Puts an item under its key.
pub fn add_member(groups: &mut Vec<Group>, key: VoxelKey, item: usize)
    ensures
        group_views(final(groups)@) == add_to_groups(group_views(old(groups)@), key, item),
{
    let mut p: usize = 0;
    let ghost gs = group_views(groups@);
    while p < groups.len() && groups[p].key.precedes(&key)
        invariant
            gs == group_views(groups@),
            p <= groups@.len(),
            forall|j: int| 0 <= j < p ==> key_lt(#[trigger] gs[j].0, key),
        decreases groups@.len() - p,
    {
        assert(gs[p as int].0 == groups@[p as int].key);
        p = p + 1;
    }
    proof {
        lemma_add_skips(gs, key, item, p as int);
        if p < gs.len() {
            assert(gs[p as int].0 == groups@[p as int].key);
            assert(gs.skip(p as int)[0] == gs[p as int]);
            lemma_key_lt_total(gs[p as int].0, key);
        }
    }
    if p < groups.len() && groups[p].key == key {
        groups[p].members.push(item);
        assert(group_views(groups@) =~= add_to_groups(gs, key, item));
    } else {
        let mut members: Vec<usize> = Vec::new();
        members.push(item);
        assert(members@ =~= seq![item]);
        groups.insert(p, Group { key, members });
        assert(group_views(groups@) =~= add_to_groups(gs, key, item));
    }
}

/// The values of the items of `sel`.
pub open spec fn picked<T>(value: spec_fn(usize) -> T, sel: Seq<usize>) -> Multiset<T>
    decreases sel.len(),
{
    if sel.len() == 0 {
        Multiset::empty()
    } else {
        picked(value, sel.drop_last()).insert(value(sel.last()))
    }
}

/// The values of the items of all groups.
pub open spec fn picked_groups<T>(
    value: spec_fn(usize) -> T,
    gs: Seq<(VoxelKey, Seq<usize>)>,
) -> Multiset<T>
    decreases gs.len(),
{
    if gs.len() == 0 {
        Multiset::empty()
    } else {
        picked_groups(value, gs.drop_last()).add(picked(value, gs.last().1))
    }
}

/// The first group's values, then those of the others.
pub proof fn lemma_picked_groups_front<T>(
    value: spec_fn(usize) -> T,
    gs: Seq<(VoxelKey, Seq<usize>)>,
)
    requires
        gs.len() > 0,
    ensures
        picked_groups(value, gs) == picked(value, gs[0].1).add(
            picked_groups(value, gs.drop_first()),
        ),
    decreases gs.len(),
{
    if gs.len() == 1 {
        assert(gs.drop_first() =~= Seq::<(VoxelKey, Seq<usize>)>::empty());
        assert(gs.drop_last() =~= Seq::<(VoxelKey, Seq<usize>)>::empty());
        assert(picked_groups(value, gs) =~= picked(value, gs[0].1).add(
            picked_groups(value, gs.drop_first()),
        ));
    } else {
        lemma_picked_groups_front(value, gs.drop_last());
        assert(gs.drop_last().drop_first() =~= gs.drop_first().drop_last());
        assert(picked_groups(value, gs) =~= picked(value, gs[0].1).add(
            picked_groups(value, gs.drop_first()),
        ));
    }
}

proof fn lemma_picked_add<T>(
    value: spec_fn(usize) -> T,
    gs: Seq<(VoxelKey, Seq<usize>)>,
    k: VoxelKey,
    i: usize,
)
    ensures
        picked_groups(value, add_to_groups(gs, k, i)) == picked_groups(value, gs).insert(value(i)),
    decreases gs.len(),
{
    let all = add_to_groups(gs, k, i);
    assert(all.len() > 0);
    lemma_picked_groups_front(value, all);
    assert(seq![i].drop_last() =~= Seq::<usize>::empty());
    assert(picked(value, seq![i]) =~= Multiset::empty().insert(value(i))) by {
        assert(picked(value, seq![i].drop_last()) =~= Multiset::<T>::empty());
    }
    if gs.len() == 0 {
        assert(all.drop_first() =~= gs);
        assert(picked_groups(value, all) =~= picked_groups(value, gs).insert(value(i)));
    } else {
        lemma_picked_groups_front(value, gs);
        if gs[0].0 == k {
            assert(all.drop_first() =~= gs.drop_first());
            assert(gs[0].1.push(i).drop_last() =~= gs[0].1);
            assert(picked_groups(value, all) =~= picked_groups(value, gs).insert(value(i)));
        } else if key_lt(k, gs[0].0) {
            assert(all.drop_first() =~= gs);
            assert(picked_groups(value, all) =~= picked_groups(value, gs).insert(value(i)));
        } else {
            lemma_picked_add(value, gs.drop_first(), k, i);
            assert(all.drop_first() =~= add_to_groups(gs.drop_first(), k, i));
            assert(picked_groups(value, all) =~= picked_groups(value, gs).insert(value(i)));
        }
    }
}

/// The values of all items are those of the ungrouped items and of the groups.
pub proof fn lemma_picked_split<T>(
    value: spec_fn(usize) -> T,
    sel: Seq<usize>,
    root: spec_fn(usize) -> Option<VoxelKey>,
)
    ensures
        picked(value, sel) == picked(value, ungrouped(sel, root)).add(
            picked_groups(value, group_by(sel, root)),
        ),
    decreases sel.len(),
{
    let un = ungrouped(sel, root);
    if sel.len() == 0 {
        assert(picked(value, sel) =~= picked(value, un).add(
            picked_groups(value, group_by(sel, root)),
        ));
    } else {
        lemma_picked_split(value, sel.drop_last(), root);
        match root(sel.last()) {
            None => {
                assert(un.drop_last() =~= ungrouped(sel.drop_last(), root));
            },
            Some(k) => {
                lemma_picked_add(value, group_by(sel.drop_last(), root), k, sel.last());
            },
        }
        assert(picked(value, sel) =~= picked(value, un).add(
            picked_groups(value, group_by(sel, root)),
        ));
    }
}

/// The first item's value, then those of the others.
pub proof fn lemma_picked_front<T>(value: spec_fn(usize) -> T, sel: Seq<usize>)
    requires
        sel.len() > 0,
    ensures
        picked(value, sel) == picked(value, sel.drop_first()).insert(value(sel[0])),
    decreases sel.len(),
{
    if sel.len() == 1 {
        assert(sel.drop_first() =~= Seq::<usize>::empty());
        assert(sel.drop_last() =~= Seq::<usize>::empty());
    } else {
        lemma_picked_front(value, sel.drop_last());
        assert(sel.drop_last().drop_first() =~= sel.drop_first().drop_last());
        assert(picked(value, sel) =~= picked(value, sel.drop_first()).insert(value(sel[0])));
    }
}

/// What the items of `sel` hold together.
pub open spec fn gathered<T>(held: spec_fn(usize) -> Multiset<T>, sel: Seq<usize>) -> Multiset<T>
    decreases sel.len(),
{
    if sel.len() == 0 {
        Multiset::empty()
    } else {
        gathered(held, sel.drop_last()).add(held(sel.last()))
    }
}

/// What the items of all groups hold together.
pub open spec fn gathered_groups<T>(
    held: spec_fn(usize) -> Multiset<T>,
    gs: Seq<(VoxelKey, Seq<usize>)>,
) -> Multiset<T>
    decreases gs.len(),
{
    if gs.len() == 0 {
        Multiset::empty()
    } else {
        gathered_groups(held, gs.drop_last()).add(gathered(held, gs.last().1))
    }
}

proof fn lemma_gathered_groups_front<T>(
    held: spec_fn(usize) -> Multiset<T>,
    gs: Seq<(VoxelKey, Seq<usize>)>,
)
    requires
        gs.len() > 0,
    ensures
        gathered_groups(held, gs) == gathered(held, gs[0].1).add(
            gathered_groups(held, gs.drop_first()),
        ),
    decreases gs.len(),
{
    if gs.len() == 1 {
        assert(gs.drop_first() =~= Seq::<(VoxelKey, Seq<usize>)>::empty());
        assert(gs.drop_last() =~= Seq::<(VoxelKey, Seq<usize>)>::empty());
    } else {
        lemma_gathered_groups_front(held, gs.drop_last());
        assert(gs.drop_last().drop_first() =~= gs.drop_first().drop_last());
    }
    assert(gathered_groups(held, gs) =~= gathered(held, gs[0].1).add(
        gathered_groups(held, gs.drop_first()),
    ));
}

proof fn lemma_gathered_add<T>(
    held: spec_fn(usize) -> Multiset<T>,
    gs: Seq<(VoxelKey, Seq<usize>)>,
    k: VoxelKey,
    i: usize,
)
    ensures
        gathered_groups(held, add_to_groups(gs, k, i)) == gathered_groups(held, gs).add(held(i)),
    decreases gs.len(),
{
    let all = add_to_groups(gs, k, i);
    assert(all.len() > 0);
    lemma_gathered_groups_front(held, all);
    assert(seq![i].drop_last() =~= Seq::<usize>::empty());
    assert(gathered(held, seq![i]) =~= held(i)) by {
        assert(gathered(held, seq![i].drop_last()) =~= Multiset::<T>::empty());
    }
    if gs.len() == 0 {
        assert(all.drop_first() =~= gs);
    } else {
        lemma_gathered_groups_front(held, gs);
        if gs[0].0 == k {
            assert(all.drop_first() =~= gs.drop_first());
            assert(gs[0].1.push(i).drop_last() =~= gs[0].1);
        } else if key_lt(k, gs[0].0) {
            assert(all.drop_first() =~= gs);
        } else {
            lemma_gathered_add(held, gs.drop_first(), k, i);
            assert(all.drop_first() =~= add_to_groups(gs.drop_first(), k, i));
        }
    }
    assert(gathered_groups(held, all) =~= gathered_groups(held, gs).add(held(i)));
}

/// All items hold what the ungrouped items and the groups hold.
pub proof fn lemma_gathered_split<T>(
    held: spec_fn(usize) -> Multiset<T>,
    sel: Seq<usize>,
    root: spec_fn(usize) -> Option<VoxelKey>,
)
    ensures
        gathered(held, sel) == gathered(held, ungrouped(sel, root)).add(
            gathered_groups(held, group_by(sel, root)),
        ),
    decreases sel.len(),
{
    let un = ungrouped(sel, root);
    if sel.len() > 0 {
        lemma_gathered_split(held, sel.drop_last(), root);
        match root(sel.last()) {
            None => {
                assert(un.drop_last() =~= ungrouped(sel.drop_last(), root));
            },
            Some(k) => {
                lemma_gathered_add(held, group_by(sel.drop_last(), root), k, sel.last());
            },
        }
    }
    assert(gathered(held, sel) =~= gathered(held, un).add(
        gathered_groups(held, group_by(sel, root)),
    ));
}

} // verus!
