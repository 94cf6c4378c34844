//! The list of nodes that goes to the writer.

use crate::key::{
    ancestor, biased, key_id, law_ancestor_of_ancestor, lemma_ancestor_level, parent_key, pow2,
    root_key, valid_key, VoxelKey,
};
use crate::merge::{holds_codes, lemma_holds_codes};
use crate::sorting::{lemma_sort_order_exists, sort_order, sorted_order};
use std::collections::HashSet;
use vstd::prelude::*;

verus! {

/// A key with its number of points.
pub type Counted = (VoxelKey, u64);

/// The nodes that hold points.
pub open spec fn filled(keys: Seq<VoxelKey>, counts: Seq<u64>) -> Seq<Counted>
    decreases keys.len(),
{
    if keys.len() == 0 {
        Seq::empty()
    } else {
        let rest = filled(keys.drop_last(), counts.drop_last());
        if counts.last() > 0 {
            rest.push((keys.last(), counts.last()))
        } else {
            rest
        }
    }
}

/// The keys of counted nodes.
pub open spec fn counted_keys(nodes: Seq<Counted>) -> Seq<VoxelKey> {
    nodes.map_values(|n: Counted| n.0)
}

/// The ancestors of `k` that are not yet present, from the deepest one up.
pub open spec fn missing_ancestors(present: Seq<VoxelKey>, k: VoxelKey) -> Seq<VoxelKey>
    decreases k.level + 1,
{
    if k.level <= 0 {
        Seq::empty()
    } else {
        let p = parent_key(k);
        if present.contains(p) {
            missing_ancestors(present, p)
        } else {
            seq![p] + missing_ancestors(present.push(p), p)
        }
    }
}

/// The ancestors that the first `n` nodes lack, in the order in which they are
/// found.
pub open spec fn added(nodes: Seq<Counted>, n: nat) -> Seq<VoxelKey>
    decreases n,
{
    if n == 0 {
        Seq::empty()
    } else {
        let so_far = added(nodes, (n - 1) as nat);
        so_far + missing_ancestors(counted_keys(nodes) + so_far, nodes[n - 1].0)
    }
}

/// The nodes that hold points, then the ancestors that they lack, without
/// points.
pub open spec fn with_ancestors(nodes: Seq<Counted>) -> Seq<Counted> {
    nodes + added(nodes, nodes.len()).map_values(|k: VoxelKey| (k, 0u64))
}

/// Numbers by which nodes are ordered by level.
pub open spec fn level_codes(nodes: Seq<Counted>) -> Seq<u128> {
    Seq::new(nodes.len(), |i: int| biased(nodes[i].0.level) as u128)
}

/// The nodes by level, nodes of the same level in their original order.
pub open spec fn by_level(nodes: Seq<Counted>) -> Seq<Counted> {
    sort_order(level_codes(nodes)).map_values(|i: usize| nodes[i as int])
}

/// The list of nodes for the given keys and point counts.
pub open spec fn node_list(keys: Seq<VoxelKey>, counts: Seq<u64>) -> Seq<Counted> {
    by_level(with_ancestors(filled(keys, counts)))
}

/// Makes the list of nodes: drops nodes without points, adds every ancestor
/// that is missing with a count of zero, so that readers can descend from the
/// root, and orders the nodes by level.
pub fn assemble_node_list(keys: &Vec<VoxelKey>, counts: &Vec<u64>) -> (out: Vec<Counted>)
    requires
        keys@.len() == counts@.len(),
    ensures
        out@ == node_list(keys@, counts@),
        with_ancestors(filled(keys@, counts@)).len() <= usize::MAX,
{
    broadcast use vstd::std_specs::hash::group_hash_axioms;

    let mut nodes: Vec<Counted> = Vec::new();
    let mut present: HashSet<u128> = HashSet::new();
    let mut i: usize = 0;
    assert(keys@.take(0) =~= Seq::<VoxelKey>::empty());
    while i < keys.len()
        invariant
            keys@.len() == counts@.len(),
            i <= keys@.len(),
            nodes@ == filled(keys@.take(i as int), counts@.take(i as int)),
            holds_codes(present@, counted_keys(nodes@)),
        decreases keys@.len() - i,
    {
        broadcast use vstd::std_specs::hash::group_hash_axioms;

        let ghost before = nodes@;
        proof {
            assert(keys@.take(i + 1).drop_last() =~= keys@.take(i as int));
            assert(counts@.take(i + 1).drop_last() =~= counts@.take(i as int));
            lemma_holds_codes(present@, counted_keys(before), keys@[i as int]);
            assert(counted_keys(before.push((keys@[i as int], counts@[i as int])))
                =~= counted_keys(before).push(keys@[i as int]));
        }
        if counts[i] > 0 {
            let new = present.insert(key_id(keys[i]));
            nodes.push((keys[i], counts[i]));
        }
        i = i + 1;
    }
    assert(keys@.take(i as int) =~= keys@);
    assert(counts@.take(i as int) =~= counts@);
    let ghost held = nodes@;
    let n: usize = nodes.len();
    let mut extra: Vec<VoxelKey> = Vec::new();
    let mut i: usize = 0;
    assert(counted_keys(held) + extra@ =~= counted_keys(held));
    while i < n
        invariant
            n == held.len(),
            nodes@ == held,
            i <= n,
            extra@ == added(held, i as nat),
            holds_codes(present@, counted_keys(held) + extra@),
        decreases n - i,
    {
        add_missing(&mut present, &mut extra, nodes[i].0, Ghost(counted_keys(held)));
        i = i + 1;
    }
    let mut j: usize = 0;
    let ghost zero = |k: VoxelKey| (k, 0u64);
    assert(held + extra@.take(0).map_values(zero) =~= held);
    while j < extra.len()
        invariant
            j <= extra@.len(),
            zero == (|k: VoxelKey| (k, 0u64)),
            nodes@ == held + extra@.take(j as int).map_values(zero),
        decreases extra@.len() - j,
    {
        nodes.push((extra[j], 0));
        assert(extra@.take(j + 1) =~= extra@.take(j as int).push(extra@[j as int]));
        assert(nodes@ =~= held + extra@.take(j + 1).map_values(zero));
        j = j + 1;
    }
    assert(extra@.take(j as int) =~= extra@);
    assert(nodes@ == with_ancestors(held));
    assert(nodes.len() <= usize::MAX);
    let mut codes: Vec<u128> = Vec::new();
    let mut i: usize = 0;
    while i < nodes.len()
        invariant
            i <= nodes@.len(),
            codes@ =~= level_codes(nodes@).take(i as int),
        decreases nodes@.len() - i,
    {
        codes.push((nodes[i].0.level as i64 + 0x8000_0000) as u128);
        i = i + 1;
    }
    assert(codes@ =~= level_codes(nodes@));
    let order = sorted_order(codes.as_slice());
    let ghost value = |i: usize| nodes@[i as int];
    let mut out: Vec<Counted> = Vec::new();
    let mut i: usize = 0;
    while i < order.len()
        invariant
            i <= order@.len(),
            value == (|i: usize| nodes@[i as int]),
            forall|k: int| 0 <= k < order@.len() ==> #[trigger] order@[k] < nodes@.len(),
            out@ =~= order@.take(i as int).map_values(value),
        decreases order@.len() - i,
    {
        assert(order@.take(i + 1) =~= order@.take(i as int).push(order@[i as int]));
        out.push(nodes[order[i]]);
        i = i + 1;
    }
    assert(order@.take(i as int) =~= order@);
    out
}

/// Adds the ancestors of `key` that are not yet present.
fn add_missing(
    present: &mut HashSet<u128>,
    extra: &mut Vec<VoxelKey>,
    key: VoxelKey,
    Ghost(held): Ghost<Seq<VoxelKey>>,
)
    requires
        holds_codes(old(present)@, held + old(extra)@),
    ensures
        final(extra)@ == old(extra)@ + missing_ancestors(held + old(extra)@, key),
        holds_codes(final(present)@, held + final(extra)@),
{
    broadcast use vstd::std_specs::hash::group_hash_axioms;

    let mut k = key;
    let ghost all = old(extra)@ + missing_ancestors(held + old(extra)@, key);
    loop
        invariant
            holds_codes(present@, held + extra@),
            extra@ + missing_ancestors(held + extra@, k) == all,
        ensures
            holds_codes(present@, held + extra@),
            extra@ == all,
        decreases k.level + 1,
    {
        broadcast use vstd::std_specs::hash::group_hash_axioms;

        match k.parent() {
            None => {
                assert(extra@ + Seq::<VoxelKey>::empty() =~= extra@);
                break;
            },
            Some(p) => {
                let ghost before = extra@;
                proof {
                    lemma_holds_codes(present@, held + before, p);
                    assert((held + before).push(p) =~= held + before.push(p));
                }
                if present.insert(key_id(p)) {
                    extra.push(p);
                    assert(before + missing_ancestors(held + before, k) =~= extra@
                        + missing_ancestors(held + extra@, p));
                }
                k = p;
            },
        }
    }
}

// What holds of the list.
proof fn lemma_missing_ancestors(present: Seq<VoxelKey>, k: VoxelKey)
    requires
        k.level >= 0,
    ensures
        forall|l: int|
            0 <= l < k.level ==> (present + missing_ancestors(present, k)).contains(
                #[trigger] ancestor(k, l),
            ),
        forall|i: int|
            0 <= i < missing_ancestors(present, k).len() ==> {
                let a = #[trigger] missing_ancestors(present, k)[i];
                &&& 0 <= a.level < k.level
                &&& a == ancestor(k, a.level as int)
                &&& !present.contains(a)
            },
        missing_ancestors(present, k).no_duplicates(),
    decreases k.level,
{
    if k.level > 0 {
        let p = parent_key(k);
        let m = missing_ancestors(present, k);
        if present.contains(p) {
            lemma_missing_ancestors(present, p);
        } else {
            lemma_missing_ancestors(present.push(p), p);
        }
        let inner = if present.contains(p) {
            present
        } else {
            present.push(p)
        };
        let rest = missing_ancestors(inner, p);
        assert(present + m =~= inner + rest);
        assert forall|l: int| 0 <= l < k.level implies (present + m).contains(
            #[trigger] ancestor(k, l),
        ) by {
            if l == p.level {
                reveal_with_fuel(ancestor, 3);
                assert(ancestor(k, l) == p);
                if present.contains(p) {
                    let j = choose|j: int| 0 <= j < present.len() && present[j] == p;
                    assert((present + m)[j] == p);
                } else {
                    assert((inner + rest)[present.len() as int] == p);
                }
            } else {
                assert(ancestor(k, l) == ancestor(p, l));
            }
        }
        assert forall|i: int| 0 <= i < m.len() implies {
            let a = #[trigger] m[i];
            &&& 0 <= a.level < k.level
            &&& a == ancestor(k, a.level as int)
            &&& !present.contains(a)
        } by {
            if present.contains(p) {
                assert(m[i] == rest[i]);
                assert(ancestor(k, m[i].level as int) == ancestor(p, m[i].level as int));
            } else if i == 0 {
                reveal_with_fuel(ancestor, 3);
                assert(m[i] == p);
            } else {
                assert(m[i] == rest[i - 1]);
                assert(ancestor(k, m[i].level as int) == ancestor(p, m[i].level as int));
                assert(!inner.contains(rest[i - 1]));
                if present.contains(m[i]) {
                    let j = choose|j: int| 0 <= j < present.len() && present[j] == m[i];
                    assert(inner[j] == m[i]);
                }
            }
        }
        if !present.contains(p) {
            assert(m.no_duplicates()) by {
                assert(inner[present.len() as int] == p);
                assert forall|a: int, b: int| 0 <= a < m.len() && 0 <= b < m.len() && a
                    != b implies m[a] != m[b] by {
                    if a > 0 && b > 0 {
                        assert(m[a] == rest[a - 1] && m[b] == rest[b - 1]);
                    } else if a == 0 {
                        assert(m[b] == rest[b - 1]);
                        assert(!inner.contains(rest[b - 1]));
                    } else {
                        assert(m[a] == rest[a - 1]);
                        assert(!inner.contains(rest[a - 1]));
                    }
                }
            }
        }
    }
}

proof fn lemma_added(nodes: Seq<Counted>, n: nat)
    requires
        n <= nodes.len(),
        forall|i: int| 0 <= i < nodes.len() ==> (#[trigger] nodes[i]).0.level >= 0,
        counted_keys(nodes).no_duplicates(),
    ensures
        forall|i: int, l: int|
            0 <= i < n && 0 <= l < nodes[i].0.level ==> (counted_keys(nodes) + added(
                nodes,
                n,
            )).contains(#[trigger] ancestor(nodes[i].0, l)),
        forall|j: int|
            0 <= j < added(nodes, n).len() ==> exists|i: int|
                {
                    let a = #[trigger] added(nodes, n)[j];
                    &&& 0 <= i < nodes.len()
                    &&& 0 <= a.level < (#[trigger] nodes[i]).0.level
                    &&& a == ancestor(nodes[i].0, a.level as int)
                    &&& i < n
                },
        (counted_keys(nodes) + added(nodes, n)).no_duplicates(),
    decreases n,
{
    let keys = counted_keys(nodes);
    if n == 0 {
        assert(keys + added(nodes, n) =~= keys);
    } else {
        let m = (n - 1) as nat;
        lemma_added(nodes, m);
        let so_far = added(nodes, m);
        let k = nodes[n - 1].0;
        let more = missing_ancestors(keys + so_far, k);
        lemma_missing_ancestors(keys + so_far, k);
        let now = added(nodes, n);
        let all = keys + now;
        assert(all =~= (keys + so_far) + more);
        assert forall|i: int, l: int| 0 <= i < n && 0 <= l < nodes[i].0.level implies all.contains(
            #[trigger] ancestor(nodes[i].0, l),
        ) by {
            if i < m {
                let a = ancestor(nodes[i].0, l);
                assert((keys + so_far).contains(a));
                let j = choose|j: int| 0 <= j < (keys + so_far).len() && (keys + so_far)[j] == a;
                assert(all[j] == a);
            }
        }
        assert forall|j: int| 0 <= j < now.len() implies exists|i: int|
            {
                let a = #[trigger] now[j];
                &&& 0 <= i < nodes.len()
                &&& 0 <= a.level < (#[trigger] nodes[i]).0.level
                &&& a == ancestor(nodes[i].0, a.level as int)
                &&& i < n
            } by {
            if j < so_far.len() {
                assert(now[j] == so_far[j]);
                let i = choose|i: int|
                    {
                        let a = so_far[j];
                        &&& 0 <= i < nodes.len()
                        &&& 0 <= a.level < (#[trigger] nodes[i]).0.level
                        &&& a == ancestor(nodes[i].0, a.level as int)
                        &&& i < m
                    };
                assert(nodes[i].0.level > now[j].level);
            } else {
                assert(now[j] == more[j - so_far.len()]);
                assert(nodes[n - 1].0.level > now[j].level);
            }
        }
        assert(all.no_duplicates()) by {
            let base = keys + so_far;
            assert forall|a: int, b: int| 0 <= a < all.len() && 0 <= b < all.len() && a
                != b implies all[a] != all[b] by {
                if a < base.len() && b < base.len() {
                    assert(all[a] == base[a] && all[b] == base[b]);
                } else if a < base.len() {
                    assert(all[b] == more[b - base.len()]);
                    assert(!base.contains(more[b - base.len()]));
                    assert(base[a] == all[a]);
                } else if b < base.len() {
                    assert(all[a] == more[a - base.len()]);
                    assert(!base.contains(more[a - base.len()]));
                    assert(base[b] == all[b]);
                } else {
                    assert(all[a] == more[a - base.len()] && all[b] == more[b - base.len()]);
                }
            }
        }
    }
}

proof fn lemma_filled(keys: Seq<VoxelKey>, counts: Seq<u64>)
    requires
        keys.len() == counts.len(),
        keys.no_duplicates(),
    ensures
        counted_keys(filled(keys, counts)).no_duplicates(),
        forall|n: Counted| #[trigger]
            filled(keys, counts).contains(n) <==> n.1 > 0 && exists|i: int|
                0 <= i < keys.len() && #[trigger] keys[i] == n.0 && counts[i] == n.1,
    decreases keys.len(),
{
    if keys.len() > 0 {
        let ki = keys.drop_last();
        let ci = counts.drop_last();
        lemma_filled(ki, ci);
        let f = filled(ki, ci);
        let now = filled(keys, counts);
        let last = (keys.last(), counts.last());
        assert forall|n: Counted| #[trigger] now.contains(n) <==> n.1 > 0 && exists|i: int|
            0 <= i < keys.len() && #[trigger] keys[i] == n.0 && counts[i] == n.1 by {
            if now.contains(n) {
                let j = choose|j: int| 0 <= j < now.len() && now[j] == n;
                if j < f.len() {
                    assert(f[j] == n);
                    assert(f.contains(n));
                    let i = choose|i: int|
                        0 <= i < ki.len() && #[trigger] ki[i] == n.0 && ci[i] == n.1;
                    assert(keys[i] == n.0 && counts[i] == n.1);
                } else {
                    assert(keys[keys.len() - 1] == n.0);
                }
            }
            if n.1 > 0 && exists|i: int|
                0 <= i < keys.len() && #[trigger] keys[i] == n.0 && counts[i] == n.1 {
                let i = choose|i: int|
                    0 <= i < keys.len() && #[trigger] keys[i] == n.0 && counts[i] == n.1;
                if i < ki.len() {
                    assert(ki[i] == n.0 && ci[i] == n.1);
                    assert(f.contains(n));
                    let j = choose|j: int| 0 <= j < f.len() && f[j] == n;
                    assert(now[j] == n);
                } else {
                    assert(now[f.len() as int] == n);
                }
            }
        }
        let fk = counted_keys(f);
        let nk = counted_keys(now);
        if counts.last() > 0 {
            assert(nk =~= fk.push(keys.last()));
            assert(!fk.contains(keys.last())) by {
                if fk.contains(keys.last()) {
                    let j = choose|j: int| 0 <= j < fk.len() && fk[j] == keys.last();
                    assert(f.contains(f[j]));
                    let i = choose|i: int|
                        0 <= i < ki.len() && #[trigger] ki[i] == f[j].0 && ci[i] == f[j].1;
                    assert(keys[i] == keys[keys.len() - 1]);
                }
            }
            assert(nk.no_duplicates()) by {
                assert forall|a: int, b: int| 0 <= a < nk.len() && 0 <= b < nk.len() && a
                    != b implies nk[a] != nk[b] by {
                    if a < fk.len() && b < fk.len() {
                        assert(fk[a] == nk[a] && fk[b] == nk[b]);
                    } else if a < fk.len() {
                        assert(fk[a] == nk[a]);
                    } else {
                        assert(fk[b] == nk[b]);
                    }
                }
            }
        }
    }
}

/// The list holds no key twice, holds exactly the nodes with points under their
/// counts, holds the parent of every node in it but the root, and goes from the
/// coarsest level to the finest.
pub proof fn law_node_list(keys: Seq<VoxelKey>, counts: Seq<u64>)
    requires
        keys.len() == counts.len(),
        keys.no_duplicates(),
        forall|i: int| 0 <= i < keys.len() ==> (#[trigger] keys[i]).level >= 0,
        with_ancestors(filled(keys, counts)).len() <= usize::MAX,
    ensures
        counted_keys(node_list(keys, counts)).no_duplicates(),
        forall|n: Counted|
            n.1 > 0 ==> (#[trigger] node_list(keys, counts).contains(n) <==> exists|i: int|
                0 <= i < keys.len() && #[trigger] keys[i] == n.0 && counts[i] == n.1),
        forall|j: int|
            0 <= j < node_list(keys, counts).len() && (#[trigger] node_list(
                keys,
                counts,
            )[j]).0.level > 0 ==> counted_keys(node_list(keys, counts)).contains(
                parent_key(node_list(keys, counts)[j].0),
            ),
        forall|i: int, j: int|
            0 <= i < j < node_list(keys, counts).len() ==> (#[trigger] node_list(
                keys,
                counts,
            )[i]).0.level <= (#[trigger] node_list(keys, counts)[j]).0.level,
{
    let held = filled(keys, counts);
    let list = with_ancestors(held);
    let extra = added(held, held.len());
    let order = sort_order(level_codes(list));
    let out = node_list(keys, counts);
    lemma_filled(keys, counts);
    assert forall|i: int| 0 <= i < held.len() implies (#[trigger] held[i]).0.level >= 0 by {
        assert(held.contains(held[i]));
        let j = choose|j: int|
            0 <= j < keys.len() && #[trigger] keys[j] == held[i].0 && counts[j] == held[i].1;
        assert(keys[j].level >= 0);
    }
    lemma_added(held, held.len());
    lemma_sort_order_exists(level_codes(list));
    let lk = counted_keys(list);
    assert(lk =~= counted_keys(held) + extra);
    let ok = counted_keys(out);
    assert forall|i: int, j: int| 0 <= i < ok.len() && 0 <= j < ok.len() && i != j implies ok[i]
        != ok[j] by {
        assert(order[i] != order[j]);
        assert(lk[order[i] as int] != lk[order[j] as int]);
    }
    assert forall|n: Counted| out.contains(n) <==> list.contains(n) by {
        if out.contains(n) {
            let j = choose|j: int| 0 <= j < out.len() && out[j] == n;
            assert(list[order[j] as int] == n);
        }
        if list.contains(n) {
            let j = choose|j: int| 0 <= j < list.len() && list[j] == n;
            assert(order.contains(j as usize));
            let m = choose|m: int| 0 <= m < order.len() && order[m] == j as usize;
            assert(out[m] == n);
        }
    }
    assert forall|n: Counted| n.1 > 0 implies (#[trigger] out.contains(n) <==> exists|i: int|
        0 <= i < keys.len() && #[trigger] keys[i] == n.0 && counts[i] == n.1) by {
        if list.contains(n) {
            let j = choose|j: int| 0 <= j < list.len() && list[j] == n;
            if j < held.len() {
                assert(held[j] == n);
                assert(held.contains(n));
            }
        }
        if held.contains(n) {
            let j = choose|j: int| 0 <= j < held.len() && held[j] == n;
            assert(list[j] == n);
        }
    }
    assert forall|j: int| 0 <= j < out.len() && (#[trigger] out[j]).0.level > 0 implies ok.contains(
        parent_key(out[j].0),
    ) by {
        let k = out[j].0;
        let p = parent_key(k);
        let at = order[j] as int;
        reveal_with_fuel(ancestor, 3);
        assert(ancestor(k, k.level - 1) == p);
        assert(lk.contains(p)) by {
            if at < held.len() {
                assert(held[at].0 == k);
                assert((counted_keys(held) + extra).contains(ancestor(held[at].0, k.level - 1)));
            } else {
                let e = at - held.len();
                assert(extra[e] == k);
                let i = choose|i: int|
                    {
                        let a = extra[e];
                        &&& 0 <= i < held.len()
                        &&& 0 <= a.level < (#[trigger] held[i]).0.level
                        &&& a == ancestor(held[i].0, a.level as int)
                        &&& i < held.len()
                    };
                law_ancestor_of_ancestor(held[i].0, k.level as int, k.level - 1);
                assert((counted_keys(held) + extra).contains(ancestor(held[i].0, k.level - 1)));
            }
        }
        let m = choose|m: int| 0 <= m < lk.len() && lk[m] == p;
        assert(list.contains(list[m]));
        assert(out.contains(list[m]));
        let o = choose|o: int| 0 <= o < out.len() && out[o] == list[m];
        assert(ok[o] == p);
    }
    assert forall|i: int, j: int| 0 <= i < j < out.len() implies (#[trigger] out[i]).0.level <= (
    #[trigger] out[j]).0.level by {
        assert(level_codes(list)[order[i] as int] <= level_codes(list)[order[j] as int]);
    }
}

/// Every node of the list that has no points is a proper ancestor of one that
/// has, and the root is there where any node has points.
pub proof fn law_node_list_ancestors(keys: Seq<VoxelKey>, counts: Seq<u64>, i: int, j: int)
    requires
        keys.len() == counts.len(),
        keys.no_duplicates(),
        forall|k: int| 0 <= k < keys.len() ==> valid_key(#[trigger] keys[k]),
        with_ancestors(filled(keys, counts)).len() <= usize::MAX,
    ensures
        0 <= j < node_list(keys, counts).len() && node_list(keys, counts)[j].1 == 0 ==> exists|
            k: int,
        |
            {
                let a = node_list(keys, counts)[j].0;
                &&& 0 <= k < keys.len()
                &&& counts[k] > 0
                &&& a.level < (#[trigger] keys[k]).level
                &&& a == ancestor(keys[k], a.level as int)
            },
        0 <= i < keys.len() && counts[i] > 0 ==> counted_keys(
            node_list(keys, counts),
        ).contains(root_key()),
{
    let held = filled(keys, counts);
    let list = with_ancestors(held);
    let extra = added(held, held.len());
    let order = sort_order(level_codes(list));
    let out = node_list(keys, counts);
    lemma_filled(keys, counts);
    assert forall|k: int| 0 <= k < held.len() implies (#[trigger] held[k]).0.level >= 0 && held[k].1
        > 0 by {
        assert(held.contains(held[k]));
        let m = choose|m: int|
            0 <= m < keys.len() && #[trigger] keys[m] == held[k].0 && counts[m] == held[k].1;
        assert(valid_key(keys[m]));
    }
    lemma_added(held, held.len());
    lemma_sort_order_exists(level_codes(list));
    if 0 <= j < out.len() && out[j].1 == 0 {
        let at = order[j] as int;
        assert(out[j] == list[at]);
        if at < held.len() {
            assert(held[at] == list[at]);
        } else {
            let a = extra[at - held.len()];
            assert(list[at].0 == a);
            let k = choose|k: int|
                {
                    &&& 0 <= k < held.len()
                    &&& 0 <= a.level < (#[trigger] held[k]).0.level
                    &&& a == ancestor(held[k].0, a.level as int)
                    &&& k < held.len()
                };
            assert(held.contains(held[k]));
            let m = choose|m: int|
                0 <= m < keys.len() && #[trigger] keys[m] == held[k].0 && counts[m] == held[k].1;
            assert(keys[m].level > a.level);
        }
    }
    if 0 <= i < keys.len() && counts[i] > 0 {
        let n = (keys[i], counts[i]);
        assert(held.contains(n));
        let h = choose|h: int| 0 <= h < held.len() && held[h] == n;
        let lk = counted_keys(held) + extra;
        assert(valid_key(keys[i]));
        let top = ancestor(keys[i], 0);
        lemma_ancestor_level(keys[i], 0);
        assert(pow2(0) == 1);
        assert(top == root_key());
        assert(lk.contains(top)) by {
            if keys[i].level == 0 {
                assert(lk[h] == top);
            } else {
                assert(lk.contains(ancestor(held[h].0, 0)));
            }
        }
        let m = choose|m: int| 0 <= m < lk.len() && lk[m] == top;
        assert(list[m].0 == top);
        assert(order.contains(m as usize));
        let o = choose|o: int| 0 <= o < order.len() && order[o] == m as usize;
        assert(counted_keys(out)[o] == top);
    }
}

} // verus!
