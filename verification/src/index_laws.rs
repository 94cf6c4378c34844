//! What a reader finds in the hierarchy and in the temporal index, byte by byte,
//! and how the nodes of the tree are listed and written.

use crate::batches::{batch_size, batches_from, joined, lemma_batches_from, total_size};
use crate::file_laws::le_at;
use crate::grouping::{gathered, gathered_groups, group_by, lemma_gathered_split, ungrouped};
use crate::hierarchy::{
    all_indices, deepest_level, entry_bytes, key_bytes, lemma_decode_entry, lemma_decode_key,
    page_boundaries, pointer_entry, HierarchyEntry,
};
use crate::key::{key_code, law_key_order, VoxelKey};
use crate::le::{le_bytes, lemma_le_bytes_len, lemma_le_value_of_bytes, lemma_pow256_values};
use crate::node_map::Counted;
use crate::sampling::lemma_picked_is_multiset;
use crate::sorting::{lemma_picked_permutation, lemma_sort_order_exists, sort_order};
use crate::temporal;
use crate::temporal::{
    header_bytes, index_header, index_page_count, index_pages_len, lemma_samples_bytes,
    lemma_temporal_len, pointer_bytes, root_page_len, samples_bytes, temporal_bytes, time_range,
    EntryView, TemporalIndexHeader, TemporalPagePointer,
};
use crate::writer::{
    by_key, data_before, data_nodes, node_codes, node_entry, node_sizes, size_before, total_count,
};
use vstd::multiset::Multiset;
use vstd::prelude::*;

verus! {

// The bytes of entries.
/// The number in the four bytes at `at`, in two's complement.
pub open spec fn signed_at(b: Seq<u8>, at: int) -> int {
    if le_at(b, at, 4) < 0x8000_0000 {
        le_at(b, at, 4) as int
    } else {
        le_at(b, at, 4) - 0x1_0000_0000
    }
}

proof fn lemma_signed_at(b: Seq<u8>, at: int, v: i32)
    requires
        0 <= at,
        at + 4 <= b.len(),
        b.subrange(at, at + 4) == le_bytes((v as u32) as nat, 4),
    ensures
        signed_at(b, at) == v,
{
    lemma_pow256_values();
    lemma_le_value_of_bytes((v as u32) as nat, 4);
    let u = v as u32;
    assert(u < 0x8000_0000 ==> u as i32 == u) by (bit_vector);
    assert(u >= 0x8000_0000 ==> u as i32 == u - 0x1_0000_0000) by (bit_vector);
    assert((v as u32) as i32 == v) by (bit_vector);
}

/// The key stands at `at`: level, x, y and z, four bytes each.
pub open spec fn key_at(b: Seq<u8>, at: int, k: VoxelKey) -> bool {
    &&& signed_at(b, at) == k.level
    &&& signed_at(b, at + 4) == k.x
    &&& signed_at(b, at + 8) == k.y
    &&& signed_at(b, at + 12) == k.z
}

proof fn lemma_key_at(b: Seq<u8>, at: int, k: VoxelKey)
    requires
        0 <= at,
        at + 16 <= b.len(),
        b.subrange(at, at + 16) == key_bytes(k),
    ensures
        key_at(b, at, k),
{
    broadcast use lemma_le_bytes_len;

    let s = key_bytes(k);
    lemma_decode_key(k);
    assert(s.subrange(0, 4) =~= le_bytes((k.level as u32) as nat, 4));
    assert(s.subrange(4, 8) =~= le_bytes((k.x as u32) as nat, 4));
    assert(s.subrange(8, 12) =~= le_bytes((k.y as u32) as nat, 4));
    assert(s.subrange(12, 16) =~= le_bytes((k.z as u32) as nat, 4));
    assert(b.subrange(at, at + 4) =~= s.subrange(0, 4));
    assert(b.subrange(at + 4, at + 8) =~= s.subrange(4, 8));
    assert(b.subrange(at + 8, at + 12) =~= s.subrange(8, 12));
    assert(b.subrange(at + 12, at + 16) =~= s.subrange(12, 16));
    lemma_signed_at(b, at, k.level);
    lemma_signed_at(b, at + 4, k.x);
    lemma_signed_at(b, at + 8, k.y);
    lemma_signed_at(b, at + 12, k.z);
}

/// An entry of the hierarchy takes 32 bytes: the key at 0, the offset at 16, the
/// size at 24 and the number of points at 28.
#[verifier::rlimit(40)]
pub proof fn law_hierarchy_entry_layout(e: HierarchyEntry)
    ensures
        entry_bytes(e).len() == 32,
        key_at(entry_bytes(e), 0, e.key),
        le_at(entry_bytes(e), 16, 8) == e.offset,
        signed_at(entry_bytes(e), 24) == e.byte_size,
        signed_at(entry_bytes(e), 28) == e.point_count,
{
    broadcast use lemma_le_bytes_len;

    lemma_pow256_values();
    lemma_decode_entry(e);
    lemma_decode_key(e.key);
    let b = entry_bytes(e);
    assert(b.subrange(0, 16) =~= key_bytes(e.key));
    assert(b.subrange(16, 24) =~= le_bytes(e.offset as nat, 8));
    assert(b.subrange(24, 28) =~= le_bytes((e.byte_size as u32) as nat, 4));
    assert(b.subrange(28, 32) =~= le_bytes((e.point_count as u32) as nat, 4));
    lemma_key_at(b, 0, e.key);
    lemma_le_value_of_bytes(e.offset as nat, 8);
    lemma_signed_at(b, 24, e.byte_size);
    lemma_signed_at(b, 28, e.point_count);
}

/// An entry of the temporal index: the key at 0, the number of samples at 16, and
/// the samples from 20 on, eight bytes each, in their order.
#[verifier::rlimit(40)]
pub proof fn law_temporal_entry_layout(e: EntryView, i: int)
    requires
        0 <= i < e.1.len() <= u32::MAX,
    ensures
        crate::temporal::entry_bytes(e).len() == 20 + 8 * e.1.len(),
        key_at(crate::temporal::entry_bytes(e), 0, e.0),
        le_at(crate::temporal::entry_bytes(e), 16, 4) == e.1.len(),
        le_at(crate::temporal::entry_bytes(e), 20 + 8 * i, 8) == e.1[i],
{
    broadcast use lemma_le_bytes_len;

    lemma_pow256_values();
    lemma_decode_key(e.0);
    lemma_samples_bytes(e.1);
    let b = crate::temporal::entry_bytes(e);
    let s = samples_bytes(e.1);
    assert(b.subrange(0, 16) =~= key_bytes(e.0));
    assert(b.subrange(16, 20) =~= le_bytes(e.1.len(), 4));
    assert(b.subrange(20 + 8 * i, 28 + 8 * i) =~= s.subrange(8 * i, 8 * i + 8));
    lemma_key_at(b, 0, e.0);
    lemma_le_value_of_bytes(e.1.len(), 4);
}

/// A pointer of the temporal index takes 48 bytes: the key at 0, zero at 16, the
/// offset of the page at 20, its size at 28, and the earliest and latest time
/// below it at 32 and 40.
#[verifier::rlimit(40)]
pub proof fn law_temporal_pointer_layout(p: TemporalPagePointer)
    ensures
        pointer_bytes(p).len() == 48,
        key_at(pointer_bytes(p), 0, p.key),
        le_at(pointer_bytes(p), 16, 4) == 0,
        le_at(pointer_bytes(p), 20, 8) == p.child_page_offset,
        le_at(pointer_bytes(p), 28, 4) == p.child_page_size,
        le_at(pointer_bytes(p), 32, 8) == p.subtree_time_min,
        le_at(pointer_bytes(p), 40, 8) == p.subtree_time_max,
{
    broadcast use lemma_le_bytes_len;

    lemma_pow256_values();
    lemma_decode_key(p.key);
    let b = pointer_bytes(p);
    assert(b.subrange(0, 16) =~= key_bytes(p.key));
    assert(b.subrange(16, 20) =~= le_bytes(0, 4));
    assert(b.subrange(20, 28) =~= le_bytes(p.child_page_offset as nat, 8));
    assert(b.subrange(28, 32) =~= le_bytes(p.child_page_size as nat, 4));
    assert(b.subrange(32, 40) =~= le_bytes(p.subtree_time_min as nat, 8));
    assert(b.subrange(40, 48) =~= le_bytes(p.subtree_time_max as nat, 8));
    lemma_key_at(b, 0, p.key);
    lemma_le_value_of_bytes(0, 4);
    lemma_le_value_of_bytes(p.child_page_offset as nat, 8);
    lemma_le_value_of_bytes(p.child_page_size as nat, 4);
    lemma_le_value_of_bytes(p.subtree_time_min as nat, 8);
    lemma_le_value_of_bytes(p.subtree_time_max as nat, 8);
}

/// The header of the temporal index takes 32 bytes: version, stride, number of
/// nodes and number of pages at 0, 4, 8 and 12, where the root page lies at 16,
/// its size at 24, and zero at 28.
#[verifier::rlimit(40)]
pub proof fn law_temporal_header_layout(h: TemporalIndexHeader)
    ensures
        header_bytes(h).len() == 32,
        le_at(header_bytes(h), 0, 4) == h.version,
        le_at(header_bytes(h), 4, 4) == h.stride,
        le_at(header_bytes(h), 8, 4) == h.node_count,
        le_at(header_bytes(h), 12, 4) == h.page_count,
        le_at(header_bytes(h), 16, 8) == h.root_page_offset,
        le_at(header_bytes(h), 24, 4) == h.root_page_size,
        le_at(header_bytes(h), 28, 4) == 0,
{
    broadcast use lemma_le_bytes_len;

    lemma_pow256_values();
    let b = header_bytes(h);
    assert(b.subrange(0, 4) =~= le_bytes(h.version as nat, 4));
    assert(b.subrange(4, 8) =~= le_bytes(h.stride as nat, 4));
    assert(b.subrange(8, 12) =~= le_bytes(h.node_count as nat, 4));
    assert(b.subrange(12, 16) =~= le_bytes(h.page_count as nat, 4));
    assert(b.subrange(16, 24) =~= le_bytes(h.root_page_offset as nat, 8));
    assert(b.subrange(24, 28) =~= le_bytes(h.root_page_size as nat, 4));
    assert(b.subrange(28, 32) =~= le_bytes(0, 4));
    lemma_le_value_of_bytes(h.version as nat, 4);
    lemma_le_value_of_bytes(h.stride as nat, 4);
    lemma_le_value_of_bytes(h.node_count as nat, 4);
    lemma_le_value_of_bytes(h.page_count as nat, 4);
    lemma_le_value_of_bytes(h.root_page_offset as nat, 8);
    lemma_le_value_of_bytes(h.root_page_size as nat, 4);
    lemma_le_value_of_bytes(0, 4);
}

/// The index starts with its header: version 1, the stride that it was made
/// with, as many nodes as there are entries, and the root page right behind the
/// header.
pub proof fn law_temporal_index_start(es: Seq<EntryView>, stride: u32, start: nat)
    requires
        es.len() <= u32::MAX,
        index_page_count(es) <= u32::MAX,
        root_page_len(es) <= u32::MAX,
        start + 32 + index_pages_len(es) <= u64::MAX,
    ensures
        ({
            let b = temporal_bytes(es, stride, start);
            &&& b.len() == 32 + index_pages_len(es)
            &&& le_at(b, 0, 4) == 1
            &&& le_at(b, 4, 4) == stride
            &&& le_at(b, 8, 4) == es.len()
            &&& le_at(b, 12, 4) == index_page_count(es)
            &&& le_at(b, 16, 8) == start + 32
            &&& le_at(b, 24, 4) == root_page_len(es)
            &&& le_at(b, 28, 4) == 0
        }),
{
    let b = temporal_bytes(es, stride, start);
    let h = header_bytes(index_header(es, stride, start));
    law_temporal_header_layout(index_header(es, stride, start));
    lemma_temporal_len(es, stride, start);
    assert(b.subrange(0, 4) =~= h.subrange(0, 4));
    assert(b.subrange(4, 8) =~= h.subrange(4, 8));
    assert(b.subrange(8, 12) =~= h.subrange(8, 12));
    assert(b.subrange(12, 16) =~= h.subrange(12, 16));
    assert(b.subrange(16, 24) =~= h.subrange(16, 24));
    assert(b.subrange(24, 28) =~= h.subrange(24, 28));
    assert(b.subrange(28, 32) =~= h.subrange(28, 32));
}

// Pages.
/// Pages split at every third level: at the multiples of three from 3 on that
/// lie above the deepest level, in ascending order, and nowhere else.
pub proof fn law_page_boundaries(max_level: i32, level: i32)
    ensures
        page_boundaries(max_level).contains(level) <==> 3 <= level < max_level && level as int % 3
            == 0,
        forall|i: int, j: int|
            0 <= i < j < page_boundaries(max_level).len() ==> #[trigger] page_boundaries(
                max_level,
            )[i] < #[trigger] page_boundaries(max_level)[j],
{
    let b = page_boundaries(max_level);
    assert forall|i: int| 0 <= i < b.len() implies #[trigger] b[i] == 3 * (i + 1) && b[i]
        < max_level by {}
    if 3 <= level < max_level && level as int % 3 == 0 {
        let i = level as int / 3 - 1;
        assert(b[i] == level);
    }
    if b.contains(level) {
        let i = choose|i: int| 0 <= i < b.len() && b[i] == level;
        assert(b[i] == 3 * (i + 1));
    }
}

/// The deepest level is that of an entry, and no entry lies deeper.
pub proof fn law_deepest_level(es: Seq<HierarchyEntry>, ts: Seq<EntryView>)
    requires
        es.len() > 0,
        ts.len() > 0,
    ensures
        forall|i: int| 0 <= i < es.len() ==> (#[trigger] es[i]).key.level <= deepest_level(es),
        exists|i: int| 0 <= i < es.len() && (#[trigger] es[i]).key.level == deepest_level(es),
        forall|i: int|
            0 <= i < ts.len() ==> (#[trigger] ts[i]).0.level <= crate::temporal::deepest_level(ts),
        exists|i: int|
            0 <= i < ts.len() && (#[trigger] ts[i]).0.level == crate::temporal::deepest_level(ts),
{
    lemma_deepest(es);
    lemma_deepest_sampled(ts);
}

proof fn lemma_deepest(es: Seq<HierarchyEntry>)
    requires
        es.len() > 0,
    ensures
        forall|i: int| 0 <= i < es.len() ==> (#[trigger] es[i]).key.level <= deepest_level(es),
        exists|i: int| 0 <= i < es.len() && (#[trigger] es[i]).key.level == deepest_level(es),
    decreases es.len(),
{
    if es.len() > 1 {
        let init = es.drop_last();
        lemma_deepest(init);
        assert forall|i: int| 0 <= i < es.len() implies (#[trigger] es[i]).key.level
            <= deepest_level(es) by {
            if i < init.len() {
                assert(init[i].key.level <= deepest_level(init));
            }
        }
        let i = choose|i: int|
            0 <= i < init.len() && (#[trigger] init[i]).key.level == deepest_level(init);
        assert(es[i] == init[i]);
        assert(es[es.len() - 1] == es.last());
    } else {
        assert(es[0].key.level == deepest_level(es));
    }
}

proof fn lemma_deepest_sampled(ts: Seq<EntryView>)
    requires
        ts.len() > 0,
    ensures
        forall|i: int|
            0 <= i < ts.len() ==> (#[trigger] ts[i]).0.level <= crate::temporal::deepest_level(ts),
        exists|i: int|
            0 <= i < ts.len() && (#[trigger] ts[i]).0.level == crate::temporal::deepest_level(ts),
    decreases ts.len(),
{
    if ts.len() > 1 {
        let init = ts.drop_last();
        lemma_deepest_sampled(init);
        assert forall|i: int| 0 <= i < ts.len() implies (#[trigger] ts[i]).0.level
            <= crate::temporal::deepest_level(ts) by {
            if i < init.len() {
                assert(init[i].0.level <= crate::temporal::deepest_level(init));
            }
        }
        let i = choose|i: int|
            0 <= i < init.len() && (#[trigger] init[i]).0.level == crate::temporal::deepest_level(
                init,
            );
        assert(ts[i] == init[i]);
        assert(ts[ts.len() - 1] == ts.last());
    } else {
        assert(ts[0].0.level == crate::temporal::deepest_level(ts));
    }
}

/// The time range of some entries is no wider than it has to be: its start is the
/// first sample of one of them and its end the last sample of one of them, or
/// the bounds that a range starts with.
pub proof fn law_time_range_tight(es: Seq<EntryView>, sel: Seq<usize>)
    ensures
        time_range(es, sel).0 == 0x7FEF_FFFF_FFFF_FFFF || exists|i: int|
            {
                &&& 0 <= i < sel.len()
                &&& es[#[trigger] sel[i] as int].1.len() > 0
                &&& es[sel[i] as int].1[0] == time_range(es, sel).0
            },
        time_range(es, sel).1 == 0xFFEF_FFFF_FFFF_FFFF || exists|i: int|
            {
                &&& 0 <= i < sel.len()
                &&& es[#[trigger] sel[i] as int].1.len() > 0
                &&& es[sel[i] as int].1[es[sel[i] as int].1.len() - 1] == time_range(es, sel).1
            },
    decreases sel.len(),
{
    if sel.len() > 0 {
        let init = sel.drop_last();
        law_time_range_tight(es, init);
        let r = time_range(es, init);
        if r.0 != 0x7FEF_FFFF_FFFF_FFFF {
            let i = choose|i: int|
                {
                    &&& 0 <= i < init.len()
                    &&& es[#[trigger] init[i] as int].1.len() > 0
                    &&& es[init[i] as int].1[0] == r.0
                };
            assert(sel[i] == init[i]);
        }
        if r.1 != 0xFFEF_FFFF_FFFF_FFFF {
            let i = choose|i: int|
                {
                    &&& 0 <= i < init.len()
                    &&& es[#[trigger] init[i] as int].1.len() > 0
                    &&& es[init[i] as int].1[es[init[i] as int].1.len() - 1] == r.1
                };
            assert(sel[i] == init[i]);
        }
        assert(sel[sel.len() - 1] == sel.last());
    }
}

// Nodes.
/// Nodes are written coarse levels first, and on each level by x, y and z; every
/// node is written, each as often as it is listed.
pub proof fn law_nodes_by_key(nodes: Seq<Counted>, i: int, j: int)
    requires
        nodes.len() <= usize::MAX,
        0 <= i < j < nodes.len(),
    ensures
        by_key(nodes).len() == nodes.len(),
        by_key(nodes).to_multiset() == nodes.to_multiset(),
        ({
            let (a, b) = (by_key(nodes)[i].0, by_key(nodes)[j].0);
            ||| a == b
            ||| a.level < b.level
            ||| a.level == b.level && a.x < b.x
            ||| a.level == b.level && a.x == b.x && a.y < b.y
            ||| a.level == b.level && a.x == b.x && a.y == b.y && a.z < b.z
        }),
{
    let codes = node_codes(nodes);
    let order = sort_order(codes);
    let value = |i: usize| nodes[i as int];
    let n = nodes.len();
    lemma_sort_order_exists(codes);
    lemma_picked_permutation(value, order, n);
    lemma_picked_is_multiset(value, order);
    lemma_picked_is_multiset(value, all_indices(n));
    assert(all_indices(n).map_values(value) =~= nodes);
    let (p, q) = (order[i] as int, order[j] as int);
    assert(codes[p] <= codes[q]);
    let (a, b) = (nodes[p].0, nodes[q].0);
    law_key_order(a, b);
    law_key_order(b, a);
    assert(codes[p] == key_code(a) && codes[q] == key_code(b));
}

/// The nodes that hold points, and no others, get chunks, in their order.
pub proof fn law_data_nodes(nodes: Seq<Counted>)
    ensures
        data_nodes(nodes) == nodes.filter(|n: Counted| n.1 > 0),
    decreases nodes.len(),
{
    reveal(Seq::filter);
    let pred = |n: Counted| n.1 > 0;
    if nodes.len() == 0 {
        assert(data_nodes(nodes) =~= nodes.filter(pred));
    } else {
        law_data_nodes(nodes.drop_last());
    }
}

/// Chunks lie one right behind another: the first node that holds points has its
/// chunk at `first`, and the chunk of the next such node starts where the one
/// before ends. Each entry has its node's key, its number of points and the size
/// of its chunk; a node without points has none of these.
pub proof fn law_chunks_adjacent(
    nodes: Seq<Counted>,
    sizes: Seq<u64>,
    first: nat,
    i: int,
    j: int,
)
    requires
        0 <= i < j < nodes.len(),
        data_before(nodes, nodes.len()) <= sizes.len(),
        first + size_before(sizes, sizes.len()) <= u64::MAX,
        forall|k: int| i < k < j ==> (#[trigger] nodes[k]).1 == 0,
        forall|k: int| 0 <= k < sizes.len() ==> #[trigger] sizes[k] <= i32::MAX,
        nodes[i].1 <= i32::MAX,
        nodes[j].1 > 0,
    ensures
        ({
            let (a, b) = (node_entry(nodes, sizes, first, i), node_entry(nodes, sizes, first, j));
            &&& a.key == nodes[i].0
            &&& a.point_count == nodes[i].1
            &&& nodes[i].1 > 0 ==> b.offset == a.offset + a.byte_size
            &&& nodes[i].1 == 0 ==> a.offset == 0 && a.byte_size == 0 && a.point_count == 0
            &&& i == 0 && nodes[i].1 > 0 ==> a.offset == first
            &&& i == 0 && nodes[i].1 == 0 ==> b.offset == first
        }),
{
    let a = data_before(nodes, i as nat);
    let b = data_before(nodes, j as nat);
    lemma_data_between(nodes, (i + 1) as nat, j as nat);
    lemma_data_grows(nodes, (j + 1) as nat, nodes.len());
    assert(data_before(nodes, (j + 1) as nat) == b + 1);
    lemma_size_grows(sizes, b, sizes.len());
    lemma_size_grows(sizes, a, sizes.len());
    if nodes[i].1 > 0 {
        assert(b == a + 1);
        assert(size_before(sizes, b) == size_before(sizes, a) + sizes[a as int]);
    }
}

proof fn lemma_data_between(nodes: Seq<Counted>, a: nat, b: nat)
    requires
        a <= b <= nodes.len(),
        forall|k: int| a <= k < b ==> (#[trigger] nodes[k]).1 == 0,
    ensures
        data_before(nodes, a) == data_before(nodes, b),
    decreases b,
{
    if a < b {
        lemma_data_between(nodes, a, (b - 1) as nat);
        assert(nodes[b - 1].1 == 0);
    }
}

proof fn lemma_data_grows(nodes: Seq<Counted>, a: nat, b: nat)
    requires
        a <= b <= nodes.len(),
    ensures
        data_before(nodes, a) <= data_before(nodes, b),
    decreases b,
{
    if a < b {
        lemma_data_grows(nodes, a, (b - 1) as nat);
    }
}

proof fn lemma_size_grows(sizes: Seq<u64>, a: nat, b: nat)
    requires
        a <= b <= sizes.len(),
    ensures
        size_before(sizes, a) <= size_before(sizes, b),
    decreases b,
{
    if a < b {
        lemma_size_grows(sizes, a, (b - 1) as nat);
    }
}

/// The number of points of a list is that of both of its parts together, and
/// that of a single node is its own.
pub proof fn law_total_count(a: Seq<Counted>, b: Seq<Counted>, n: Counted)
    ensures
        total_count(a + b) == total_count(a) + total_count(b),
        total_count(seq![n]) == n.1,
        total_count(Seq::<Counted>::empty()) == 0,
    decreases b.len(),
{
    assert(seq![n].drop_last() =~= Seq::<Counted>::empty());
    assert(total_count(seq![n]) == total_count(Seq::<Counted>::empty()) + seq![n].last().1);
    if b.len() == 0 {
        assert(a + b =~= a);
    } else {
        law_total_count(a, b.drop_last(), n);
        assert((a + b).drop_last() =~= a + b.drop_last());
        assert((a + b).last() == b.last());
    }
}

/// Memory that the encoded points of a node take while a batch is written: twice
/// 30, 36 or 38 bytes for formats 6, 7 and 8, and the extra bytes, for each.
pub open spec fn node_memory(n: u64, fmt: u8, num_extra_bytes: u16) -> int {
    n * (2 * (num_extra_bytes + (if fmt == 6 {
        30int
    } else if fmt == 7 {
        36int
    } else {
        38int
    })))
}

/// Memory that all nodes of a batch take.
pub open spec fn batch_memory(
    data: Seq<Counted>,
    fmt: u8,
    num_extra_bytes: u16,
    batch: Seq<usize>,
) -> int
    decreases batch.len(),
{
    if batch.len() == 0 {
        0
    } else {
        batch_memory(data, fmt, num_extra_bytes, batch.drop_last()) + node_memory(
            data[batch.last() as int].1,
            fmt,
            num_extra_bytes,
        )
    }
}

proof fn lemma_batch_memory(
    data: Seq<Counted>,
    fmt: u8,
    num_extra_bytes: u16,
    batch: Seq<usize>,
)
    requires
        6 <= fmt <= 8,
        forall|k: int| 0 <= k < batch.len() ==> #[trigger] batch[k] < data.len(),
    ensures
        batch_size(node_sizes(data, fmt, num_extra_bytes), batch) == batch_memory(
            data,
            fmt,
            num_extra_bytes,
            batch,
        ),
    decreases batch.len(),
{
    let sizes = node_sizes(data, fmt, num_extra_bytes);
    if batch.len() > 0 {
        let init = batch.drop_last();
        assert forall|k: int| 0 <= k < init.len() implies #[trigger] init[k] < data.len() by {
            assert(init[k] == batch[k]);
        }
        lemma_batch_memory(data, fmt, num_extra_bytes, init);
        lemma_total_prefix(sizes, batch, init, init.len() as int);
        let k = batch[batch.len() - 1] as int;
        let n = data[k].1;
        let per = crate::writer::batch_bytes_per_point(fmt, num_extra_bytes) as int;
        assert(0 <= n * per <= 0xFFFF_FFFF_FFFF_FFFF * 200_000) by (nonlinear_arith)
            requires
                0 <= n <= 0xFFFF_FFFF_FFFF_FFFF,
                0 <= per <= 200_000,
        ;
        assert(sizes[k] == n * per);
    }
}

proof fn lemma_total_prefix(sizes: Seq<u128>, a: Seq<usize>, b: Seq<usize>, n: int)
    requires
        0 <= n <= a.len(),
        n <= b.len(),
        forall|k: int| 0 <= k < n ==> a[k] == #[trigger] b[k],
    ensures
        total_size(sizes, a, 0, n) == total_size(sizes, b, 0, n),
    decreases n,
{
    if n > 0 {
        lemma_total_prefix(sizes, a, b, n - 1);
        assert(a[n - 1] == b[n - 1]);
    }
}

/// Nodes are written batch by batch in their order, each in exactly one batch,
/// and a batch of more than one node fits the memory budget.
pub proof fn law_write_batches(
    data: Seq<Counted>,
    fmt: u8,
    num_extra_bytes: u16,
    budget: u64,
    i: int,
)
    requires
        6 <= fmt <= 8,
        data.len() <= usize::MAX,
    ensures
        ({
            let all = batches_from(
                node_sizes(data, fmt, num_extra_bytes),
                all_indices(data.len()),
                0,
                budget,
            );
            &&& joined(all) == all_indices(data.len())
            &&& 0 <= i < all.len() ==> all[i].len() > 0 && (all[i].len() == 1 || batch_memory(
                data,
                fmt,
                num_extra_bytes,
                all[i],
            ) <= budget)
        }),
{
    let sizes = node_sizes(data, fmt, num_extra_bytes);
    let order = all_indices(data.len());
    let all = batches_from(sizes, order, 0, budget);
    lemma_batches_from(sizes, order, 0, budget);
    assert(order.subrange(0, order.len() as int) =~= order);
    if 0 <= i < all.len() {
        assert(all[i].len() == 1 || all[i].len() > 1);
        assert forall|k: int| 0 <= k < all[i].len() implies #[trigger] all[i][k] < data.len() by {
            lemma_in_joined(all, i, k);
            let at = choose|at: int| 0 <= at < joined(all).len() && joined(all)[at] == all[i][k];
            assert(order[at] == all[i][k]);
        }
        lemma_batch_memory(data, fmt, num_extra_bytes, all[i]);
    }
}

proof fn lemma_in_joined(b: Seq<Seq<usize>>, i: int, k: int)
    requires
        0 <= i < b.len(),
        0 <= k < b[i].len(),
    ensures
        joined(b).contains(b[i][k]),
    decreases b.len(),
{
    let rest = joined(b.drop_first());
    if i == 0 {
        assert(joined(b)[k] == b[0][k]);
    } else {
        lemma_in_joined(b.drop_first(), i - 1, k);
        let at = choose|at: int| 0 <= at < rest.len() && rest[at] == b.drop_first()[i - 1][k];
        assert(joined(b)[b[0].len() + at] == rest[at]);
    }
}

// The number of pages.
/// The sizes of the records of all nodes: 20 bytes each, and eight for each of
/// its samples.
pub open spec fn record_sizes(es: Seq<EntryView>) -> nat
    decreases es.len(),
{
    if es.len() == 0 {
        0
    } else {
        record_sizes(es.drop_last()) + 20 + 8 * es.last().1.len()
    }
}

/// The bytes of each record.
spec fn bytes_held(es: Seq<EntryView>) -> spec_fn(usize) -> Multiset<u8> {
    |i: usize| temporal::entry_bytes(es[i as int]).to_multiset()
}

proof fn lemma_records_back(es: Seq<EntryView>, sel: Seq<usize>)
    requires
        sel.len() > 0,
    ensures
        temporal::entries_bytes(es, sel) == temporal::entries_bytes(es, sel.drop_last())
            + temporal::entry_bytes(es[sel.last() as int]),
    decreases sel.len(),
{
    let rest = sel.drop_first();
    reveal_with_fuel(temporal::entries_bytes, 2);
    if sel.len() == 1 {
        assert(rest =~= Seq::<usize>::empty());
        assert(sel.drop_last() =~= Seq::<usize>::empty());
        assert(temporal::entries_bytes(es, sel) =~= temporal::entry_bytes(es[sel[0] as int]));
    } else {
        lemma_records_back(es, rest);
        assert(rest.drop_last() =~= sel.drop_last().drop_first());
        assert(rest.last() == sel.last());
        assert(sel.drop_last()[0] == sel[0]);
        let (a, b, c) = (
            temporal::entry_bytes(es[sel[0] as int]),
            temporal::entries_bytes(es, rest.drop_last()),
            temporal::entry_bytes(es[sel.last() as int]),
        );
        assert(a + (b + c) =~= a + b + c);
    }
}

proof fn lemma_records_len(es: Seq<EntryView>, sel: Seq<usize>)
    ensures
        gathered(bytes_held(es), sel).len() == temporal::entries_bytes(es, sel).len(),
    decreases sel.len(),
{
    broadcast use vstd::seq_lib::group_to_multiset_ensures;

    if sel.len() > 0 {
        lemma_records_len(es, sel.drop_last());
        lemma_records_back(es, sel);
        vstd::seq_lib::to_multiset_len(temporal::entry_bytes(es[sel.last() as int]));
    }
}

proof fn lemma_tree_pages(es: Seq<EntryView>, sel: Seq<usize>, bounds: Seq<i32>, idx: nat)
    ensures
        temporal::tree_pages(es, sel, bounds, idx) >= 1,
        temporal::tree_len(es, sel, bounds, idx) + 48 == gathered(bytes_held(es), sel).len() + 48
            * temporal::tree_pages(es, sel, bounds, idx),
    decreases bounds.len() - idx, 0int,
{
    lemma_records_len(es, sel);
    if !temporal::is_flat(sel, bounds, idx) {
        let root = temporal::page_root(es, bounds[idx as int]);
        lemma_records_len(es, ungrouped(sel, root));
        lemma_gathered_split(bytes_held(es), sel, root);
        lemma_trees_pages(es, group_by(sel, root), bounds, idx + 1);
    }
}

proof fn lemma_trees_pages(
    es: Seq<EntryView>,
    gs: Seq<(VoxelKey, Seq<usize>)>,
    bounds: Seq<i32>,
    idx: nat,
)
    ensures
        temporal::trees_len(es, gs, bounds, idx) + 48 * gs.len() == gathered_groups(
            bytes_held(es),
            gs,
        ).len() + 48 * temporal::trees_pages(es, gs, bounds, idx),
    decreases bounds.len() - idx, gs.len() + 1,
{
    if gs.len() > 0 {
        lemma_trees_pages(es, gs.drop_last(), bounds, idx);
        lemma_tree_pages(es, gs.last().1, bounds, idx);
    }
}

proof fn lemma_record_sizes(es: Seq<EntryView>, n: nat)
    requires
        n <= es.len() <= usize::MAX,
    ensures
        temporal::entries_bytes(es, all_indices(n)).len() == record_sizes(es.take(n as int)),
    decreases n,
{
    broadcast use lemma_le_bytes_len;

    if n > 0 {
        lemma_record_sizes(es, (n - 1) as nat);
        lemma_records_back(es, all_indices(n));
        assert(all_indices(n).drop_last() =~= all_indices((n - 1) as nat));
        assert(es.take(n as int).drop_last() =~= es.take(n - 1));
        lemma_samples_bytes(es[n - 1].1);
    }
}

/// The number of pages that the header of the temporal index gives is that of the
/// pages that are there: besides the records of the nodes, the pages hold nothing
/// but one pointer of 48 bytes for each page but the first.
pub proof fn law_page_count(es: Seq<EntryView>, stride: u32, start: nat)
    requires
        es.len() <= usize::MAX,
    ensures
        index_page_count(es) >= 1,
        index_pages_len(es) == record_sizes(es) + 48 * (index_page_count(es)
            - 1),
        index_header(es, stride, start).page_count == index_page_count(
            es,
        ) as u32,
{
    let all = all_indices(es.len());
    let bounds = page_boundaries(temporal::deepest_level(es));
    lemma_tree_pages(es, all, bounds, 0);
    lemma_records_len(es, all);
    lemma_record_sizes(es, es.len());
    assert(es.take(es.len() as int) =~= es);
}

// Pointers.
/// The time range of a pointer is no wider than it has to be: its start is the
/// first sample, and its end the last sample, of an entry below it or of its own
/// root, or one of the bounds that a range starts with.
#[verifier::rlimit(40)]
pub proof fn law_pointer_range_tight(
    es: Seq<EntryView>,
    un: Seq<usize>,
    key: VoxelKey,
    members: Seq<usize>,
)
    ensures
        ({
            let r = temporal::subtree_range(es, un, key, members);
            &&& r.0 == 0x7FEF_FFFF_FFFF_FFFF || exists|i: int|
                {
                    &&& 0 <= i < members.len() + un.len()
                    &&& i >= members.len() ==> es[(members + un)[i] as int].0 == key
                    &&& es[#[trigger] (members + un)[i] as int].1.len() > 0
                    &&& es[(members + un)[i] as int].1[0] == r.0
                }
            &&& r.1 == 0xFFEF_FFFF_FFFF_FFFF || exists|i: int|
                {
                    &&& 0 <= i < members.len() + un.len()
                    &&& i >= members.len() ==> es[(members + un)[i] as int].0 == key
                    &&& es[#[trigger] (members + un)[i] as int].1.len() > 0
                    &&& es[(members + un)[i] as int].1.last() == r.1
                }
        }),
{
    let r = time_range(es, members);
    let all = members + un;
    law_time_range_tight(es, members);
    if r.0 != 0x7FEF_FFFF_FFFF_FFFF {
        let i = choose|i: int|
            {
                &&& 0 <= i < members.len()
                &&& es[#[trigger] members[i] as int].1.len() > 0
                &&& es[members[i] as int].1[0] == r.0
            };
        assert(all[i] == members[i]);
    }
    if r.1 != 0xFFEF_FFFF_FFFF_FFFF {
        let i = choose|i: int|
            {
                &&& 0 <= i < members.len()
                &&& es[#[trigger] members[i] as int].1.len() > 0
                &&& es[members[i] as int].1[es[members[i] as int].1.len() - 1] == r.1
            };
        assert(all[i] == members[i]);
    }
    match temporal::find_key(es, un, key) {
        None => {},
        Some(k) => {
            lemma_found(es, un, key);
            let m = choose|m: int| 0 <= m < un.len() && un[m] == k;
            assert(all[members.len() + m] == k);
            law_time_range_tight(es, seq![k]);
            assert(seq![k][0] == k);
        },
    }
}

proof fn lemma_found(es: Seq<EntryView>, un: Seq<usize>, key: VoxelKey)
    ensures
        temporal::find_key(es, un, key) matches Some(k) ==> es[k as int].0 == key && un.contains(k),
    decreases un.len(),
{
    if un.len() > 0 {
        let rest = un.drop_first();
        lemma_found(es, rest, key);
        if es[un[0] as int].0 == key {
            assert(un.contains(un[0]));
        } else if temporal::find_key(es, rest, key) is Some {
            let k = temporal::find_key(es, rest, key)->0;
            let m = choose|m: int| 0 <= m < rest.len() && rest[m] == k;
            assert(un[m + 1] == k);
        }
    }
}

/// An entry that points at a page has the key of the page's root and, in place of
/// a number of points, the number that no node has. The pages that the pointers
/// of one page lead to lie one behind another, each with all pages below it.
pub proof fn law_pointer_entry(
    es: Seq<HierarchyEntry>,
    gs: Seq<(VoxelKey, Seq<usize>)>,
    bounds: Seq<i32>,
    idx: nat,
    start: nat,
    g: int,
)
    requires
        0 <= g < gs.len(),
        start + crate::hierarchy::trees_len(es, gs.take(g + 1), bounds, idx) <= u64::MAX,
    ensures
        pointer_entry(es, gs, bounds, idx, start, g).point_count == -1,
        pointer_entry(es, gs, bounds, idx, start, g).key == gs[g].0,
        pointer_entry(es, gs, bounds, idx, start, 0).offset == start,
        g + 1 < gs.len() ==> pointer_entry(es, gs, bounds, idx, start, g + 1).offset
            == pointer_entry(es, gs, bounds, idx, start, g).offset + crate::hierarchy::tree_len(
            es,
            gs[g].1,
            bounds,
            idx,
        ),
{
    assert(gs.take(0) =~= Seq::<(VoxelKey, Seq<usize>)>::empty());
    assert(gs.take(g + 1).drop_last() =~= gs.take(g));
    assert(gs.take(g + 1).last() == gs[g]);
}

} // verus!
