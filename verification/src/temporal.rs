//! The temporal index: for each node samples of its points' GPS times, in
//! nested pages.
//!
//! Entries at or above a page boundary level stay in the page. Deeper entries
//! are grouped by their ancestor at that level, and each group becomes a child
//! page. The page points at a child page with a record that has the ancestor's
//! key and a sample count of zero, and that carries the time range of the
//! subtree. Pages lie one behind another, each before its child pages.

use crate::fbits::{is_nan, larger, num_max, num_min, rank, smaller, MAX_BITS, MIN_BITS};
use crate::grouping::{
    add_member, group_by, group_views, lemma_group_bounds, lemma_group_by,
    lemma_picked_front, lemma_picked_groups_front, lemma_picked_split, picked, picked_groups,
    ungrouped, Group,
};
use crate::hierarchy::{
    all_indices, choose_page_boundaries, decode_key, key_bytes, lemma_decode_key,
    page_boundaries, write_key,
};
use crate::key::{ancestor, ancestor_at_level, VoxelKey};
use crate::le::{
    le_bytes, le_value, lemma_le_bytes_len, lemma_le_value_of_bytes, lemma_part_of_part,
    lemma_pow256_values,
    push_bytes, push_u32, push_u64,
};
use vstd::multiset::Multiset;
use vstd::prelude::*;

verus! {

/// Size of the index's header.
pub const TEMPORAL_HEADER_SIZE: u64 = 32;

/// The GPS times sampled from one node, as bit patterns, in ascending order.
#[derive(Debug)]
pub struct TemporalIndexEntry {
    pub key: VoxelKey,
    pub samples: Vec<u64>,
}

/// What an entry is.
pub type EntryView = (VoxelKey, Seq<u64>);

impl View for TemporalIndexEntry {
    type V = EntryView;

    open spec fn view(&self) -> EntryView {
        (self.key, self.samples@)
    }
}

/// The views of a sequence of entries.
pub open spec fn entry_views(es: Seq<TemporalIndexEntry>) -> Seq<EntryView> {
    es.map_values(|e: TemporalIndexEntry| e@)
}

/// Samples, eight bytes each.
pub open spec fn samples_bytes(ts: Seq<u64>) -> Seq<u8>
    decreases ts.len(),
{
    if ts.len() == 0 {
        Seq::empty()
    } else {
        samples_bytes(ts.drop_last()) + le_bytes(ts.last() as nat, 8)
    }
}

/// An entry as it lies in a page: the key, the number of samples, the samples.
pub open spec fn entry_bytes(e: EntryView) -> Seq<u8> {
    key_bytes(e.0) + le_bytes((e.1.len() as u32) as nat, 4) + samples_bytes(e.1)
}

/// A record that locates a child page and gives its time range.
#[derive(Debug, Clone, Copy, PartialEq, Eq, Structural)]
pub struct TemporalPagePointer {
    pub key: VoxelKey,
    pub child_page_offset: u64,
    pub child_page_size: u32,
    pub subtree_time_min: u64,
    pub subtree_time_max: u64,
}

/// A pointer as it lies in a page: 48 bytes, with zero where an entry has its
/// number of samples.
pub open spec fn pointer_bytes(p: TemporalPagePointer) -> Seq<u8> {
    key_bytes(p.key) + le_bytes(0, 4) + le_bytes(p.child_page_offset as nat, 8) + le_bytes(
        p.child_page_size as nat,
        4,
    ) + le_bytes(p.subtree_time_min as nat, 8) + le_bytes(p.subtree_time_max as nat, 8)
}

/// The index's header.
#[derive(Debug, Clone, Copy, PartialEq, Eq, Structural)]
pub struct TemporalIndexHeader {
    pub version: u32,
    pub stride: u32,
    pub node_count: u32,
    pub page_count: u32,
    pub root_page_offset: u64,
    pub root_page_size: u32,
}

/// The header as it lies at the start of the index: 32 bytes, the last four of
/// which are reserved.
pub open spec fn header_bytes(h: TemporalIndexHeader) -> Seq<u8> {
    le_bytes(h.version as nat, 4) + le_bytes(h.stride as nat, 4) + le_bytes(h.node_count as nat, 4)
        + le_bytes(h.page_count as nat, 4) + le_bytes(h.root_page_offset as nat, 8) + le_bytes(
        h.root_page_size as nat,
        4,
    ) + le_bytes(0, 4)
}

impl TemporalIndexEntry {
    /// Appends the entry.
    pub fn write(&self, out: &mut Vec<u8>)
        ensures
            final(out)@ == old(out)@ + entry_bytes(self@),
    {
        write_key(&self.key, out);
        push_u32(out, #[verifier::truncate] (self.samples.len() as u32));
        let ghost head = out@;
        let mut i: usize = 0;
        assert(self.samples@.take(0) =~= Seq::<u64>::empty());
        assert(out@ =~= head + samples_bytes(self.samples@.take(0)));
        while i < self.samples.len()
            invariant
                i <= self.samples@.len(),
                out@ == head + samples_bytes(self.samples@.take(i as int)),
            decreases self.samples@.len() - i,
        {
            push_u64(out, self.samples[i]);
            proof {
                let more = self.samples@.take(i + 1);
                assert(more.drop_last() =~= self.samples@.take(i as int));
                assert(out@ =~= head + samples_bytes(more));
            }
            i = i + 1;
        }
        assert(self.samples@.take(i as int) =~= self.samples@);
        assert(out@ =~= old(out)@ + entry_bytes(self@));
    }
}

impl TemporalPagePointer {
    /// Appends the pointer's 48 bytes.
    pub fn write(&self, out: &mut Vec<u8>)
        ensures
            final(out)@ == old(out)@ + pointer_bytes(*self),
    {
        write_key(&self.key, out);
        push_u32(out, 0);
        push_u64(out, self.child_page_offset);
        push_u32(out, self.child_page_size);
        push_u64(out, self.subtree_time_min);
        push_u64(out, self.subtree_time_max);
        assert(out@ =~= old(out)@ + pointer_bytes(*self));
    }
}

impl TemporalIndexHeader {
    /// Appends the header's 32 bytes.
    pub fn write(&self, out: &mut Vec<u8>)
        ensures
            final(out)@ == old(out)@ + header_bytes(*self),
    {
        push_u32(out, self.version);
        push_u32(out, self.stride);
        push_u32(out, self.node_count);
        push_u32(out, self.page_count);
        push_u64(out, self.root_page_offset);
        push_u32(out, self.root_page_size);
        push_u32(out, 0);
        assert(out@ =~= old(out)@ + header_bytes(*self));
    }
}

/// The time range widened by one entry: its first sample may lower the minimum,
/// its last sample may raise the maximum.
pub open spec fn widen(range: (u64, u64), samples: Seq<u64>) -> (u64, u64) {
    if samples.len() == 0 {
        range
    } else {
        (num_min(range.0, samples.first()), num_max(range.1, samples.last()))
    }
}

/// The time range of the entries `sel`: the largest and the smallest finite
/// number where none has samples.
pub open spec fn time_range(es: Seq<EntryView>, sel: Seq<usize>) -> (u64, u64)
    decreases sel.len(),
{
    if sel.len() == 0 {
        (MAX_BITS, MIN_BITS)
    } else {
        widen(time_range(es, sel.drop_last()), es[sel.last() as int].1)
    }
}

/// Computes the time range (min, max) across the entries `sel`.
pub fn time_range_of(entries: &[TemporalIndexEntry], sel: &[usize]) -> (r: (u64, u64))
    requires
        forall|i: int| 0 <= i < sel@.len() ==> #[trigger] sel@[i] < entries@.len(),
    ensures
        r == time_range(entry_views(entries@), sel@),
{
    let ghost es = entry_views(entries@);
    let mut tmin: u64 = MAX_BITS;
    let mut tmax: u64 = MIN_BITS;
    let mut i: usize = 0;
    assert(sel@.take(0) =~= Seq::<usize>::empty());
    while i < sel.len()
        invariant
            i <= sel@.len(),
            es == entry_views(entries@),
            forall|i: int| 0 <= i < sel@.len() ==> #[trigger] sel@[i] < entries@.len(),
            (tmin, tmax) == time_range(es, sel@.take(i as int)),
        decreases sel@.len() - i,
    {
        let e = &entries[sel[i]];
        proof {
            let more = sel@.take(i + 1);
            assert(more.drop_last() =~= sel@.take(i as int));
            assert(es[sel@[i as int] as int] == e@);
        }
        let n: usize = e.samples.len();
        if n > 0 {
            tmin = smaller(tmin, e.samples[0]);
            tmax = larger(tmax, e.samples[n - 1]);
        }
        i = i + 1;
    }
    assert(sel@.take(i as int) =~= sel@);
    (tmin, tmax)
}

/// The time range of the entries contains the first and the last sample of
/// each of them, as far as they are numbers.
pub proof fn law_time_range_covers(es: Seq<EntryView>, sel: Seq<usize>, i: int)
    requires
        0 <= i < sel.len(),
        es[sel[i] as int].1.len() > 0,
        !is_nan(es[sel[i] as int].1.first()),
        !is_nan(es[sel[i] as int].1.last()),
    ensures
        rank(time_range(es, sel).0) <= rank(es[sel[i] as int].1.first()),
        rank(time_range(es, sel).1) >= rank(es[sel[i] as int].1.last()),
    decreases sel.len(),
{
    lemma_time_range_numbers(es, sel.drop_last());
    if i < sel.len() - 1 {
        law_time_range_covers(es, sel.drop_last(), i);
    }
}

proof fn lemma_time_range_numbers(es: Seq<EntryView>, sel: Seq<usize>)
    ensures
        !is_nan(time_range(es, sel).0),
        !is_nan(time_range(es, sel).1),
    decreases sel.len(),
{
    if sel.len() > 0 {
        lemma_time_range_numbers(es, sel.drop_last());
    }
}

/// Which child page an entry goes to: none at or above the boundary, else that
/// of its ancestor at the boundary.
pub open spec fn page_root(es: Seq<EntryView>, boundary: i32) -> spec_fn(usize) -> Option<
    VoxelKey,
> {
    |i: usize|
        if es[i as int].0.level <= boundary {
            None
        } else {
            Some(ancestor(es[i as int].0, boundary as int))
        }
}

/// Whether the entries `sel` are written into one page without child pages.
pub open spec fn is_flat(sel: Seq<usize>, bounds: Seq<i32>, idx: nat) -> bool {
    idx >= bounds.len() || sel.len() == 0
}

/// The bytes of the entries `sel`, in order.
pub open spec fn entries_bytes(es: Seq<EntryView>, sel: Seq<usize>) -> Seq<u8>
    decreases sel.len(),
{
    if sel.len() == 0 {
        Seq::empty()
    } else {
        entry_bytes(es[sel[0] as int]) + entries_bytes(es, sel.drop_first())
    }
}

/// Size of the page of `sel` itself.
pub open spec fn page_len(
    es: Seq<EntryView>,
    sel: Seq<usize>,
    bounds: Seq<i32>,
    idx: nat,
) -> nat {
    if is_flat(sel, bounds, idx) {
        entries_bytes(es, sel).len()
    } else {
        let root = page_root(es, bounds[idx as int]);
        entries_bytes(es, ungrouped(sel, root)).len() + 48 * group_by(sel, root).len()
    }
}

/// Size of the page of `sel` and of all pages below it.
pub open spec fn tree_len(
    es: Seq<EntryView>,
    sel: Seq<usize>,
    bounds: Seq<i32>,
    idx: nat,
) -> nat
    decreases bounds.len() - idx, 0int,
{
    if is_flat(sel, bounds, idx) {
        page_len(es, sel, bounds, idx)
    } else {
        page_len(es, sel, bounds, idx) + trees_len(
            es,
            group_by(sel, page_root(es, bounds[idx as int])),
            bounds,
            idx + 1,
        )
    }
}

/// Size of the pages of several groups.
pub open spec fn trees_len(
    es: Seq<EntryView>,
    gs: Seq<(VoxelKey, Seq<usize>)>,
    bounds: Seq<i32>,
    idx: nat,
) -> nat
    decreases bounds.len() - idx, gs.len() + 1,
{
    if gs.len() == 0 {
        0
    } else {
        trees_len(es, gs.drop_last(), bounds, idx) + tree_len(es, gs.last().1, bounds, idx)
    }
}

/// Number of pages: that of `sel` and all below it.
pub open spec fn tree_pages(
    es: Seq<EntryView>,
    sel: Seq<usize>,
    bounds: Seq<i32>,
    idx: nat,
) -> nat
    decreases bounds.len() - idx, 0int,
{
    if is_flat(sel, bounds, idx) {
        1
    } else {
        1 + trees_pages(es, group_by(sel, page_root(es, bounds[idx as int])), bounds, idx + 1)
    }
}

/// Number of pages of several groups.
pub open spec fn trees_pages(
    es: Seq<EntryView>,
    gs: Seq<(VoxelKey, Seq<usize>)>,
    bounds: Seq<i32>,
    idx: nat,
) -> nat
    decreases bounds.len() - idx, gs.len() + 1,
{
    if gs.len() == 0 {
        0
    } else {
        trees_pages(es, gs.drop_last(), bounds, idx) + tree_pages(es, gs.last().1, bounds, idx)
    }
}

/// The first of the entries `sel` with the given key.
pub open spec fn find_key(es: Seq<EntryView>, sel: Seq<usize>, key: VoxelKey) -> Option<usize>
    decreases sel.len(),
{
    if sel.len() == 0 {
        None
    } else if es[sel[0] as int].0 == key {
        Some(sel[0])
    } else {
        find_key(es, sel.drop_first(), key)
    }
}

/// The time range of a subtree: of the entries `members` of its child page and
/// of its root, which is among the entries `un` of the page above if it is
/// there at all.
pub open spec fn subtree_range(
    es: Seq<EntryView>,
    un: Seq<usize>,
    key: VoxelKey,
    members: Seq<usize>,
) -> (u64, u64) {
    let r = time_range(es, members);
    match find_key(es, un, key) {
        None => r,
        Some(i) => {
            let own = time_range(es, seq![i]);
            (num_min(r.0, own.0), num_max(r.1, own.1))
        },
    }
}

/// The record that points at the page of group `g`, where the pages of the
/// groups start at `start`.
pub open spec fn page_pointer(
    es: Seq<EntryView>,
    un: Seq<usize>,
    gs: Seq<(VoxelKey, Seq<usize>)>,
    bounds: Seq<i32>,
    idx: nat,
    start: nat,
    g: int,
) -> TemporalPagePointer {
    let range = subtree_range(es, un, gs[g].0, gs[g].1);
    TemporalPagePointer {
        key: gs[g].0,
        child_page_offset: (start + trees_len(es, gs.take(g), bounds, idx)) as u64,
        child_page_size: page_len(es, gs[g].1, bounds, idx) as u32,
        subtree_time_min: range.0,
        subtree_time_max: range.1,
    }
}

/// The time range of a page pointer contains the first and the last sample of
/// every entry below it, as far as they are numbers.
pub proof fn law_pointer_covers_entries(
    es: Seq<EntryView>,
    un: Seq<usize>,
    gs: Seq<(VoxelKey, Seq<usize>)>,
    bounds: Seq<i32>,
    idx: nat,
    start: nat,
    g: int,
    m: int,
)
    requires
        0 <= g < gs.len(),
        0 <= m < gs[g].1.len(),
        es[gs[g].1[m] as int].1.len() > 0,
        !is_nan(es[gs[g].1[m] as int].1.first()),
        !is_nan(es[gs[g].1[m] as int].1.last()),
    ensures
        ({
            let p = page_pointer(es, un, gs, bounds, idx, start, g);
            let samples = es[gs[g].1[m] as int].1;
            &&& rank(p.subtree_time_min) <= rank(samples.first())
            &&& rank(p.subtree_time_max) >= rank(samples.last())
        }),
{
    law_time_range_covers(es, gs[g].1, m);
    lemma_time_range_numbers(es, gs[g].1);
    match find_key(es, un, gs[g].0) {
        Some(i) => {
            lemma_time_range_numbers(es, seq![i]);
        },
        None => {},
    }
}

/// It also contains those of the subtree's root, whose entry is in the page
/// above.
pub proof fn law_pointer_covers_root(
    es: Seq<EntryView>,
    un: Seq<usize>,
    gs: Seq<(VoxelKey, Seq<usize>)>,
    bounds: Seq<i32>,
    idx: nat,
    start: nat,
    g: int,
    i: usize,
)
    requires
        0 <= g < gs.len(),
        find_key(es, un, gs[g].0) == Some(i),
        es[i as int].1.len() > 0,
        !is_nan(es[i as int].1.first()),
        !is_nan(es[i as int].1.last()),
    ensures
        ({
            let p = page_pointer(es, un, gs, bounds, idx, start, g);
            &&& rank(p.subtree_time_min) <= rank(es[i as int].1.first())
            &&& rank(p.subtree_time_max) >= rank(es[i as int].1.last())
        }),
{
    law_time_range_covers(es, seq![i], 0);
    lemma_time_range_numbers(es, gs[g].1);
    lemma_time_range_numbers(es, seq![i]);
}

/// The pointers to the groups from `g` on.
pub open spec fn pointers_from(
    es: Seq<EntryView>,
    un: Seq<usize>,
    gs: Seq<(VoxelKey, Seq<usize>)>,
    bounds: Seq<i32>,
    idx: nat,
    start: nat,
    g: nat,
) -> Seq<u8>
    decreases gs.len() - g,
{
    if g >= gs.len() {
        Seq::empty()
    } else {
        pointer_bytes(page_pointer(es, un, gs, bounds, idx, start, g as int)) + pointers_from(
            es,
            un,
            gs,
            bounds,
            idx,
            start,
            g + 1,
        )
    }
}

/// The page of `sel` and all pages below it, where the page lies at the file
/// offset `start`.
pub open spec fn tree_bytes(
    es: Seq<EntryView>,
    sel: Seq<usize>,
    bounds: Seq<i32>,
    idx: nat,
    start: nat,
) -> Seq<u8>
    decreases bounds.len() - idx, 0int,
{
    if is_flat(sel, bounds, idx) {
        entries_bytes(es, sel)
    } else {
        let root = page_root(es, bounds[idx as int]);
        let un = ungrouped(sel, root);
        let gs = group_by(sel, root);
        let below = start + page_len(es, sel, bounds, idx);
        entries_bytes(es, un) + pointers_from(es, un, gs, bounds, idx + 1, below, 0) + trees_bytes(
            es,
            gs,
            bounds,
            idx + 1,
            below,
        )
    }
}

/// The pages of several groups, the first of which lies at `start`.
pub open spec fn trees_bytes(
    es: Seq<EntryView>,
    gs: Seq<(VoxelKey, Seq<usize>)>,
    bounds: Seq<i32>,
    idx: nat,
    start: nat,
) -> Seq<u8>
    decreases bounds.len() - idx, gs.len() + 1,
{
    if gs.len() == 0 {
        Seq::empty()
    } else {
        trees_bytes(es, gs.drop_last(), bounds, idx, start) + tree_bytes(
            es,
            gs.last().1,
            bounds,
            idx,
            start + trees_len(es, gs.drop_last(), bounds, idx),
        )
    }
}

/// The deepest level among the entries.
pub open spec fn deepest_level(es: Seq<EntryView>) -> i32
    decreases es.len(),
{
    if es.len() == 0 {
        0
    } else if es.len() == 1 {
        es[0].0.level
    } else {
        let rest = deepest_level(es.drop_last());
        if es.last().0.level > rest {
            es.last().0.level
        } else {
            rest
        }
    }
}

/// The pages of the index, where the first one lies at the file offset `start`.
pub open spec fn index_pages(es: Seq<EntryView>, start: nat) -> Seq<u8> {
    tree_bytes(es, all_indices(es.len()), page_boundaries(deepest_level(es)), 0, start)
}

/// Size of all pages.
pub open spec fn index_pages_len(es: Seq<EntryView>) -> nat {
    tree_len(es, all_indices(es.len()), page_boundaries(deepest_level(es)), 0)
}

/// Number of pages.
pub open spec fn index_page_count(es: Seq<EntryView>) -> nat {
    tree_pages(es, all_indices(es.len()), page_boundaries(deepest_level(es)), 0)
}

/// Size of the root page.
pub open spec fn root_page_len(es: Seq<EntryView>) -> nat {
    page_len(es, all_indices(es.len()), page_boundaries(deepest_level(es)), 0)
}

/// The header of an index at the file offset `start`.
pub open spec fn index_header(es: Seq<EntryView>, stride: u32, start: nat) -> TemporalIndexHeader {
    TemporalIndexHeader {
        version: 1,
        stride,
        node_count: es.len() as u32,
        page_count: index_page_count(es) as u32,
        root_page_offset: (start + TEMPORAL_HEADER_SIZE) as u64,
        root_page_size: root_page_len(es) as u32,
    }
}

/// The whole index, where it starts at the file offset `start`.
pub open spec fn temporal_bytes(es: Seq<EntryView>, stride: u32, start: nat) -> Seq<u8> {
    header_bytes(index_header(es, stride, start)) + index_pages(es, start + TEMPORAL_HEADER_SIZE as nat)
}

proof fn lemma_pointer_bytes_len(p: TemporalPagePointer)
    ensures
        pointer_bytes(p).len() == 48,
{
    broadcast use lemma_le_bytes_len;

    lemma_decode_key(p.key);
}

proof fn lemma_pointers_from_len(
    es: Seq<EntryView>,
    un: Seq<usize>,
    gs: Seq<(VoxelKey, Seq<usize>)>,
    bounds: Seq<i32>,
    idx: nat,
    start: nat,
    g: nat,
)
    requires
        g <= gs.len(),
    ensures
        pointers_from(es, un, gs, bounds, idx, start, g).len() == 48 * (gs.len() - g),
    decreases gs.len() - g,
{
    if g < gs.len() {
        lemma_pointers_from_len(es, un, gs, bounds, idx, start, g + 1);
        lemma_pointer_bytes_len(page_pointer(es, un, gs, bounds, idx, start, g as int));
    }
}

/// The bytes of a page and the pages below it are as many as their size says.
pub proof fn lemma_tree_bytes_len(
    es: Seq<EntryView>,
    sel: Seq<usize>,
    bounds: Seq<i32>,
    idx: nat,
    start: nat,
)
    ensures
        tree_bytes(es, sel, bounds, idx, start).len() == tree_len(es, sel, bounds, idx),
    decreases bounds.len() - idx, 0int,
{
    if !is_flat(sel, bounds, idx) {
        let root = page_root(es, bounds[idx as int]);
        let un = ungrouped(sel, root);
        let gs = group_by(sel, root);
        let below = start + page_len(es, sel, bounds, idx);
        lemma_pointers_from_len(es, un, gs, bounds, idx + 1, below, 0);
        lemma_trees_bytes_len(es, gs, bounds, idx + 1, below);
    }
}

/// The size of the index.
pub proof fn lemma_temporal_len(es: Seq<EntryView>, stride: u32, start: nat)
    ensures
        temporal_bytes(es, stride, start).len() == TEMPORAL_HEADER_SIZE + index_pages_len(es),
{
    broadcast use lemma_le_bytes_len;

    lemma_tree_bytes_len(
        es,
        all_indices(es.len()),
        page_boundaries(deepest_level(es)),
        0,
        start + TEMPORAL_HEADER_SIZE as nat,
    );
}

proof fn lemma_trees_bytes_len(
    es: Seq<EntryView>,
    gs: Seq<(VoxelKey, Seq<usize>)>,
    bounds: Seq<i32>,
    idx: nat,
    start: nat,
)
    ensures
        trees_bytes(es, gs, bounds, idx, start).len() == trees_len(es, gs, bounds, idx),
    decreases bounds.len() - idx, gs.len() + 1,
{
    if gs.len() > 0 {
        lemma_trees_bytes_len(es, gs.drop_last(), bounds, idx, start);
        lemma_tree_bytes_len(
            es,
            gs.last().1,
            bounds,
            idx,
            start + trees_len(es, gs.drop_last(), bounds, idx),
        );
    }
}

/// Fewer groups take no more room and no more pages.
proof fn lemma_trees_len_prefix(
    es: Seq<EntryView>,
    gs: Seq<(VoxelKey, Seq<usize>)>,
    bounds: Seq<i32>,
    idx: nat,
    n: int,
)
    requires
        0 <= n < gs.len(),
    ensures
        trees_len(es, gs.take(n), bounds, idx) + tree_len(es, gs[n].1, bounds, idx) == trees_len(
            es,
            gs.take(n + 1),
            bounds,
            idx,
        ),
        trees_len(es, gs.take(n + 1), bounds, idx) <= trees_len(es, gs, bounds, idx),
        trees_pages(es, gs.take(n), bounds, idx) + tree_pages(es, gs[n].1, bounds, idx)
            == trees_pages(es, gs.take(n + 1), bounds, idx),
    decreases gs.len() - n,
{
    let more = gs.take(n + 1);
    assert(more.drop_last() =~= gs.take(n));
    assert(more.last() == gs[n]);
    if n + 1 < gs.len() {
        lemma_trees_len_prefix(es, gs, bounds, idx, n + 1);
    } else {
        assert(more =~= gs);
    }
}

/// Every page but the first has a pointer in the page above it.
proof fn lemma_tree_pages_bound(
    es: Seq<EntryView>,
    sel: Seq<usize>,
    bounds: Seq<i32>,
    idx: nat,
)
    ensures
        48 * (tree_pages(es, sel, bounds, idx) - 1) <= tree_len(es, sel, bounds, idx),
    decreases bounds.len() - idx, 0int,
{
    if !is_flat(sel, bounds, idx) {
        lemma_trees_pages_bound(
            es,
            group_by(sel, page_root(es, bounds[idx as int])),
            bounds,
            (idx + 1) as nat,
        );
    }
}

proof fn lemma_trees_pages_bound(
    es: Seq<EntryView>,
    gs: Seq<(VoxelKey, Seq<usize>)>,
    bounds: Seq<i32>,
    idx: nat,
)
    ensures
        48 * (trees_pages(es, gs, bounds, idx) - gs.len()) <= trees_len(es, gs, bounds, idx),
    decreases bounds.len() - idx, gs.len() + 1,
{
    if gs.len() > 0 {
        lemma_trees_pages_bound(es, gs.drop_last(), bounds, idx);
        lemma_tree_pages_bound(es, gs.last().1, bounds, idx);
    }
}

/// Finds the first of the entries `sel` with the given key.
fn find_entry(entries: &[TemporalIndexEntry], sel: &[usize], key: VoxelKey) -> (r: Option<usize>)
    requires
        forall|i: int| 0 <= i < sel@.len() ==> #[trigger] sel@[i] < entries@.len(),
    ensures
        r == find_key(entry_views(entries@), sel@, key),
        r matches Some(i) ==> i < entries@.len(),
{
    let ghost es = entry_views(entries@);
    let mut i: usize = 0;
    assert(sel@.skip(0) =~= sel@);
    while i < sel.len()
        invariant
            i <= sel@.len(),
            es == entry_views(entries@),
            forall|i: int| 0 <= i < sel@.len() ==> #[trigger] sel@[i] < entries@.len(),
            find_key(es, sel@, key) == find_key(es, sel@.skip(i as int), key),
        decreases sel@.len() - i,
    {
        let e: usize = sel[i];
        assert(es[e as int] == entries@[e as int]@);
        assert(sel@.skip(i as int).drop_first() =~= sel@.skip(i + 1));
        if entries[e].key == key {
            return Some(e);
        }
        i = i + 1;
    }
    None
}

/// Appends the entries `sel`.
fn write_entries(entries: &[TemporalIndexEntry], sel: &[usize], out: &mut Vec<u8>)
    requires
        forall|i: int| 0 <= i < sel@.len() ==> #[trigger] sel@[i] < entries@.len(),
    ensures
        final(out)@ == old(out)@ + entries_bytes(entry_views(entries@), sel@),
{
    let ghost es = entry_views(entries@);
    let ghost all = old(out)@ + entries_bytes(es, sel@);
    let mut i: usize = 0;
    assert(sel@.skip(0) =~= sel@);
    while i < sel.len()
        invariant
            i <= sel@.len(),
            es == entry_views(entries@),
            forall|i: int| 0 <= i < sel@.len() ==> #[trigger] sel@[i] < entries@.len(),
            out@ + entries_bytes(es, sel@.skip(i as int)) == all,
        decreases sel@.len() - i,
    {
        let ghost before = out@;
        let e: usize = sel[i];
        entries[e].write(out);
        proof {
            assert(es[e as int] == entries@[e as int]@);
            assert(sel@.skip(i as int).drop_first() =~= sel@.skip(i + 1));
            assert(out@ + entries_bytes(es, sel@.skip(i + 1)) =~= before + entries_bytes(
                es,
                sel@.skip(i as int),
            ));
        }
        i = i + 1;
    }
    assert(out@ + Seq::<u8>::empty() =~= out@);
}

/// What building a page and the pages below it yields.
pub struct BuiltPage {
    /// The page, then the pages below it.
    pub data: Vec<u8>,
    /// Size of the page itself.
    pub page_size: usize,
    /// Number of pages in `data`.
    pub pages: u64,
}

/// The time range of a child page's subtree.
fn range_of_subtree(
    entries: &[TemporalIndexEntry],
    this_page: &[usize],
    key: VoxelKey,
    members: &[usize],
) -> (r: (u64, u64))
    requires
        forall|i: int| 0 <= i < this_page@.len() ==> #[trigger] this_page@[i] < entries@.len(),
        forall|i: int| 0 <= i < members@.len() ==> #[trigger] members@[i] < entries@.len(),
    ensures
        r == subtree_range(entry_views(entries@), this_page@, key, members@),
{
    let (tmin, tmax) = time_range_of(entries, members);
    match find_entry(entries, this_page, key) {
        None => (tmin, tmax),
        Some(i) => {
            let mut own: Vec<usize> = Vec::new();
            own.push(i);
            assert(own@ =~= seq![i]);
            let (rmin, rmax) = time_range_of(entries, own.as_slice());
            (smaller(tmin, rmin), larger(tmax, rmax))
        },
    }
}

/// Builds the page of the entries `sel` and all pages below it; `start` is the
/// file offset of the page.
pub fn build_page_recursive(
    entries: &[TemporalIndexEntry],
    sel: &[usize],
    boundaries: &[i32],
    boundary_idx: usize,
    start: u64,
) -> (r: BuiltPage)
    requires
        forall|i: int| 0 <= i < sel@.len() ==> #[trigger] sel@[i] < entries@.len(),
        forall|i: int| 0 <= i < boundaries@.len() ==> #[trigger] boundaries@[i] >= 0,
        start + tree_len(entry_views(entries@), sel@, boundaries@, boundary_idx as nat)
            <= u64::MAX,
    ensures
        r.data@ == tree_bytes(
            entry_views(entries@),
            sel@,
            boundaries@,
            boundary_idx as nat,
            start as nat,
        ),
        r.page_size == page_len(entry_views(entries@), sel@, boundaries@, boundary_idx as nat),
        r.pages == tree_pages(
            entry_views(entries@),
            sel@,
            boundaries@,
            boundary_idx as nat,
        ),
    decreases boundaries@.len() - boundary_idx,
{
    let ghost es = entry_views(entries@);
    let ghost idx = boundary_idx as nat;
    let mut data: Vec<u8> = Vec::new();
    if boundary_idx >= boundaries.len() || sel.len() == 0 {
        write_entries(entries, sel, &mut data);
        assert(data@ =~= entries_bytes(es, sel@));
        let page_size: usize = data.len();
        return BuiltPage { data, page_size, pages: 1 };
    }
    let boundary_level: i32 = boundaries[boundary_idx];
    assert(boundaries.len() <= usize::MAX);
    let ghost root = page_root(es, boundary_level);
    let mut this_page: Vec<usize> = Vec::new();
    let mut groups: Vec<Group> = Vec::new();
    let mut i: usize = 0;
    assert(sel@.take(0) =~= Seq::<usize>::empty());
    assert(group_views(groups@) =~= Seq::<(VoxelKey, Seq<usize>)>::empty());
    while i < sel.len()
        invariant
            i <= sel@.len(),
            es == entry_views(entries@),
            boundary_level >= 0,
            root == page_root(es, boundary_level),
            forall|i: int| 0 <= i < sel@.len() ==> #[trigger] sel@[i] < entries@.len(),
            this_page@ == ungrouped(sel@.take(i as int), root),
            group_views(groups@) == group_by(sel@.take(i as int), root),
        decreases sel@.len() - i,
    {
        let e: usize = sel[i];
        proof {
            assert(sel@.take(i + 1).drop_last() =~= sel@.take(i as int));
            assert(sel@.take(i + 1).last() == e);
            assert(es[e as int] == entries@[e as int]@);
        }
        let key = entries[e].key;
        if key.level <= boundary_level {
            this_page.push(e);
        } else {
            let subtree_root = ancestor_at_level(key, boundary_level);
            add_member(&mut groups, subtree_root, e);
        }
        i = i + 1;
    }
    assert(sel@.take(i as int) =~= sel@);
    let ghost gs = group_by(sel@, root);
    let ghost un = ungrouped(sel@, root);
    proof {
        lemma_group_bounds(sel@, root, es.len());
        lemma_group_by(sel@, root);
    }
    write_entries(entries, this_page.as_slice(), &mut data);
    assert(data@ =~= entries_bytes(es, this_page@));
    assert(data.len() <= usize::MAX);
    let n_groups: usize = groups.len();
    assert(gs.len() == n_groups);
    let page_size: u64 = data.len() as u64 + 48 * n_groups as u64;
    let ghost below: nat = (start + page_size) as nat;
    let ghost nx: nat = (idx + 1) as nat;
    let ghost own = data@;
    let mut children: Vec<u8> = Vec::new();
    let mut pages: u64 = 1;
    let mut g: usize = 0;
    proof {
        assert(gs.take(0) =~= Seq::<(VoxelKey, Seq<usize>)>::empty());
        assert(children@ =~= trees_bytes(es, gs.take(0), boundaries@, nx, below));
    }
    while g < groups.len()
        invariant
            es == entry_views(entries@),
            es.len() == entries@.len(),
            idx == boundary_idx as nat,
            nx == idx + 1,
            boundary_idx < boundaries@.len() <= usize::MAX,
            g <= groups@.len(),
            gs == group_views(groups@),
            un == this_page@,
            below == start + page_size,
            page_size >= 48 * gs.len(),
            forall|i: int| 0 <= i < boundaries@.len() ==> #[trigger] boundaries@[i] >= 0,
            forall|i: int| 0 <= i < un.len() ==> #[trigger] un[i] < es.len(),
            forall|g: int, m: int|
                0 <= g < gs.len() && 0 <= m < gs[g].1.len() ==> #[trigger] gs[g].1[m] < es.len(),
            below + trees_len(es, gs, boundaries@, nx) <= u64::MAX,
            data@ + pointers_from(es, un, gs, boundaries@, nx, below, g as nat) == own
                + pointers_from(es, un, gs, boundaries@, nx, below, 0),
            children@ == trees_bytes(es, gs.take(g as int), boundaries@, nx, below),
            children@.len() == trees_len(es, gs.take(g as int), boundaries@, nx),
            pages == 1 + trees_pages(es, gs.take(g as int), boundaries@, nx),
        decreases groups@.len() - g,
    {
        proof {
            lemma_trees_len_prefix(es, gs, boundaries@, nx, g as int);
            assert(gs[g as int].1 == groups@[g as int].members@);
            assert forall|i: int| 0 <= i < groups@[g as int].members@.len() implies #[trigger]
            groups@[g as int].members@[i] < entries@.len() by {
                assert(gs[g as int].1[i] < es.len());
            }
        }
        proof {
            lemma_trees_pages_bound(es, gs.take(g + 1), boundaries@, nx);
        }
        let ghost before = data@;
        let child_start: u64 = start + page_size + children.len() as u64;
        let (tmin, tmax) = range_of_subtree(
            entries,
            this_page.as_slice(),
            groups[g].key,
            groups[g].members.as_slice(),
        );
        let child = build_page_recursive(
            entries,
            groups[g].members.as_slice(),
            boundaries,
            boundary_idx + 1,
            child_start,
        );
        let pointer = TemporalPagePointer {
            key: groups[g].key,
            child_page_offset: child_start,
            child_page_size: #[verifier::truncate]
            (child.page_size as u32),
            subtree_time_min: tmin,
            subtree_time_max: tmax,
        };
        pointer.write(&mut data);
        push_bytes(&mut children, child.data.as_slice());
        pages = pages + child.pages;
        proof {
            assert(pointer == page_pointer(es, un, gs, boundaries@, nx, below, g as int));
            lemma_tree_bytes_len(es, gs[g as int].1, boundaries@, nx, child_start as nat);
            assert(gs.take(g + 1).drop_last() =~= gs.take(g as int));
            assert(gs.take(g + 1).last() == gs[g as int]);
            assert(children@ =~= trees_bytes(es, gs.take(g + 1), boundaries@, nx, below));
            assert(data@ + pointers_from(es, un, gs, boundaries@, nx, below, (g + 1) as nat)
                =~= before + pointers_from(es, un, gs, boundaries@, nx, below, g as nat));
        }
        g = g + 1;
    }
    proof {
        lemma_pointers_from_len(es, un, gs, boundaries@, nx, below, 0);
        assert(gs.take(g as int) =~= gs);
        assert(data@ + Seq::<u8>::empty() =~= data@);
    }
    let own_size: usize = data.len();
    push_bytes(&mut data, children.as_slice());
    BuiltPage { data, page_size: own_size, pages }
}

/// Builds the temporal index with nested pages, to be put at the file offset
/// `evlr_data_start`.
pub fn build_temporal_payload(
    entries: &[TemporalIndexEntry],
    stride: u32,
    evlr_data_start: u64,
) -> (payload: Vec<u8>)
    requires
        evlr_data_start + TEMPORAL_HEADER_SIZE + index_pages_len(entry_views(entries@))
            <= u64::MAX,
    ensures
        payload@ == temporal_bytes(entry_views(entries@), stride, evlr_data_start as nat),
{
    let ghost es = entry_views(entries@);
    let start: u64 = evlr_data_start + TEMPORAL_HEADER_SIZE;
    let mut max_level: i32 = 0;
    let mut sel: Vec<usize> = Vec::new();
    let mut i: usize = 0;
    assert(es.take(0) =~= Seq::<EntryView>::empty());
    while i < entries.len()
        invariant
            i <= entries@.len(),
            es == entry_views(entries@),
            sel@ =~= all_indices(i as nat),
            max_level == deepest_level(es.take(i as int)),
        decreases entries@.len() - i,
    {
        assert(es.take(i + 1).drop_last() =~= es.take(i as int));
        assert(es[i as int] == entries@[i as int]@);
        if i == 0 || entries[i].key.level > max_level {
            max_level = entries[i].key.level;
        }
        sel.push(i);
        i = i + 1;
    }
    assert(es.take(i as int) =~= es);
    let boundaries = choose_page_boundaries(max_level);
    let built = build_page_recursive(entries, sel.as_slice(), boundaries.as_slice(), 0, start);
    let mut payload: Vec<u8> = Vec::new();
    let header = TemporalIndexHeader {
        version: 1,
        stride,
        node_count: #[verifier::truncate]
        (entries.len() as u32),
        page_count: #[verifier::truncate]
        (built.pages as u32),
        root_page_offset: start,
        root_page_size: #[verifier::truncate]
        (built.page_size as u32),
    };
    header.write(&mut payload);
    push_bytes(&mut payload, built.data.as_slice());
    assert(payload@ =~= temporal_bytes(es, stride, evlr_data_start as nat));
    payload
}

// What a reader makes of the pages.
/// The samples that start at byte 20 of an entry.
pub open spec fn decode_samples(s: Seq<u8>, count: nat) -> Seq<u64> {
    Seq::new(count, |i: int| le_value(s.subrange(20 + 8 * i, 28 + 8 * i)) as u64)
}

/// All entries that a reader finds when it reads the page of `size` bytes at
/// the file offset `offset` and follows each pointer in it, through at most
/// `depth` levels of pages. `payload` lies at the file offset `base`.
pub open spec fn follow(
    payload: Seq<u8>,
    base: int,
    offset: int,
    size: int,
    depth: nat,
) -> Multiset<EntryView>
    decreases depth, 0nat,
{
    if depth == 0 {
        Multiset::empty()
    } else {
        follow_page(
            payload,
            base,
            payload.subrange(offset - base, offset - base + size),
            (depth - 1) as nat,
        )
    }
}

/// All entries that a reader finds from the records `s`.
pub open spec fn follow_page(payload: Seq<u8>, base: int, s: Seq<u8>, depth: nat) -> Multiset<
    EntryView,
>
    decreases depth, s.len() + 1,
{
    let count = le_value(s.subrange(16, 20));
    if s.len() < 20 {
        Multiset::empty()
    } else if count == 0 {
        if s.len() < 48 {
            Multiset::empty()
        } else {
            follow(
                payload,
                base,
                le_value(s.subrange(20, 28)) as int,
                le_value(s.subrange(28, 32)) as int,
                depth,
            ).add(follow_page(payload, base, s.skip(48), depth))
        }
    } else if s.len() < 20 + 8 * count {
        Multiset::empty()
    } else {
        follow_page(payload, base, s.skip((20 + 8 * count) as int), depth).insert(
            (decode_key(s.subrange(0, 16)), decode_samples(s, count)),
        )
    }
}

pub proof fn lemma_samples_bytes(ts: Seq<u64>)
    ensures
        samples_bytes(ts).len() == 8 * ts.len(),
        forall|i: int|
            0 <= i < ts.len() ==> le_value(
                #[trigger] samples_bytes(ts).subrange(8 * i, 8 * i + 8),
            ) == ts[i],
    decreases ts.len(),
{
    broadcast use lemma_le_bytes_len;

    if ts.len() > 0 {
        let init = ts.drop_last();
        lemma_samples_bytes(init);
        lemma_pow256_values();
        let s = samples_bytes(ts);
        let t = samples_bytes(init);
        assert forall|i: int| 0 <= i < ts.len() implies le_value(
            #[trigger] s.subrange(8 * i, 8 * i + 8),
        ) == ts[i] by {
            if i < init.len() {
                assert(s.subrange(8 * i, 8 * i + 8) =~= t.subrange(8 * i, 8 * i + 8));
            } else {
                assert(s.subrange(8 * i, 8 * i + 8) =~= le_bytes(ts.last() as nat, 8));
                lemma_le_value_of_bytes(ts.last() as nat, 8);
            }
        }
    }
}

/// A reader takes the entry at the front of the records.
proof fn lemma_follow_entry(
    payload: Seq<u8>,
    base: int,
    e: EntryView,
    rest: Seq<u8>,
    depth: nat,
)
    requires
        0 < e.1.len() <= u32::MAX,
    ensures
        follow_page(payload, base, entry_bytes(e) + rest, depth) == follow_page(
            payload,
            base,
            rest,
            depth,
        ).insert(e),
{
    broadcast use lemma_le_bytes_len;

    lemma_pow256_values();
    lemma_decode_key(e.0);
    lemma_samples_bytes(e.1);
    let n = e.1.len();
    let s = entry_bytes(e) + rest;
    lemma_le_value_of_bytes(n, 4);
    assert(s.subrange(16, 20) =~= le_bytes(n, 4));
    assert(s.subrange(0, 16) =~= key_bytes(e.0));
    assert(s.skip((20 + 8 * n) as int) =~= rest);
    assert forall|i: int| 0 <= i < n implies #[trigger] decode_samples(s, n)[i] == e.1[i] by {
        assert(s.subrange(20 + 8 * i, 28 + 8 * i) =~= samples_bytes(e.1).subrange(
            8 * i,
            8 * i + 8,
        ));
    }
    assert(decode_samples(s, n) =~= e.1);
}

/// A reader follows the pointer at the front of the records.
proof fn lemma_follow_pointer(
    payload: Seq<u8>,
    base: int,
    p: TemporalPagePointer,
    rest: Seq<u8>,
    depth: nat,
)
    ensures
        follow_page(payload, base, pointer_bytes(p) + rest, depth) == follow(
            payload,
            base,
            p.child_page_offset as int,
            p.child_page_size as int,
            depth,
        ).add(follow_page(payload, base, rest, depth)),
{
    broadcast use lemma_le_bytes_len;

    lemma_pow256_values();
    lemma_decode_key(p.key);
    let s = pointer_bytes(p) + rest;
    lemma_le_value_of_bytes(0, 4);
    lemma_le_value_of_bytes(p.child_page_offset as nat, 8);
    lemma_le_value_of_bytes(p.child_page_size as nat, 4);
    assert(s.subrange(16, 20) =~= le_bytes(0, 4));
    assert(s.subrange(20, 28) =~= le_bytes(p.child_page_offset as nat, 8));
    assert(s.subrange(28, 32) =~= le_bytes(p.child_page_size as nat, 4));
    assert(s.skip(48) =~= rest);
}

/// The value that an index stands for.
pub open spec fn entry_of(es: Seq<EntryView>) -> spec_fn(usize) -> EntryView {
    |i: usize| es[i as int]
}

/// Each entry has samples, as many as its count can say.
pub open spec fn sampled(es: Seq<EntryView>) -> bool {
    forall|i: int| 0 <= i < es.len() ==> 0 < (#[trigger] es[i]).1.len() <= u32::MAX
}

proof fn lemma_follow_entries(
    payload: Seq<u8>,
    base: int,
    es: Seq<EntryView>,
    sel: Seq<usize>,
    rest: Seq<u8>,
    depth: nat,
)
    requires
        sampled(es),
        forall|i: int| 0 <= i < sel.len() ==> #[trigger] sel[i] < es.len(),
    ensures
        follow_page(payload, base, entries_bytes(es, sel) + rest, depth) == picked(
            entry_of(es),
            sel,
        ).add(follow_page(payload, base, rest, depth)),
    decreases sel.len(),
{
    if sel.len() == 0 {
        assert(entries_bytes(es, sel) + rest =~= rest);
        assert(picked(entry_of(es), sel).add(follow_page(payload, base, rest, depth))
            =~= follow_page(payload, base, rest, depth));
    } else {
        let more = sel.drop_first();
        assert forall|i: int| 0 <= i < more.len() implies #[trigger] more[i] < es.len() by {
            assert(more[i] == sel[i + 1]);
        }
        lemma_follow_entries(payload, base, es, more, rest, depth);
        let e = es[sel[0] as int];
        assert(entries_bytes(es, sel) + rest =~= entry_bytes(e) + (entries_bytes(es, more)
            + rest));
        lemma_follow_entry(payload, base, e, entries_bytes(es, more) + rest, depth);
        lemma_picked_front(entry_of(es), sel);
        assert(follow_page(payload, base, entries_bytes(es, sel) + rest, depth) =~= picked(
            entry_of(es),
            sel,
        ).add(follow_page(payload, base, rest, depth)));
    }
}

/// The page of `sel` and each page below it has a size that a pointer can hold.
pub open spec fn pages_fit(
    es: Seq<EntryView>,
    sel: Seq<usize>,
    bounds: Seq<i32>,
    idx: nat,
) -> bool
    decreases bounds.len() - idx,
{
    &&& page_len(es, sel, bounds, idx) <= u32::MAX
    &&& !is_flat(sel, bounds, idx) ==> {
        let gs = group_by(sel, page_root(es, bounds[idx as int]));
        forall|g: int| 0 <= g < gs.len() ==> pages_fit(es, (#[trigger] gs[g]).1, bounds, idx + 1)
    }
}

/// Where the pages of group `g` lie among those of all groups.
proof fn lemma_trees_bytes_part(
    es: Seq<EntryView>,
    gs: Seq<(VoxelKey, Seq<usize>)>,
    bounds: Seq<i32>,
    idx: nat,
    start: nat,
    g: int,
)
    requires
        0 <= g < gs.len(),
    ensures
        trees_bytes(es, gs, bounds, idx, start).subrange(
            trees_len(es, gs.take(g), bounds, idx) as int,
            trees_len(es, gs.take(g + 1), bounds, idx) as int,
        ) == tree_bytes(
            es,
            gs[g].1,
            bounds,
            idx,
            start + trees_len(es, gs.take(g), bounds, idx),
        ),
        trees_len(es, gs.take(g), bounds, idx) <= trees_len(es, gs.take(g + 1), bounds, idx)
            <= trees_len(es, gs, bounds, idx),
    decreases gs.len(),
{
    lemma_trees_len_prefix(es, gs, bounds, idx, g);
    lemma_trees_bytes_len(es, gs, bounds, idx, start);
    lemma_trees_bytes_len(es, gs.drop_last(), bounds, idx, start);
    let all = trees_bytes(es, gs, bounds, idx, start);
    let init = gs.drop_last();
    let from = trees_len(es, gs.take(g), bounds, idx) as int;
    let to = trees_len(es, gs.take(g + 1), bounds, idx) as int;
    if g == gs.len() - 1 {
        assert(gs.take(g) =~= init);
        assert(gs.take(g + 1) =~= gs);
        lemma_tree_bytes_len(es, gs.last().1, bounds, idx, start + trees_len(es, init, bounds, idx));
        assert(all.subrange(from, to) =~= tree_bytes(
            es,
            gs[g].1,
            bounds,
            idx,
            start + trees_len(es, init, bounds, idx),
        ));
    } else {
        lemma_trees_bytes_part(es, init, bounds, idx, start, g);
        assert(init.take(g) =~= gs.take(g));
        assert(init.take(g + 1) =~= gs.take(g + 1));
        assert(all.subrange(from, to) =~= trees_bytes(es, init, bounds, idx, start).subrange(
            from,
            to,
        ));
    }
}

proof fn lemma_follow_tree(
    es: Seq<EntryView>,
    sel: Seq<usize>,
    bounds: Seq<i32>,
    idx: nat,
    start: nat,
    payload: Seq<u8>,
    base: nat,
    depth: nat,
)
    requires
        idx <= bounds.len(),
        depth > bounds.len() - idx,
        base <= start,
        start - base + tree_len(es, sel, bounds, idx) <= payload.len(),
        payload.subrange(
            start - base,
            start - base + tree_len(es, sel, bounds, idx),
        ) == tree_bytes(es, sel, bounds, idx, start),
        start + tree_len(es, sel, bounds, idx) <= u64::MAX,
        pages_fit(es, sel, bounds, idx),
        sampled(es),
        forall|i: int| 0 <= i < sel.len() ==> #[trigger] sel[i] < es.len(),
    ensures
        follow(
            payload,
            base as int,
            start as int,
            page_len(es, sel, bounds, idx) as int,
            depth,
        ) == picked(entry_of(es), sel),
    decreases bounds.len() - idx, 0nat,
{
    let plen = page_len(es, sel, bounds, idx) as int;
    let off = start - base;
    let d1 = (depth - 1) as nat;
    lemma_tree_bytes_len(es, sel, bounds, idx, start);
    let tree = tree_bytes(es, sel, bounds, idx, start);
    let page = payload.subrange(off, off + plen);
    assert(plen <= tree_len(es, sel, bounds, idx));
    let total = tree_len(es, sel, bounds, idx) as int;
    lemma_part_of_part(payload, off, off + total, 0, plen);
    assert(page == tree.subrange(0, plen));
    if is_flat(sel, bounds, idx) {
        let none = Seq::<u8>::empty();
        lemma_follow_entries(payload, base as int, es, sel, none, d1);
        assert(page =~= entries_bytes(es, sel) + none);
        assert(follow_page(payload, base as int, none, d1) =~= Multiset::empty());
        assert(picked(entry_of(es), sel).add(Multiset::empty()) =~= picked(entry_of(es), sel));
    } else {
        let root = page_root(es, bounds[idx as int]);
        let un = ungrouped(sel, root);
        let gs = group_by(sel, root);
        let below = (start + plen) as nat;
        let nx = (idx + 1) as nat;
        lemma_group_bounds(sel, root, es.len());
        lemma_pointers_from_len(es, un, gs, bounds, nx, below, 0);
        let ptrs = pointers_from(es, un, gs, bounds, nx, below, 0);
        assert(page =~= entries_bytes(es, un) + ptrs);
        lemma_trees_bytes_len(es, gs, bounds, nx, below);
        let trees = trees_bytes(es, gs, bounds, nx, below);
        lemma_part_of_part(payload, off, off + total, plen, total);
        assert(tree.subrange(plen, total) =~= trees);
        assert(payload.subrange(below - base, below - base + trees.len()) == trees);
        lemma_follow_entries(payload, base as int, es, un, ptrs, d1);
        lemma_follow_pointers(es, un, gs, bounds, nx, below, payload, base, d1, 0);
        assert(gs.skip(0) =~= gs);
        lemma_picked_split(entry_of(es), sel, root);
    }
}

/// What a reader finds through the pointers from `g` on.
proof fn lemma_follow_pointers(
    es: Seq<EntryView>,
    un: Seq<usize>,
    gs: Seq<(VoxelKey, Seq<usize>)>,
    bounds: Seq<i32>,
    idx: nat,
    start: nat,
    payload: Seq<u8>,
    base: nat,
    depth: nat,
    g: nat,
)
    requires
        g <= gs.len(),
        idx <= bounds.len(),
        depth > bounds.len() - idx,
        base <= start,
        start - base + trees_len(es, gs, bounds, idx) <= payload.len(),
        payload.subrange(
            start - base,
            start - base + trees_len(es, gs, bounds, idx),
        ) == trees_bytes(es, gs, bounds, idx, start),
        start + trees_len(es, gs, bounds, idx) <= u64::MAX,
        forall|g: int| 0 <= g < gs.len() ==> pages_fit(es, (#[trigger] gs[g]).1, bounds, idx),
        sampled(es),
        forall|g: int, m: int|
            0 <= g < gs.len() && 0 <= m < gs[g].1.len() ==> #[trigger] gs[g].1[m] < es.len(),
    ensures
        follow_page(
            payload,
            base as int,
            pointers_from(es, un, gs, bounds, idx, start, g),
            depth,
        ) == picked_groups(entry_of(es), gs.skip(g as int)),
    decreases bounds.len() - idx, gs.len() - g + 1,
{
    let here = gs.skip(g as int);
    if g == gs.len() {
        assert(here =~= Seq::<(VoxelKey, Seq<usize>)>::empty());
        assert(pointers_from(es, un, gs, bounds, idx, start, g) =~= Seq::<u8>::empty());
    } else {
        lemma_follow_pointers(es, un, gs, bounds, idx, start, payload, base, depth, g + 1);
        assert(here.drop_first() =~= gs.skip(g as int + 1));
        lemma_picked_groups_front(entry_of(es), here);
        let p = page_pointer(es, un, gs, bounds, idx, start, g as int);
        let rest = pointers_from(es, un, gs, bounds, idx, start, g + 1);
        lemma_follow_pointer(payload, base as int, p, rest, depth);
        lemma_trees_len_prefix(es, gs, bounds, idx, g as int);
        lemma_trees_bytes_part(es, gs, bounds, idx, start, g as int);
        let child = gs[g as int].1;
        let from = trees_len(es, gs.take(g as int), bounds, idx);
        let to = trees_len(es, gs.take(g as int + 1), bounds, idx);
        let child_start = start + from;
        assert(pages_fit(es, gs[g as int].1, bounds, idx));
        let all_len = trees_len(es, gs, bounds, idx) as int;
        lemma_part_of_part(
            payload,
            start - base,
            start - base + all_len,
            from as int,
            to as int,
        );
        assert(payload.subrange(
            child_start - base,
            child_start - base + tree_len(es, child, bounds, idx),
        ) == trees_bytes(es, gs, bounds, idx, start).subrange(from as int, to as int));
        assert forall|i: int| 0 <= i < child.len() implies #[trigger] child[i] < es.len() by {
            assert(gs[g as int].1[i] < es.len());
        }
        lemma_follow_tree(es, child, bounds, idx, child_start, payload, base, depth);
    }
}

/// The values of all indices are the values of the sequence.
proof fn lemma_picked_all(es: Seq<EntryView>, n: nat)
    requires
        n <= es.len() <= usize::MAX,
    ensures
        picked(entry_of(es), all_indices(n)) == es.take(n as int).to_multiset(),
    decreases n,
{
    broadcast use vstd::seq_lib::group_to_multiset_ensures;

    if n == 0 {
        assert(es.take(0) =~= Seq::<EntryView>::empty());
        assert(picked(entry_of(es), all_indices(n)) =~= es.take(0).to_multiset());
    } else {
        lemma_picked_all(es, (n - 1) as nat);
        assert(all_indices(n).drop_last() =~= all_indices((n - 1) as nat));
        assert(es.take(n as int) =~= es.take(n - 1).push(es[n - 1]));
    }
}

/// A reader that starts at the root page and follows every pointer finds the
/// entry of each node exactly once, with its samples, and nothing else.
pub proof fn law_temporal_read_back(es: Seq<EntryView>, stride: u32, start: nat)
    requires
        es.len() <= usize::MAX,
        start + TEMPORAL_HEADER_SIZE + index_pages_len(es) <= u64::MAX,
        pages_fit(es, all_indices(es.len()), page_boundaries(deepest_level(es)), 0),
        sampled(es),
    ensures
        follow(
            temporal_bytes(es, stride, start),
            start as int,
            start + TEMPORAL_HEADER_SIZE,
            root_page_len(es) as int,
            page_boundaries(deepest_level(es)).len() + 1,
        ) == es.to_multiset(),
{
    broadcast use lemma_le_bytes_len;

    let sel = all_indices(es.len());
    let bounds = page_boundaries(deepest_level(es));
    let payload = temporal_bytes(es, stride, start);
    let first: nat = start + TEMPORAL_HEADER_SIZE as nat;
    lemma_tree_bytes_len(es, sel, bounds, 0, first);
    assert(header_bytes(index_header(es, stride, start)).len() == 32);
    assert(payload.subrange(32, 32int + index_pages_len(es)) =~= index_pages(es, first));
    assert forall|i: int| 0 <= i < sel.len() implies #[trigger] sel[i] < es.len() by {}
    lemma_follow_tree(es, sel, bounds, 0, first, payload, start, bounds.len() + 1);
    lemma_picked_all(es, es.len());
    assert(es.take(es.len() as int) =~= es);
}

} // verus!
