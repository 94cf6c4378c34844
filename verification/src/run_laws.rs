//! What a run tells its observer, how its work is shared out, and how records
//! follow each other in its files.

use crate::chunking::{cell_number, clamped, owner, ChunkPlan};
use crate::config::{told, PipelineConfig, ProgressEvent, ProgressObserver};
use crate::distribute::{file_range, files_per_worker};
use crate::encode::{fitted, record_length, EncodedNode};
use crate::extra_bytes::{
    merge_error, merged_record, mergeable, other_count, MergeStatsError, ParsedExtraBytes,
};
use crate::file_laws::le_at;
use crate::key::{pow2, VoxelKey};
use crate::le::{le_bytes, lemma_le_bytes_len, lemma_le_value_of_bytes, lemma_pow256_values};
use crate::merge::{sum_counts, task_sizes};
use crate::node_map::Counted;
use crate::node_writer::{batch_nodes, batches_len, holds_chunks, index_entries, WriteState};
use crate::notes::{merge_notes, NoteView};
use crate::pipeline::{filled_count, scan_events, write_events};
use crate::point::{
    bulk_bytes, lemma_bulk_bytes_len, record_bytes, uniform_extras, PointView,
};
use crate::scan::ScanResult;
use crate::temp::batch_bytes;
use crate::validate::{all_extras, input_error, output_extras};
use crate::writer::{laz_item, laz_items, laz_vlr_bytes};
use vstd::prelude::*;

verus! {

// Events.
/// The observer of a scan hears the start with the number of files, then of each
/// file, and at last the end.
pub proof fn law_scan_events(n: nat, i: int)
    requires
        n <= u64::MAX,
        1 <= i <= n,
    ensures
        scan_events(n).len() == n + 2,
        scan_events(n)[0] == (ProgressEvent::StageStart { name: "Scanning", total: n as u64 }),
        scan_events(n)[i] == (ProgressEvent::StageProgress { done: i as u64 }),
        scan_events(n).last() == ProgressEvent::StageDone,
{
}

/// The observer of the writing hears the start with the number of nodes that have
/// points, then behind each batch how many nodes have been written, and at last
/// the end. Each batch adds its nodes.
pub proof fn law_write_events(nodes: Seq<Counted>, batches: Seq<Seq<usize>>, i: int)
    requires
        1 <= i <= batches.len(),
    ensures
        write_events(nodes, batches).len() == batches.len() + 2,
        write_events(nodes, batches)[0] == (ProgressEvent::StageStart {
            name: "Writing",
            total: filled_count(nodes) as u64,
        }),
        write_events(nodes, batches)[i] == (ProgressEvent::StageProgress {
            done: batches_len(batches, i as nat) as u64,
        }),
        batches_len(batches, i as nat) == batches_len(batches, (i - 1) as nat) + batches[i
            - 1].len(),
        batches_len(batches, 0) == 0,
        write_events(nodes, batches).last() == ProgressEvent::StageDone,
{
}

/// Nodes without points are not counted, all others are.
pub proof fn law_filled_count(a: Seq<Counted>, b: Seq<Counted>, n: Counted)
    ensures
        filled_count(a + b) == filled_count(a) + filled_count(b),
        filled_count(seq![n]) == (if n.1 == 0 {
            0nat
        } else {
            1nat
        }),
        filled_count(Seq::<Counted>::empty()) == 0,
    decreases b.len(),
{
    assert(seq![n].drop_last() =~= Seq::<Counted>::empty());
    assert(seq![n].last() == n);
    assert(filled_count(Seq::<Counted>::empty()) == 0);
    if b.len() == 0 {
        assert(a + b =~= a);
    } else {
        law_filled_count(a, b.drop_last(), n);
        assert((a + b).drop_last() =~= a + b.drop_last());
        assert((a + b).last() == b.last());
    }
}

/// The temporal index gets one entry for each node that is written: the node's
/// key with the node's own samples, in the order of the nodes.
pub proof fn law_index_entries(nodes: Seq<Counted>, es: Seq<EncodedNode>, i: int)
    requires
        0 <= i < es.len(),
    ensures
        index_entries(nodes, es).len() == es.len(),
        index_entries(nodes, es)[i].0 == nodes[i].0,
        index_entries(nodes, es)[i].1 == es[i].samples@,
{
}

/// The nodes of a batch are the next ones that are not written yet, as many as the
/// batch has.
pub proof fn law_batch_nodes(s: WriteState, i: int)
    requires
        0 <= s.next < s.batches.len(),
        0 <= s.done,
        s.done + s.batches[s.next].len() <= s.data.len(),
        0 <= i < s.batches[s.next].len(),
    ensures
        batch_nodes(s).len() == s.batches[s.next].len(),
        batch_nodes(s)[i] == s.data[s.done + i],
{
}

/// The chunks of a batch are the bytes of its nodes, in the order of the nodes.
pub proof fn law_chunks_in_order(chunks: Seq<Vec<u8>>, es: Seq<EncodedNode>, i: int)
    requires
        holds_chunks(chunks, es),
        0 <= i < es.len(),
    ensures
        chunks.len() == es.len(),
        chunks[i]@ == es[i].bytes@,
{
}

/// An observer that was told events has received them behind all that it had
/// received before, and nothing else of the settings is another.
pub proof fn law_told<P: ProgressObserver>(
    a: PipelineConfig<P>,
    b: PipelineConfig<P>,
    events: Seq<ProgressEvent>,
)
    requires
        told(a, b, events),
    ensures
        a.progress is Some ==> b.progress is Some && b.progress->0.events()
            == a.progress->0.events() + events,
        a.progress is None ==> b.progress is None,
        a.memory_budget == b.memory_budget,
        a.temporal_index == b.temporal_index,
        a.temp_dir == b.temp_dir,
        a.chunk_target_override == b.chunk_target_override,
        a.temp_compression == b.temp_compression,
        a.node_storage == b.node_storage,
{
}

// Scratch files.
/// Record `i` of a list of records of one size stands behind the `i` records
/// before it.
#[verifier::rlimit(40)]
pub proof fn law_records_in_turn(ps: Seq<PointView>, n: nat, i: int)
    requires
        uniform_extras(ps, n),
        0 <= i < ps.len(),
    ensures
        0 <= i * (38 + n),
        i * (38 + n) + 38 + n <= bulk_bytes(ps).len(),
        bulk_bytes(ps).subrange(i * (38 + n), i * (38 + n) + 38 + n) == record_bytes(ps[i]),
    decreases ps.len(),
{
    let rest = ps.drop_first();
    let size = (38 + n) as int;
    assert forall|k: int| 0 <= k < rest.len() implies (#[trigger] rest[k]).extras.len() == n by {
        assert(rest[k] == ps[k + 1]);
    }
    assert forall|k: int| 0 <= k < 1 implies (#[trigger] seq![ps[0]][k]).extras.len() == n by {}
    lemma_bulk_bytes_len(seq![ps[0]], n);
    assert(seq![ps[0]].drop_first() =~= Seq::<PointView>::empty());
    reveal_with_fuel(bulk_bytes, 3);
    assert(bulk_bytes(seq![ps[0]]) =~= record_bytes(ps[0]));
    assert(seq![ps[0]].len() * (38 + n) == 38 + n) by (nonlinear_arith)
        requires
            seq![ps[0]].len() == 1,
    ;
    let head = record_bytes(ps[0]);
    let tail = bulk_bytes(rest);
    let all = bulk_bytes(ps);
    assert(all == head + tail);
    if i == 0 {
        assert(0 * size == 0);
        assert(all.subrange(0, size) =~= head);
    } else {
        law_records_in_turn(rest, n, i - 1);
        assert(i * size == (i - 1) * size + size) by (nonlinear_arith);
        let at = (i - 1) * size;
        assert(all.subrange(at + size, at + size + size) =~= tail.subrange(at, at + size));
        assert(rest[i - 1] == ps[i]);
    }
}

/// A batch starts with the number of its points in four bytes, and its records
/// follow.
pub proof fn law_batch_layout(ps: Seq<PointView>, n: nat)
    requires
        uniform_extras(ps, n),
        ps.len() <= u32::MAX,
    ensures
        batch_bytes(ps).len() == 4 + ps.len() * (38 + n),
        le_at(batch_bytes(ps), 0, 4) == ps.len(),
        batch_bytes(ps).skip(4) == bulk_bytes(ps),
{
    broadcast use lemma_le_bytes_len;

    lemma_pow256_values();
    let head = le_bytes((ps.len() as u32) as nat, 4);
    lemma_bulk_bytes_len(ps, n);
    lemma_le_value_of_bytes((ps.len() as u32) as nat, 4);
    assert(batch_bytes(ps).subrange(0, 4) =~= head);
    assert(batch_bytes(ps).skip(4) =~= bulk_bytes(ps));
}

/// Extra bytes are brought to a width: what fits is kept, what is missing is
/// zero. What has the width stays as it is.
pub proof fn law_fitted(extra: Seq<u8>, want: nat, i: int)
    requires
        0 <= i < want,
    ensures
        fitted(extra, want).len() == want,
        i < extra.len() ==> fitted(extra, want)[i] == extra[i],
        i >= extra.len() ==> fitted(extra, want)[i] == 0,
        extra.len() == want ==> fitted(extra, want) == extra,
        fitted(fitted(extra, want), want) == fitted(extra, want),
{
    if extra.len() == want {
        assert(fitted(extra, want) =~= extra);
    }
    assert(fitted(fitted(extra, want), want) =~= fitted(extra, want));
}

// The laszip record.
/// The sizes of a list of items, at bytes 2 and 3 of each six.
pub open spec fn item_sizes(items: Seq<u8>) -> nat
    decreases items.len(),
{
    if items.len() < 6 {
        0
    } else {
        le_at(items, 2, 2) + item_sizes(items.skip(6))
    }
}

proof fn lemma_item(kind: nat, size: nat, rest: Seq<u8>)
    requires
        size <= u16::MAX,
    ensures
        laz_item(kind, size).len() == 6,
        item_sizes(laz_item(kind, size) + rest) == size + item_sizes(rest),
{
    broadcast use lemma_le_bytes_len;

    lemma_pow256_values();
    let item = laz_item(kind, size);
    let all = item + rest;
    lemma_le_value_of_bytes(size, 2);
    assert(all.subrange(2, 4) =~= le_bytes(size, 2));
    assert(all.skip(6) =~= rest);
}

/// The items of the laszip record take as many bytes together as a point of the
/// format with its extra bytes, and the record announces as many items as there
/// are.
#[verifier::rlimit(40)]
pub proof fn law_laszip_record(fmt: u8, num_extra_bytes: u16)
    requires
        6 <= fmt <= 8,
    ensures
        item_sizes(laz_items(fmt, num_extra_bytes)) == record_length(fmt) + num_extra_bytes,
        laz_vlr_bytes(fmt, num_extra_bytes).skip(34) == laz_items(fmt, num_extra_bytes),
        6 * le_at(laz_vlr_bytes(fmt, num_extra_bytes), 32, 2) == laz_items(
            fmt,
            num_extra_bytes,
        ).len(),
        le_at(laz_vlr_bytes(fmt, num_extra_bytes), 0, 2) == 3,
        le_at(laz_vlr_bytes(fmt, num_extra_bytes), 12, 4) == 0xFFFF_FFFF,
{
    broadcast use lemma_le_bytes_len;

    lemma_pow256_values();
    let none = Seq::<u8>::empty();
    let extra = if num_extra_bytes > 0 {
        laz_item(14, num_extra_bytes as nat)
    } else {
        none
    };
    let colour = if fmt == 7 {
        laz_item(11, 6)
    } else if fmt == 8 {
        laz_item(12, 8)
    } else {
        none
    };
    let items = laz_items(fmt, num_extra_bytes);
    lemma_item(14, num_extra_bytes as nat, none);
    assert(laz_item(14, num_extra_bytes as nat) + none =~= laz_item(14, num_extra_bytes as nat));
    assert(item_sizes(none) == 0);
    assert(item_sizes(extra) == num_extra_bytes);
    lemma_item(11, 6, extra);
    lemma_item(12, 8, extra);
    assert(none + extra =~= extra);
    lemma_item(10, 30, colour + extra);
    assert(items =~= laz_item(10, 30) + (colour + extra));
    let count = items.len() / 6;
    assert(items.len() == 6 * count && count <= 3);
    let v = laz_vlr_bytes(fmt, num_extra_bytes);
    lemma_le_value_of_bytes(3, 2);
    lemma_le_value_of_bytes(0xFFFF_FFFF, 4);
    lemma_le_value_of_bytes(count, 2);
    assert(v.subrange(0, 2) =~= le_bytes(3, 2));
    assert(v.subrange(12, 16) =~= le_bytes(0xFFFF_FFFF, 4));
    assert(v.subrange(32, 34) =~= le_bytes(count, 2));
    assert(v.skip(34) =~= items);
}

// Sharing work out.
/// The number of a grid cell: x varies fastest, then y. A coordinate in the grid
/// is taken as it is, one beyond it as the last one.
pub proof fn law_cell_number(key: VoxelKey, g: u32)
    requires
        g > 0,
        key.x >= 0,
        key.y >= 0,
        key.z >= 0,
    ensures
        0 <= clamped(key.x, g) < g,
        key.x < g ==> clamped(key.x, g) == key.x,
        key.x >= g ==> clamped(key.x, g) == g - 1,
        key.x < g && key.y < g && key.z < g ==> cell_number(key, g) == key.x + key.y * g + key.z
            * g * g,
{
}

/// A grid cell belongs to the last chunk whose voxel has it along every axis; it
/// belongs to none where there is no such chunk.
pub proof fn law_owner(plan: ChunkPlan, n: nat, x: int, y: int, z: int, c: int)
    requires
        plan.wf(),
        n <= plan.chunks@.len(),
        0 <= c < n,
        owner(plan, n, x, y, z) == u32::MAX || owner(plan, n, x, y, z) < c,
    ensures
        ({
            let chunk = plan.chunks@[c];
            let side = pow2((plan.grid_depth - chunk.level) as nat);
            ||| x < chunk.gx * side
            ||| x >= chunk.gx * side + side
            ||| y < chunk.gy * side
            ||| y >= chunk.gy * side + side
            ||| z < chunk.gz * side
            ||| z >= chunk.gz * side + side
        }),
    decreases n,
{
    if c < n - 1 {
        law_owner(plan, (n - 1) as nat, x, y, z, c);
    }
}

/// No worker reads more files than its even share, rounded up, and the files of a
/// worker follow those of the worker before it.
pub proof fn law_file_shares(files: int, workers: int, w: int)
    requires
        workers > 0,
        files >= 0,
        0 <= w,
    ensures
        ({
            let (start, end) = file_range(files, workers, w);
            &&& 0 <= start <= end <= files
            &&& (end - start - 1) * workers < files
            &&& file_range(files, workers, w + 1).0 == end
        }),
        file_range(files, workers, 0).0 == 0,
{
    let per = files_per_worker(files, workers);
    let q = files / workers;
    let r = files % workers;
    vstd::arithmetic::div_mod::lemma_fundamental_div_mod(files, workers);
    vstd::arithmetic::div_mod::lemma_div_pos_is_pos(files, workers);
    let (start, end) = file_range(files, workers, w);
    assert(w * per >= 0) by (nonlinear_arith)
        requires
            w >= 0,
            per >= 0,
    ;
    assert((w + 1) * per == w * per + per) by (nonlinear_arith);
    assert(0 * per == 0);
    let n = end - start - 1;
    assert(n * workers < files) by (nonlinear_arith)
        requires
            n <= per - 1,
            workers > 0,
            per == (if r == 0 {
                q
            } else {
                q + 1
            }),
            files == workers * q + r,
            0 <= r < workers,
            files > 0 || n < 0,
    ;
}

/// The memory of a merge task is that of each point of its children.
pub proof fn law_task_memory(counts: Seq<Vec<u64>>, mem_per_point: u32, i: int)
    requires
        0 <= i < counts.len(),
        sum_counts(counts[i]@) <= u64::MAX,
    ensures
        task_sizes(counts, mem_per_point).len() == counts.len(),
        task_sizes(counts, mem_per_point)[i] == sum_counts(counts[i]@) * mem_per_point,
{
    let (a, b) = (sum_counts(counts[i]@) as int, mem_per_point as int);
    assert(a * b <= 0xFFFF_FFFF_FFFF_FFFF * 0xFFFF_FFFF) by (nonlinear_arith)
        requires
            0 <= a <= 0xFFFF_FFFF_FFFF_FFFF,
            0 <= b <= 0xFFFF_FFFF,
    ;
    assert(0 <= a * b) by (nonlinear_arith)
        requires
            0 <= a,
            0 <= b,
    ;
}

// The Extra Bytes record of the output.
/// The output has an Extra Bytes record where there is one to start from. It is
/// that record where no file declares Extra Bytes or where the statistics cannot
/// be merged, and else the one with the statistics of all files.
pub proof fn law_output_extras(results: Seq<ScanResult>, b: Seq<u8>)
    ensures
        output_extras(results, None) is None,
        output_extras(results, Some(b)) is Some,
        all_extras(results).len() == 0 ==> output_extras(results, Some(b)) == Some(b),
        merge_error(b, all_extras(results)) is Some && b.len() <= usize::MAX ==> output_extras(
            results,
            Some(b),
        ) == Some(b),
        b.len() % 192 == 0 && all_extras(results).len() > 0 && mergeable(b, all_extras(results))
            ==> output_extras(results, Some(b)) == Some(
            merged_record(b, all_extras(results), b.len() / 192),
        ),
{
    let files = all_extras(results);
    lemma_other_count(files, b.len() / 192, 0);
}

proof fn lemma_other_count(files: Seq<ParsedExtraBytes>, n: nat, i: int)
    requires
        0 <= i,
    ensures
        other_count(files, n, i) is Some ==> exists|k: int|
            i <= k < files.len() && (#[trigger] files[k]).fields@.len() != n,
    decreases files.len() - i,
{
    if i < files.len() && files[i].fields@.len() == n {
        lemma_other_count(files, n, i + 1);
    }
}

/// It is warned of statistics that cannot be merged exactly where they cannot and
/// the inputs are accepted: the record's length is no multiple of 192, or a file
/// has another number of fields.
pub proof fn law_merge_notes(
    files: Seq<String>,
    results: Seq<ScanResult>,
    wkt: Option<Seq<u8>>,
    b: Seq<u8>,
    temporal_index: Option<u32>,
)
    requires
        b.len() <= usize::MAX,
    ensures
        merge_notes(files, results, wkt, None, temporal_index).len() == 0,
        input_error(files, results, wkt, temporal_index) is Some ==> merge_notes(
            files,
            results,
            wkt,
            Some(b),
            temporal_index,
        ).len() == 0,
        input_error(files, results, wkt, temporal_index) is None && all_extras(results).len() > 0
            && b.len() % 192 != 0 ==> merge_notes(files, results, wkt, Some(b), temporal_index)
            == seq![
            NoteView::StatsNotMerged(MergeStatsError::BadLength { length: b.len() as usize }),
        ],
        mergeable(b, all_extras(results)) ==> merge_notes(
            files,
            results,
            wkt,
            Some(b),
            temporal_index,
        ).len() == 0,
{
    lemma_other_count(all_extras(results), b.len() / 192, 0);
}

} // verus!
