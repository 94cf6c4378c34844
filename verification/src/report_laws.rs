//! What scratch files hold byte by byte, and what reports, warnings and progress
//! say.

use crate::chunking::{ChunkPlan, PlannedChunk};
use crate::config::{ProgressEvent, TempCompression};
use crate::crs::{CrsKind, Epsg};
use crate::file_laws::le_at;
use crate::hierarchy::all_indices;
use crate::index_laws::signed_at;
use crate::le::{le_bytes, lemma_le_bytes_len, lemma_le_value_of_bytes, lemma_pow256_values};
use crate::node_store::{pack_of_thread, path_in};
use crate::notes::{translation_notes, vertical_differs, vertical_notes, NoteView};
use crate::point::{
    base_bytes, lemma_base_bytes_fields, lemma_bulk_bytes_len, record_bytes, uniform_extras,
    PointView,
};
use crate::progress::{
    after_event, bar_after, bucket_of, progress_due, record_of, step_str, BarView, RecordView,
    StageView,
};
use crate::report::{
    ascending, chunk_sizes, count_where, describes, level_chunks, level_points, size_codes,
    sum_of_sizes, ChunkStats,
};
use crate::sampling::lemma_picked_is_multiset;
use crate::scan::ScanResult;
use crate::sorting::{lemma_picked_permutation, lemma_sort_order_exists, sort_order};
use crate::temp::{batch_bytes, parse_stream, temp_count, temp_points, TempReadError};
use crate::text::decimal;
use crate::validate::{basic_error, crs_index_from, geotiff_from};
use vstd::prelude::*;

verus! {

// Scratch files.
/// A point's record in a scratch file: coordinates at 0, 4 and 8, intensity at
/// 12, the return and the number of returns at 14 and 15, the class at 16, the
/// scan angle at 17, the user's byte at 19, the source at 20, the time at 22,
/// and red, green, blue and near infrared from 30 on; the extra bytes follow at
/// 38.
#[verifier::rlimit(40)]
pub proof fn law_scratch_record_layout(p: PointView)
    ensures
        record_bytes(p).len() == 38 + p.extras.len(),
        signed_at(record_bytes(p), 0) == p.x,
        signed_at(record_bytes(p), 4) == p.y,
        signed_at(record_bytes(p), 8) == p.z,
        le_at(record_bytes(p), 12, 2) == p.intensity,
        record_bytes(p)[14] == p.return_number,
        record_bytes(p)[15] == p.number_of_returns,
        record_bytes(p)[16] == p.classification,
        le_at(record_bytes(p), 17, 2) == p.scan_angle as u16,
        record_bytes(p)[19] == p.user_data,
        le_at(record_bytes(p), 20, 2) == p.point_source_id,
        le_at(record_bytes(p), 22, 8) == p.gps_time,
        le_at(record_bytes(p), 30, 2) == p.red,
        le_at(record_bytes(p), 32, 2) == p.green,
        le_at(record_bytes(p), 34, 2) == p.blue,
        le_at(record_bytes(p), 36, 2) == p.nir,
        record_bytes(p).skip(38) == p.extras,
{
    let r = record_bytes(p);
    let b = base_bytes(p);
    lemma_base_bytes_fields(p);
    assert(r.subrange(0, 4) =~= b.subrange(0, 4));
    assert(r.subrange(4, 8) =~= b.subrange(4, 8));
    assert(r.subrange(8, 12) =~= b.subrange(8, 12));
    assert(r.subrange(12, 14) =~= b.subrange(12, 14));
    assert(r.subrange(17, 19) =~= b.subrange(17, 19));
    assert(r.subrange(20, 22) =~= b.subrange(20, 22));
    assert(r.subrange(22, 30) =~= b.subrange(22, 30));
    assert(r.subrange(30, 32) =~= b.subrange(30, 32));
    assert(r.subrange(32, 34) =~= b.subrange(32, 34));
    assert(r.subrange(34, 36) =~= b.subrange(34, 36));
    assert(r.subrange(36, 38) =~= b.subrange(36, 38));
    assert(r.skip(38) =~= p.extras);
    lemma_low_bits(p.x);
    lemma_low_bits(p.y);
    lemma_low_bits(p.z);
}

/// The 32 bits of a signed number, read in two's complement, give the number.
proof fn lemma_low_bits(v: i32)
    ensures
        (v as u32) < 0x8000_0000 ==> (v as u32) as int == v,
        (v as u32) >= 0x8000_0000 ==> (v as u32) - 0x1_0000_0000 == v,
{
    let u = v as u32;
    assert(u < 0x8000_0000 ==> u as i32 == u) by (bit_vector);
    assert(u >= 0x8000_0000 ==> u as i32 == u - 0x1_0000_0000) by (bit_vector);
    assert((v as u32) as i32 == v) by (bit_vector);
}

/// A file that ends inside a batch is refused: as cut short, or as corrupt where
/// the decoder had failed. An empty file holds no points, and a missing file
/// counts none.
pub proof fn law_cut_batch_is_refused(ps: Seq<PointView>, n: nat, cut: int, codec: TempCompression)
    requires
        uniform_extras(ps, n),
        ps.len() <= u32::MAX,
        4 <= cut < batch_bytes(ps).len(),
    ensures
        parse_stream(batch_bytes(ps).take(cut), false, 38 + n) == Err::<
            Seq<PointView>,
            TempReadError,
        >(TempReadError::UnexpectedEof),
        parse_stream(batch_bytes(ps).take(cut), true, 38 + n) == Err::<
            Seq<PointView>,
            TempReadError,
        >(TempReadError::Corrupt),
        temp_points(Seq::empty(), n, codec) == Ok::<Seq<PointView>, TempReadError>(Seq::empty()),
        temp_count(None, n, codec) == Ok::<nat, TempReadError>(0),
{
    broadcast use lemma_le_bytes_len;

    lemma_pow256_values();
    let data = batch_bytes(ps).take(cut);
    lemma_bulk_bytes_len(ps, n);
    assert(data.take(4) =~= le_bytes(ps.len(), 4));
    lemma_le_value_of_bytes(ps.len(), 4);
    assert(data.skip(4).len() == cut - 4);
    assert(Seq::<u8>::empty().len() == 0);
}

/// A path has one separator between the directory and the name, whether the
/// directory ends with one or not.
pub proof fn law_paths(dir: Seq<char>, name: Seq<char>)
    requires
        dir.len() > 0,
        dir.last() != '/',
    ensures
        path_in(dir, name) == dir + seq!['/'] + name,
        path_in(dir + seq!['/'], name) == path_in(dir, name),
        path_in(Seq::empty(), name) == name,
{
    assert((dir + seq!['/']).last() == '/');
    assert(Seq::<char>::empty() + name =~= name);
}

/// Threads take the packs in turn, starting over behind the last one; a thread
/// outside the pool takes the first.
pub proof fn law_packs_in_turn(i: usize, packs: nat)
    requires
        packs > 0,
        i < usize::MAX,
    ensures
        pack_of_thread(Some(i), packs) < packs,
        i < packs ==> pack_of_thread(Some(i), packs) == i,
        pack_of_thread(Some((i + 1) as usize), packs) == (if pack_of_thread(Some(i), packs) + 1
            == packs {
            0
        } else {
            pack_of_thread(Some(i), packs) + 1
        }),
        pack_of_thread(None, packs) == 0,
{
    let (a, n) = (i as int, packs as int);
    vstd::arithmetic::div_mod::lemma_fundamental_div_mod(a, n);
    let (q, r) = (a / n, a % n);
    if i < packs {
        vstd::arithmetic::div_mod::lemma_small_mod(i as nat, packs);
    }
    if r + 1 == n {
        assert(a + 1 == n * (q + 1) + 0) by (nonlinear_arith)
            requires
                a == n * q + r,
                r + 1 == n,
        ;
        assert((q + 1) * n == n * (q + 1)) by (nonlinear_arith);
        vstd::arithmetic::div_mod::lemma_fundamental_div_mod_converse(a + 1, n, q + 1, 0);
    } else {
        assert(q * n == n * q) by (nonlinear_arith);
        vstd::arithmetic::div_mod::lemma_fundamental_div_mod_converse(a + 1, n, q, r + 1);
    }
}

// The report on a plan.
proof fn lemma_count_where(s: Seq<u64>, keep: spec_fn(u64) -> bool)
    ensures
        count_where(s, keep) == s.filter(keep).len(),
    decreases s.len(),
{
    reveal(Seq::filter);
    if s.len() > 0 {
        lemma_count_where(s.drop_last(), keep);
    }
}

/// A report lists the sizes of all chunks in ascending order; its mean is the
/// whole part of total by number; and it counts the chunks above the target,
/// above twice the target, below a tenth of it, and without points.
pub proof fn law_report(s: ChunkStats, plan: ChunkPlan, i: int, j: int)
    requires
        describes(s, plan),
        0 <= i < j < plan.chunks@.len(),
        plan.chunks@.len() <= usize::MAX,
    ensures
        s.sizes@.len() == plan.chunks@.len(),
        s.sizes@[i] <= s.sizes@[j],
        s.sizes@.to_multiset() == chunk_sizes(plan.chunks@).to_multiset(),
        s.mean * plan.chunks@.len() <= s.total < (s.mean + 1) * plan.chunks@.len(),
        s.above_target == chunk_sizes(plan.chunks@).filter(|v: u64| v > plan.chunk_target).len(),
        s.above_2x == chunk_sizes(plan.chunks@).filter(
            |v: u64| v > 2 * plan.chunk_target,
        ).len(),
        s.below_10pct == chunk_sizes(plan.chunks@).filter(
            |v: u64| v < plan.chunk_target as int / 10,
        ).len(),
        s.zero == chunk_sizes(plan.chunks@).filter(|v: u64| v == 0).len(),
{
    let sizes = chunk_sizes(plan.chunks@);
    let target = plan.chunk_target;
    let n = sizes.len();
    lemma_count_where(sizes, |v: u64| v > target);
    lemma_count_where(sizes, |v: u64| v > 2 * target);
    lemma_count_where(sizes, |v: u64| v < target as int / 10);
    lemma_count_where(sizes, |v: u64| v == 0);
    let codes = size_codes(sizes);
    let order = sort_order(codes);
    let value = |i: usize| sizes[i as int];
    lemma_sort_order_exists(codes);
    lemma_picked_permutation(value, order, n);
    lemma_picked_is_multiset(value, order);
    lemma_picked_is_multiset(value, all_indices(n));
    assert(all_indices(n).map_values(value) =~= sizes);
    assert(codes[order[i] as int] <= codes[order[j] as int]);
    assert(ascending(sizes)[i] == sizes[order[i] as int]);
    assert(ascending(sizes)[j] == sizes[order[j] as int]);
    vstd::arithmetic::div_mod::lemma_fundamental_div_mod(s.total as int, n as int);
    let (q, r) = (s.total as int / n as int, s.total as int % n as int);
    assert(q * n <= s.total < (q + 1) * n) by (nonlinear_arith)
        requires
            s.total == n * q + r,
            0 <= r < n,
    ;
}

/// The sum of the sizes of two parts is the sum of their sums; so are the number
/// and the points of the chunks of a level.
pub proof fn law_sums_by_parts(
    a: Seq<PlannedChunk>,
    b: Seq<PlannedChunk>,
    c: PlannedChunk,
    level: u32,
)
    ensures
        sum_of_sizes(chunk_sizes(a + b)) == sum_of_sizes(chunk_sizes(a)) + sum_of_sizes(
            chunk_sizes(b),
        ),
        level_chunks(a + b, level) == level_chunks(a, level) + level_chunks(b, level),
        level_points(a + b, level) == level_points(a, level) + level_points(b, level),
        sum_of_sizes(chunk_sizes(seq![c])) == c.point_count,
        level_chunks(seq![c], level) == (if c.level == level {
            1nat
        } else {
            0nat
        }),
        level_points(seq![c], level) == (if c.level == level {
            c.point_count as nat
        } else {
            0nat
        }),
        level_chunks(Seq::empty(), level) == 0 && level_points(Seq::empty(), level) == 0,
    decreases b.len(),
{
    let none = Seq::<PlannedChunk>::empty();
    let one = seq![c];
    assert(one.drop_last() =~= none);
    assert(one.last() == c);
    assert(level_chunks(none, level) == 0 && level_points(none, level) == 0);
    assert(chunk_sizes(one).drop_last() =~= Seq::<u64>::empty());
    assert(sum_of_sizes(Seq::<u64>::empty()) == 0);
    if b.len() == 0 {
        assert(a + b =~= a);
        assert(chunk_sizes(b) =~= Seq::<u64>::empty());
    } else {
        let init = b.drop_last();
        law_sums_by_parts(a, init, c, level);
        assert((a + b).drop_last() =~= a + init);
        assert((a + b).last() == b.last());
        assert(chunk_sizes(a + b).drop_last() =~= chunk_sizes(a + init));
        assert(chunk_sizes(b).drop_last() =~= chunk_sizes(init));
    }
}

// Warnings.
/// Where no input has a WKT record and the first GeoTIFF declaration has the
/// horizontal code `h`, it is warned that its vertical part is dropped exactly
/// where it has one, and that the code is unknown exactly where the registry does
/// not have it. Where there is a WKT record there is no such warning.
pub proof fn law_translation_notes(
    results: Seq<ScanResult>,
    wkt: Seq<u8>,
    h: u16,
    v: Option<u16>,
)
    requires
        geotiff_from(results, 0) == Some((h, v)),
    ensures
        translation_notes(results, Some(wkt)).len() == 0,
        translation_notes(results, None).contains(NoteView::VerticalDropped { horizontal: h })
            <==> v is Some,
        translation_notes(results, None).contains(NoteView::UnknownCode { horizontal: h })
            <==> crate::crs::registry_wkt(h) is None,
{
    let notes = translation_notes(results, None);
    let (x, y) = (
        NoteView::VerticalDropped { horizontal: h },
        NoteView::UnknownCode { horizontal: h },
    );
    let unknown = crate::crs::registry_wkt(h) is None;
    if v is Some && unknown {
        assert(notes[0] == x && notes[1] == y);
    } else if v is Some {
        assert(notes[0] == x);
    } else if unknown {
        assert(notes[0] == y);
    }
}

/// Where all files agree, it is warned of each file that differs from the first in
/// its vertical code alone, and of no other; the reference file is named first.
pub proof fn law_vertical_notes(
    files: Seq<String>,
    results: Seq<ScanResult>,
    codes: Option<Epsg>,
    from: int,
    h: u16,
    v: Option<u16>,
)
    requires
        0 <= from <= results.len() <= files.len(),
        results.len() > 0,
        results[0].crs == Some(CrsKind::GeoTiffEpsg(h, v)),
        forall|k: int|
            0 <= k < results.len() ==> (#[trigger] basic_error(files, results, codes, k)) is None,
    ensures
        forall|i: int|
            from <= i < results.len() && i > 0 && ((#[trigger] results[i]).crs matches Some(
                CrsKind::GeoTiffEpsg(k, w),
            ) && k == h && w != v) ==> vertical_notes(files, results, codes, from).contains(
                NoteView::VerticalDiffers { file_a: files[0]@, file_b: files[i]@ },
            ),
        forall|j: int|
            0 <= j < vertical_notes(files, results, codes, from).len() ==> exists|i: int|
                {
                    &&& from <= i < results.len()
                    &&& #[trigger] vertical_differs(results, codes, i)
                    &&& #[trigger] vertical_notes(files, results, codes, from)[j] == (
                    NoteView::VerticalDiffers { file_a: files[0]@, file_b: files[i]@ })
                },
    decreases results.len() - from,
{
    assert(crs_index_from(results, 0) == 0);
    let all = vertical_notes(files, results, codes, from);
    if from < results.len() {
        law_vertical_notes(files, results, codes, from + 1, h, v);
        assert(basic_error(files, results, codes, from) is None);
        let rest = vertical_notes(files, results, codes, from + 1);
        let note = NoteView::VerticalDiffers { file_a: files[0]@, file_b: files[from]@ };
        let shift: int = if vertical_differs(results, codes, from) {
            1
        } else {
            0
        };
        assert(shift == 1 ==> all[0] == note);
        assert forall|j: int| 0 <= j < rest.len() implies #[trigger] rest[j] == all[j + shift] by {}
        assert forall|i: int|
            from <= i < results.len() && i > 0 && ((#[trigger] results[i]).crs matches Some(
                CrsKind::GeoTiffEpsg(k, w),
            ) && k == h && w != v) implies all.contains(
            NoteView::VerticalDiffers { file_a: files[0]@, file_b: files[i]@ },
        ) by {
            if i == from {
                assert(vertical_differs(results, codes, from));
                assert(all[0] == note);
            } else {
                let n = NoteView::VerticalDiffers { file_a: files[0]@, file_b: files[i]@ };
                assert(rest.contains(n));
                let j = choose|j: int| 0 <= j < rest.len() && rest[j] == n;
                assert(all[j + shift] == n);
            }
        }
        assert forall|j: int| 0 <= j < all.len() implies exists|i: int|
            {
                &&& from <= i < results.len()
                &&& #[trigger] vertical_differs(results, codes, i)
                &&& #[trigger] all[j] == (NoteView::VerticalDiffers {
                    file_a: files[0]@,
                    file_b: files[i]@,
                })
            } by {
            if j < shift {
                assert(vertical_differs(results, codes, from));
            } else {
                assert(rest[j - shift] == all[j]);
                let i = choose|i: int|
                    {
                        &&& from + 1 <= i < results.len()
                        &&& #[trigger] vertical_differs(results, codes, i)
                        &&& rest[j - shift] == (NoteView::VerticalDiffers {
                            file_a: files[0]@,
                            file_b: files[i]@,
                        })
                    };
                assert(vertical_differs(results, codes, i));
            }
        }
    }
}

// Progress.
/// Progress is reported by tens: the reported percentage is a multiple of ten,
/// not above what is done and less than ten below it. It is reported when it has
/// risen, of stages whose size is known, and not again for the same ten.
pub proof fn law_progress_by_tens(s: StageView, done: u64, percent: u32)
    requires
        percent <= 100,
    ensures
        bucket_of(percent) as int % 10 == 0,
        bucket_of(percent) <= percent < bucket_of(percent) + 10,
        s.total == 0 ==> !progress_due(s, percent),
        s.total > 0 && percent >= s.last_percent + 10 ==> progress_due(s, percent),
        percent <= s.last_percent ==> !progress_due(s, percent),
        ({
            let now = after_event(s, ProgressEvent::StageProgress { done }, percent);
            &&& !progress_due(now, percent)
            &&& progress_due(s, percent) ==> now.last_percent == bucket_of(percent)
            &&& !progress_due(s, percent) ==> now == s
        }),
{
}

/// Each stage that starts is the next step, under its own name and size, with
/// nothing done; a stage that ends changes nothing.
pub proof fn law_stages_are_counted(s: StageView, name: &'static str, total: u64, percent: u32)
    requires
        s.step < u32::MAX,
    ensures
        ({
            let now = after_event(s, ProgressEvent::StageStart { name, total }, percent);
            &&& now.step == s.step + 1
            &&& now.name == name@
            &&& now.total == total
            &&& now.last_percent == 0
        }),
        after_event(s, ProgressEvent::StageDone, percent) == s,
{
}

/// A record says which step of how many the stage is, its name, and its numbers:
/// how many units it has, or how many of them are done.
pub proof fn law_progress_records(
    s: StageView,
    total_steps: u32,
    name: &'static str,
    total: u64,
    done: u64,
    percent: u32,
)
    requires
        s.step < u32::MAX,
    ensures
        record_of(s, total_steps, ProgressEvent::StageStart { name, total }, percent) == Some(
            RecordView::StageStart {
                stage: name@,
                step: (s.step + 1) as u32,
                total_steps,
                total_units: total,
            },
        ),
        record_of(s, total_steps, ProgressEvent::StageDone, percent) == Some(
            RecordView::StageDone { stage: s.name, step: s.step, total_steps },
        ),
        record_of(s, total_steps, ProgressEvent::StageProgress { done }, percent) is Some
            <==> s.total > 0 && percent as int / 10 * 10 > s.last_percent,
        record_of(s, total_steps, ProgressEvent::StageProgress { done }, percent) matches Some(r)
            ==> r == (RecordView::StageProgress {
            stage: s.name,
            step: s.step,
            total_steps,
            done,
            total: s.total,
        }),
{
}

/// A bar is shown from the start of a stage to its end, and begins with the
/// number of the step, the number of steps and the name of the stage.
pub proof fn law_bar(s: BarView, total_steps: u32, name: &'static str, total: u64, done: u64)
    requires
        s.step < u32::MAX,
    ensures
        ({
            let now = bar_after(s, total_steps, ProgressEvent::StageStart { name, total });
            &&& now.open
            &&& now.step == s.step + 1
            &&& now.total == total
            &&& now.prefix == "["@ + decimal((s.step + 1) as nat) + "/"@ + decimal(
                total_steps as nat,
            ) + "] "@ + name@
        }),
        bar_after(s, total_steps, ProgressEvent::StageProgress { done }) == s,
        !bar_after(s, total_steps, ProgressEvent::StageDone).open,
        bar_after(s, total_steps, ProgressEvent::StageDone).step == s.step,
{
    let step = (s.step + 1) as u32;
    assert(step_str(step, total_steps) == "["@ + decimal(step as nat) + "/"@ + decimal(
        total_steps as nat,
    ) + "] "@);
}

} // verus!
