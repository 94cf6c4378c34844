//! The conversion, stage by stage.
//!
//! Each stage exposes only the next step. What a stage reads or writes outside
//! the program is handed in as a function.

use crate::chunking::{ChunkPlan, HeaderBoundsMismatch};
use crate::config::{
    events_of, lemma_told, told, NodeStorage, PipelineConfig, ProgressEvent, ProgressObserver,
    TempCompression,
};
use crate::crs::opt_bytes;
use crate::encode::EncodedNode;
use crate::error::{Error, ErrorView};
use crate::node_map::Counted;
use crate::node_writer::{
    batch_events, batch_fails, begun_writing, steps_lead, too_many_points, write_nodes, NodeWriter,
    Step, WriteState,
};
use crate::scan::{
    copy_bytes, empty_bounds, extra_bytes_from, header_ok, scan_matches, united, Bounds,
    FileHeader, ScanOutput, ScanResult,
};
use crate::text::{decimal, push_decimal, push_text, quote, quoted};
use crate::validate::{
    copc_format, extras_index_from, input_error, output_extras, output_wkt, results_wf, validate,
    ValidatedInputs,
};
use crate::writer::{
    by_key, data_nodes, lemma_total_count_prefix, order_nodes, select_data_nodes, total_count,
};
use std::marker::PhantomData;
use vstd::prelude::*;

verus! {

/// What the octree is built with. Numbers that are doubles are bit patterns.
#[derive(Debug)]
pub struct OctreeBuilder {
    /// Bounds of all input points.
    pub bounds: Bounds,
    /// Number of points of all input files.
    pub total_points: u64,
    /// Centre of the root voxel, and half its size.
    pub cube: Cube,
    /// Scale and offset of the first input file.
    pub scale: [u64; 3],
    pub offset: [u64; 3],
    /// Directory for temp files.
    pub tmp_dir: String,
    pub wkt_crs: Option<Vec<u8>>,
    pub extra_bytes_vlr: Option<Vec<u8>>,
    /// Number of bytes that trail each point.
    pub num_extra_bytes: u16,
    /// Point format of the output.
    pub point_format: u8,
    /// The chunk plan, once there is one.
    pub chunked_plan: Option<ChunkPlan>,
    pub temp_compression: TempCompression,
    pub node_storage: NodeStorage,
}

/// A voxel that is a cube.
#[derive(Debug, Clone, Copy, PartialEq, Eq, Structural)]
pub struct Cube {
    pub center_x: u64,
    pub center_y: u64,
    pub center_z: u64,
    pub halfsize: u64,
}

/// The smallest box that holds the bounds of all files.
pub open spec fn all_bounds(results: Seq<ScanResult>) -> Bounds
    decreases results.len(),
{
    if results.len() == 0 {
        empty_bounds()
    } else {
        united(all_bounds(results.drop_last()), results.last().bounds)
    }
}

/// The number of points of all files.
pub open spec fn all_count(results: Seq<ScanResult>) -> nat
    decreases results.len(),
{
    if results.len() == 0 {
        0
    } else {
        all_count(results.drop_last()) + results.last().point_count as nat
    }
}

proof fn lemma_all_count_prefix(results: Seq<ScanResult>, n: int)
    requires
        0 <= n <= results.len(),
    ensures
        all_count(results.take(n)) <= all_count(results),
    decreases results.len() - n,
{
    if n < results.len() {
        lemma_all_count_prefix(results, n + 1);
        assert(results.take(n + 1).drop_last() =~= results.take(n));
    } else {
        assert(results.take(n) =~= results);
    }
}

/// The bounds and the number of points of all files.
pub fn merge_results(results: &Vec<ScanResult>) -> (r: (Bounds, u64))
    requires
        all_count(results@) <= u64::MAX,
    ensures
        r.0 == all_bounds(results@),
        r.1 == all_count(results@),
{
    let mut bounds = Bounds::empty();
    let mut total: u64 = 0;
    let mut i: usize = 0;
    assert(results@.take(0) =~= Seq::<ScanResult>::empty());
    while i < results.len()
        invariant
            i <= results@.len(),
            all_count(results@) <= u64::MAX,
            bounds == all_bounds(results@.take(i as int)),
            total == all_count(results@.take(i as int)),
        decreases results@.len() - i,
    {
        proof {
            assert(results@.take(i + 1).drop_last() =~= results@.take(i as int));
            assert(results@.take(i + 1).last() == results@[i as int]);
            lemma_all_count_prefix(results@, i + 1);
        }
        bounds.merge(&results[i].bounds);
        total = total + results[i].point_count;
        i = i + 1;
    }
    assert(results@.take(i as int) =~= results@);
    (bounds, total)
}

fn copy_optional(v: &Option<Vec<u8>>) -> (r: Option<Vec<u8>>)
    ensures
        opt_bytes(r) == opt_bytes(*v),
{
    match v {
        Some(b) => Some(copy_bytes(b)),
        None => None,
    }
}

/// The headers that were read are those of the first files.
pub open spec fn headers_read<F: Fn(&String) -> Result<FileHeader, Error>>(
    read: F,
    files: Seq<String>,
    headers: Seq<FileHeader>,
) -> bool {
    &&& headers.len() <= files.len()
    &&& forall|i: int|
        0 <= i < headers.len() ==> #[trigger] read.ensures(
            (&files[i],),
            Ok::<FileHeader, Error>(headers[i]),
        )
}

/// One event for each of the first `n` files.
pub open spec fn file_events(n: nat) -> Seq<ProgressEvent> {
    Seq::new(n, |i: int| ProgressEvent::StageProgress { done: (i + 1) as u64 })
}

/// The scan fails with `e` at the file behind those of `headers`, whose header
/// cannot be read.
pub open spec fn read_fails<F: Fn(&String) -> Result<FileHeader, Error>>(
    read: F,
    files: Seq<String>,
    headers: Seq<FileHeader>,
    e: Error,
) -> bool {
    &&& headers.len() < files.len()
    &&& headers_read(read, files, headers)
    &&& forall|i: int| 0 <= i < headers.len() ==> header_ok(#[trigger] headers[i])
    &&& read.ensures((&files[headers.len() as int],), Err::<FileHeader, Error>(e))
}

/// The scan fails with `e` at the last of the files of `headers`, whose Extra
/// Bytes record is malformed.
pub open spec fn record_fails<F: Fn(&String) -> Result<FileHeader, Error>>(
    read: F,
    files: Seq<String>,
    headers: Seq<FileHeader>,
    e: Error,
) -> bool {
    &&& headers.len() > 0
    &&& headers_read(read, files, headers)
    &&& forall|i: int| 0 <= i < headers.len() - 1 ==> header_ok(#[trigger] headers[i])
    &&& !header_ok(headers.last())
    &&& e@ == bad_record_error(headers.last(), files[headers.len() - 1]@)
}

impl OctreeBuilder {
    /// Scans all input files: `read` reads the header of each. The observer
    /// receives an event for every header that was read. Fails at the first file
    /// whose header cannot be read or whose Extra Bytes record is malformed.
    pub fn scan<P: ProgressObserver, F: Fn(&String) -> Result<FileHeader, Error>>(
        input_files: &Vec<String>,
        config: &mut PipelineConfig<P>,
        read: &F,
    ) -> (r: Result<ScanOutput, Error>)
        requires
            forall|f: &String| #[trigger] read.requires((f,)),
        ensures
            match r {
                Ok(out) => {
                    &&& told(*old(config), *final(config), file_events(input_files@.len()))
                    &&& exists|headers: Seq<FileHeader>|
                        {
                            &&& #[trigger] scan_matches(headers, out)
                            &&& headers.len() == input_files@.len()
                            &&& headers_read(*read, input_files@, headers)
                        }
                },
                Err(e) => exists|headers: Seq<FileHeader>|
                    {
                        &&& told(*old(config), *final(config), #[trigger] file_events(headers.len()))
                        &&& read_fails(*read, input_files@, headers, e) || record_fails(
                            *read,
                            input_files@,
                            headers,
                            e,
                        )
                    },
            },
    {
        let ghost before = *config;
        let ghost mut headers: Seq<FileHeader> = Seq::empty();
        let mut out = ScanOutput::new();
        let mut i: usize = 0;
        proof {
            assert(file_events(0) =~= Seq::<ProgressEvent>::empty());
            if before.progress is Some {
                assert(events_of(before.progress) + file_events(0) =~= events_of(before.progress));
            }
        }
        while i < input_files.len()
            invariant
                forall|f: &String| #[trigger] read.requires((f,)),
                i <= input_files@.len(),
                headers.len() == i,
                headers_read(*read, input_files@, headers),
                forall|k: int| 0 <= k < headers.len() ==> header_ok(#[trigger] headers[k]),
                scan_matches(headers, out),
                told(before, *config, file_events(i as nat)),
                before == *old(config),
            decreases input_files@.len() - i,
        {
            let file = &input_files[i];
            let h = read(file);
            match h {
                Err(e) => {
                    assert(read_fails(*read, input_files@, headers, e));
                    return Err(e);
                },
                Ok(header) => {
                    let ghost so_far = *config;
                    config.report(ProgressEvent::StageProgress { done: i as u64 + 1 });
                    let ghost more = headers.push(header);
                    proof {
                        let event = ProgressEvent::StageProgress { done: (i + 1) as u64 };
                        lemma_told(
                            before,
                            so_far,
                            *config,
                            file_events(i as nat),
                            seq![event],
                        );
                        assert(file_events(i as nat) + seq![event] =~= file_events((i + 1) as nat));
                        assert forall|k: int| 0 <= k < more.len() implies #[trigger] read.ensures(
                            (&input_files@[k],),
                            Ok::<FileHeader, Error>(more[k]),
                        ) by {
                            if k < headers.len() {
                                assert(more[k] == headers[k]);
                            }
                        }
                    }
                    match out.add_header(&header) {
                        Ok(_) => {},
                        Err(b) => {
                            let e = malformed_record(file, b.length, Ghost(header));
                            proof {
                                assert(more.last() == header);
                                assert forall|k: int| 0 <= k < more.len() - 1 implies header_ok(
                                    #[trigger] more[k],
                                ) by {
                                    assert(more[k] == headers[k]);
                                }
                                assert(record_fails(*read, input_files@, more, e));
                            }
                            return Err(e);
                        },
                    }
                    proof {
                        assert forall|k: int| 0 <= k < more.len() implies header_ok(
                            #[trigger] more[k],
                        ) by {
                            if k < headers.len() {
                                assert(more[k] == headers[k]);
                            }
                        }
                        headers = more;
                    }
                },
            }
            i = i + 1;
        }
        Ok(out)
    }

    /// Makes a builder from the scan results. `cube` is the root voxel that was
    /// derived from their bounds.
    pub fn from_scan<P>(
        scan_results: &Vec<ScanResult>,
        validated: &ValidatedInputs,
        config: &PipelineConfig<P>,
        cube: Cube,
        tmp_dir: String,
    ) -> (b: OctreeBuilder)
        requires
            scan_results@.len() > 0,
            all_count(scan_results@) <= u64::MAX,
        ensures
            b.bounds == all_bounds(scan_results@),
            b.total_points == all_count(scan_results@),
            b.cube == cube,
            b.scale == scan_results@[0].scale,
            b.offset == scan_results@[0].offset,
            b.tmp_dir@ == tmp_dir@,
            opt_bytes(b.wkt_crs) == opt_bytes(validated.wkt_crs),
            opt_bytes(b.extra_bytes_vlr) == opt_bytes(validated.extra_bytes_vlr),
            b.num_extra_bytes == validated.num_extra_bytes,
            b.point_format == validated.point_format,
            b.chunked_plan is None,
            b.temp_compression == config.temp_compression,
            b.node_storage == config.node_storage,
    {
        let (bounds, total_points) = merge_results(scan_results);
        OctreeBuilder {
            bounds,
            total_points,
            cube,
            scale: scan_results[0].scale,
            offset: scan_results[0].offset,
            tmp_dir,
            wkt_crs: copy_optional(&validated.wkt_crs),
            extra_bytes_vlr: copy_optional(&validated.extra_bytes_vlr),
            num_extra_bytes: validated.num_extra_bytes,
            point_format: validated.point_format,
            chunked_plan: None,
            temp_compression: config.temp_compression,
            node_storage: config.node_storage,
        }
    }
}

/// The error for a file whose Extra Bytes record is malformed.
pub open spec fn bad_record_error(h: FileHeader, file: Seq<char>) -> ErrorView {
    let length = match extra_bytes_from(h.vlrs@, 0) {
        Some(p) => p.len(),
        None => 0,
    };
    ErrorView::Internal(
        "parsing Extra Bytes VLR in "@ + quoted(file) + ": Extra Bytes VLR payload length "@
            + decimal(length) + " is not a multiple of 192"@,
    )
}

/// The error for a file whose Extra Bytes record has the given length.
fn malformed_record(file: &String, length: usize, header: Ghost<FileHeader>) -> (e: Error)
    requires
        extra_bytes_from(header@.vlrs@, 0) matches Some(p) && length == p.len(),
    ensures
        e@ == bad_record_error(header@, file@),
{
    let mut m = String::new();
    push_text(&mut m, "parsing Extra Bytes VLR in ");
    let name = quote(file.as_str());
    push_text(&mut m, name.as_str());
    push_text(&mut m, ": Extra Bytes VLR payload length ");
    push_decimal(&mut m, length as u64);
    push_text(&mut m, " is not a multiple of 192");
    assert(m@ =~= bad_record_error(header@, file@)->Internal_0);
    Error::Internal(m)
}

/// Pipeline stage: input files have been scanned.
#[derive(Debug)]
pub struct Scanned(());

/// Pipeline stage: inputs have been validated.
#[derive(Debug)]
pub struct Validated(());

/// Pipeline stage: points have been distributed to leaf voxels.
#[derive(Debug)]
pub struct Distributed(());

/// Pipeline stage: octree has been built with LOD thinning.
#[derive(Debug)]
pub struct Built(());

/// Type-safe conversion pipeline. Each stage exposes only the next step.
#[verifier::reject_recursive_types(S)]
pub struct Pipeline<S, P> {
    pub inner: PipelineInner<P>,
    pub stage: PhantomData<S>,
}

/// What the pipeline carries from stage to stage.
pub struct PipelineInner<P> {
    pub input_files: Vec<String>,
    pub config: PipelineConfig<P>,
    pub scan_results: Vec<ScanResult>,
    pub canonical_wkt: Option<Vec<u8>>,
    pub canonical_extra_bytes_vlr: Option<Vec<u8>>,
    pub validated: Option<ValidatedInputs>,
    pub builder: Option<OctreeBuilder>,
    pub node_keys: Option<Vec<Counted>>,
}

/// A stage's name and its number of work units.
pub open spec fn stage_start(name: &'static str, total: u64) -> ProgressEvent {
    ProgressEvent::StageStart { name, total }
}

/// The events of a scan of `n` files.
pub open spec fn scan_events(n: nat) -> Seq<ProgressEvent> {
    seq![stage_start("Scanning", n as u64)] + file_events(n) + seq![ProgressEvent::StageDone]
}

impl<P: ProgressObserver> Pipeline<Scanned, P> {
    /// Scans the input files: `read` reads the header of each. The stage has one
    /// work unit per file.
    pub fn scan<F: Fn(&String) -> Result<FileHeader, Error>>(
        input_files: Vec<String>,
        config: PipelineConfig<P>,
        read: F,
    ) -> (r: Result<Pipeline<Scanned, P>, Error>)
        requires
            forall|f: &String| #[trigger] read.requires((f,)),
        ensures
            match r {
                Ok(p) => {
                    &&& exists|headers: Seq<FileHeader>|
                        {
                            &&& #[trigger] headers_read(read, input_files@, headers)
                            &&& headers.len() == input_files@.len()
                            &&& scan_matches(
                                headers,
                                ScanOutput {
                                    results: p.inner.scan_results,
                                    canonical_wkt: p.inner.canonical_wkt,
                                    canonical_extra_bytes_vlr: p.inner.canonical_extra_bytes_vlr,
                                },
                            )
                        }
                    &&& p.inner.input_files@ == input_files@
                    &&& told(config, p.inner.config, scan_events(input_files@.len()))
                },
                Err(e) => exists|headers: Seq<FileHeader>|
                    {
                        ||| #[trigger] read_fails(read, input_files@, headers, e)
                        ||| record_fails(read, input_files@, headers, e)
                    },
            },
    {
        let ghost given = config;
        let mut config = config;
        config.report(
            ProgressEvent::StageStart { name: "Scanning", total: input_files.len() as u64 },
        );
        let ghost started = config;
        match OctreeBuilder::scan(&input_files, &mut config, &read) {
            Err(e) => {
                proof {
                    let headers = choose|headers: Seq<FileHeader>|
                        {
                            &&& told(started, config, #[trigger] file_events(headers.len()))
                            &&& read_fails(read, input_files@, headers, e) || record_fails(
                                read,
                                input_files@,
                                headers,
                                e,
                            )
                        };
                    assert(read_fails(read, input_files@, headers, e) || record_fails(
                        read,
                        input_files@,
                        headers,
                        e,
                    ));
                }
                Err(e)
            },
            Ok(out) => {
                let ghost scanned_all = config;
                config.report(ProgressEvent::StageDone);
                let ghost headers = choose|headers: Seq<FileHeader>|
                    {
                        &&& #[trigger] scan_matches(headers, out)
                        &&& headers.len() == input_files@.len()
                        &&& headers_read(read, input_files@, headers)
                    };
                proof {
                    let n = input_files@.len();
                    let start = stage_start("Scanning", n as u64);
                    lemma_told(given, started, scanned_all, seq![start], file_events(n));
                    lemma_told(
                        given,
                        scanned_all,
                        config,
                        seq![start] + file_events(n),
                        seq![ProgressEvent::StageDone],
                    );
                    assert(headers_read(read, input_files@, headers));
                }
                let p = Pipeline {
                    inner: PipelineInner {
                        input_files,
                        config,
                        scan_results: out.results,
                        canonical_wkt: out.canonical_wkt,
                        canonical_extra_bytes_vlr: out.canonical_extra_bytes_vlr,
                        validated: None,
                        builder: None,
                        node_keys: None,
                    },
                    stage: PhantomData,
                };
                assert(scan_matches(
                    headers,
                    ScanOutput {
                        results: p.inner.scan_results,
                        canonical_wkt: p.inner.canonical_wkt,
                        canonical_extra_bytes_vlr: p.inner.canonical_extra_bytes_vlr,
                    },
                ));
                Ok(p)
            },
        }
    }

    /// Validates that all input files are consistent.
    pub fn validate(self) -> (r: Result<Pipeline<Validated, P>, Error>)
        requires
            0 < self.inner.scan_results@.len() <= self.inner.input_files@.len(),
            results_wf(self.inner.scan_results@),
        ensures
            ({
                let results = self.inner.scan_results@;
                let wkt = opt_bytes(self.inner.canonical_wkt);
                let error = input_error(
                    self.inner.input_files@,
                    results,
                    wkt,
                    self.inner.config.temporal_index,
                );
                match r {
                    Ok(p) => {
                        &&& error is None
                        &&& p.inner.validated matches Some(v) && {
                            &&& opt_bytes(v.wkt_crs) == output_wkt(results, wkt)
                            &&& opt_bytes(v.extra_bytes_vlr) == output_extras(
                                results,
                                opt_bytes(self.inner.canonical_extra_bytes_vlr),
                            )
                            &&& v.num_extra_bytes == results[extras_index_from(
                                results,
                                0,
                            )].num_extra_bytes
                            &&& v.point_format == copc_format(results[0].point_format_id)
                        }
                        &&& p.inner.input_files == self.inner.input_files
                        &&& p.inner.scan_results == self.inner.scan_results
                        &&& p.inner.config == self.inner.config
                    },
                    Err(e) => error == Some(e@),
                }
            }),
    {
        let PipelineInner {
            input_files,
            config,
            scan_results,
            canonical_wkt,
            canonical_extra_bytes_vlr,
            validated,
            builder,
            node_keys,
        } = self.inner;
        match validate(
            &input_files,
            &scan_results,
            canonical_wkt,
            canonical_extra_bytes_vlr,
            config.temporal_index,
        ) {
            Err(e) => Err(e),
            Ok(v) => Ok(
                Pipeline {
                    inner: PipelineInner {
                        input_files,
                        config,
                        scan_results,
                        canonical_wkt: None,
                        canonical_extra_bytes_vlr: None,
                        validated: Some(v),
                        builder,
                        node_keys,
                    },
                    stage: PhantomData,
                },
            ),
        }
    }
}

impl<P: ProgressObserver> Pipeline<Validated, P> {
    /// Plans the chunks without going on: `plan` counts the points of the input
    /// files and makes the plan.
    pub fn analyze_chunking<
        F: FnOnce(&Vec<String>, &Vec<ScanResult>, &ValidatedInputs) -> Result<ChunkPlan, Error>,
    >(&self, plan: F) -> (r: Result<ChunkPlan, Error>)
        requires
            self.inner.validated is Some,
            self.inner.validated matches Some(v) ==> plan.requires(
                (&self.inner.input_files, &self.inner.scan_results, &v),
            ),
        ensures
            self.inner.validated matches Some(v) ==> plan.ensures(
                (&self.inner.input_files, &self.inner.scan_results, &v),
                r,
            ),
    {
        match &self.inner.validated {
            Some(v) => plan(&self.inner.input_files, &self.inner.scan_results, v),
            None => Err(Error::Internal("not validated".to_owned())),
        }
    }

    /// Distributes all points to chunks: `prepare` makes the builder, `count`
    /// counts the points and plans the chunks, and `spread` writes the chunk
    /// files. Counting and distributing are stages of their own, with one work
    /// unit per point; in between, `count` and `spread` have the configuration
    /// to report with.
    pub fn distribute<
        A: FnOnce(&Vec<String>, &Vec<ScanResult>, &ValidatedInputs, &PipelineConfig<P>) -> Result<
            OctreeBuilder,
            Error,
        >,
        C: FnOnce(&Vec<String>, &OctreeBuilder, PipelineConfig<P>) -> (
            PipelineConfig<P>,
            Result<ChunkPlan, Error>,
        ),
        D: FnOnce(&Vec<String>, &OctreeBuilder, &ChunkPlan, PipelineConfig<P>) -> (
            PipelineConfig<P>,
            Result<(), Error>,
        ),
    >(self, prepare: A, count: C, spread: D) -> (r: Result<Pipeline<Distributed, P>, Error>)
        requires
            self.inner.validated is Some,
            self.inner.validated matches Some(v) ==> prepare.requires(
                (&self.inner.input_files, &self.inner.scan_results, &v, &self.inner.config),
            ),
            forall|b: &OctreeBuilder, c: PipelineConfig<P>| #[trigger]
                count.requires((&self.inner.input_files, b, c)),
            forall|b: &OctreeBuilder, p: &ChunkPlan, c: PipelineConfig<P>| #[trigger]
                spread.requires((&self.inner.input_files, b, p, c)),
        ensures
            match r {
                Ok(p) => {
                    &&& exists|run: DistributeRun<P>| #[trigger]
                        planned_by(self.inner, prepare, count, run) && spread.ensures(
                            (&self.inner.input_files, &run.builder, &run.plan, run.spreading),
                            (run.spread, Ok::<(), Error>(())),
                        ) && p.inner.builder == Some(
                            OctreeBuilder { chunked_plan: Some(run.plan), ..run.builder },
                        ) && told(run.spread, p.inner.config, seq![ProgressEvent::StageDone])
                    &&& p.inner.input_files == self.inner.input_files
                    &&& p.inner.scan_results == self.inner.scan_results
                },
                Err(e) => {
                    ||| prepare.ensures(
                        (
                            &self.inner.input_files,
                            &self.inner.scan_results,
                            &self.inner.validated->0,
                            &self.inner.config,
                        ),
                        Err::<OctreeBuilder, Error>(e),
                    )
                    ||| exists|b: OctreeBuilder, c: PipelineConfig<P>, d: PipelineConfig<P>|
                        {
                            &&& prepared_by(self.inner, prepare, b)
                            &&& told(
                                self.inner.config,
                                c,
                                seq![stage_start("Counting", b.total_points)],
                            )
                            &&& #[trigger] count.ensures(
                                (&self.inner.input_files, &b, c),
                                (d, Err::<ChunkPlan, Error>(e)),
                            )
                        }
                    ||| exists|run: DistributeRun<P>| #[trigger]
                        planned_by(self.inner, prepare, count, run) && spread.ensures(
                            (&self.inner.input_files, &run.builder, &run.plan, run.spreading),
                            (run.spread, Err::<(), Error>(e)),
                        )
                },
            },
    {
        let ghost inner = self.inner;
        let PipelineInner {
            input_files,
            config,
            scan_results,
            canonical_wkt,
            canonical_extra_bytes_vlr,
            validated,
            builder: _,
            node_keys,
        } = self.inner;
        let made = match &validated {
            Some(v) => prepare(&input_files, &scan_results, v, &config),
            None => Err(Error::Internal("not validated".to_owned())),
        };
        let b = match made {
            Err(e) => {
                return Err(e);
            },
            Ok(b) => b,
        };
        assert(prepared_by(inner, prepare, b));
        let ghost given = config;
        let mut config = config;
        config.report(ProgressEvent::StageStart { name: "Counting", total: b.total_points });
        let ghost counting = config;
        let (counted, planned) = count(&input_files, &b, config);
        let mut config = counted;
        let plan = match planned {
            Err(e) => {
                assert(count.ensures(
                    (&input_files, &b, counting),
                    (counted, Err::<ChunkPlan, Error>(e)),
                ));
                return Err(e);
            },
            Ok(plan) => plan,
        };
        config.report(ProgressEvent::StageDone);
        let ghost between = config;
        config.report(ProgressEvent::StageStart { name: "Distributing", total: b.total_points });
        let ghost spreading = config;
        let (spread_config, result) = spread(&input_files, &b, &plan, config);
        let ghost run = DistributeRun {
            builder: b,
            counting,
            counted,
            plan,
            spreading,
            spread: spread_config,
        };
        proof {
            let start = stage_start("Distributing", b.total_points);
            lemma_told(counted, between, spreading, seq![ProgressEvent::StageDone], seq![start]);
            assert(seq![ProgressEvent::StageDone] + seq![start] =~= seq![
                ProgressEvent::StageDone,
                start,
            ]);
            assert(planned_by(inner, prepare, count, run));
        }
        let mut config = spread_config;
        match result {
            Err(e) => Err(e),
            Ok(unit) => {
                assert(unit == ());
                config.report(ProgressEvent::StageDone);
                let mut b = b;
                b.chunked_plan = Some(plan);
                assert(b == (OctreeBuilder { chunked_plan: Some(run.plan), ..run.builder }));
                Ok(
                    Pipeline {
                        inner: PipelineInner {
                            input_files,
                            config,
                            scan_results,
                            canonical_wkt,
                            canonical_extra_bytes_vlr,
                            validated,
                            builder: Some(b),
                            node_keys,
                        },
                        stage: PhantomData,
                    },
                )
            },
        }
    }
}

/// What happens between the stages of the distribution: the builder, the
/// configuration before and behind the counting, the plan, and the configuration
/// before and behind the distribution.
pub struct DistributeRun<P> {
    pub builder: OctreeBuilder,
    pub counting: PipelineConfig<P>,
    pub counted: PipelineConfig<P>,
    pub plan: ChunkPlan,
    pub spreading: PipelineConfig<P>,
    pub spread: PipelineConfig<P>,
}

/// `prepare` made the builder.
pub open spec fn prepared_by<
    P,
    A: FnOnce(&Vec<String>, &Vec<ScanResult>, &ValidatedInputs, &PipelineConfig<P>) -> Result<
        OctreeBuilder,
        Error,
    >,
>(inner: PipelineInner<P>, prepare: A, b: OctreeBuilder) -> bool {
    prepare.ensures(
        (&inner.input_files, &inner.scan_results, &inner.validated->0, &inner.config),
        Ok::<OctreeBuilder, Error>(b),
    )
}

/// `prepare` made the builder, the counting began, `count` made the plan, the
/// counting ended, and the distribution began.
pub open spec fn planned_by<
    P: ProgressObserver,
    A: FnOnce(&Vec<String>, &Vec<ScanResult>, &ValidatedInputs, &PipelineConfig<P>) -> Result<
        OctreeBuilder,
        Error,
    >,
    C: FnOnce(&Vec<String>, &OctreeBuilder, PipelineConfig<P>) -> (
        PipelineConfig<P>,
        Result<ChunkPlan, Error>,
    ),
>(inner: PipelineInner<P>, prepare: A, count: C, run: DistributeRun<P>) -> bool {
    let total = run.builder.total_points;
    &&& prepared_by(inner, prepare, run.builder)
    &&& told(inner.config, run.counting, seq![stage_start("Counting", total)])
    &&& count.ensures(
        (&inner.input_files, &run.builder, run.counting),
        (run.counted, Ok::<ChunkPlan, Error>(run.plan)),
    )
    &&& told(
        run.counted,
        run.spreading,
        seq![ProgressEvent::StageDone, stage_start("Distributing", total)],
    )
}

/// The mismatch that the chunk plan of a builder found.
pub open spec fn mismatch_of(b: Option<OctreeBuilder>) -> Option<HeaderBoundsMismatch> {
    match b {
        Some(x) => match x.chunked_plan {
            Some(p) => p.header_mismatch,
            None => None,
        },
        None => None,
    }
}

impl<P: ProgressObserver> Pipeline<Distributed, P> {
    /// Header-vs-data bounds mismatch detected during the counting pass, if any.
    pub fn header_bounds_mismatch(&self) -> (r: Option<HeaderBoundsMismatch>)
        ensures
            r == mismatch_of(self.inner.builder),
    {
        match &self.inner.builder {
            Some(b) => match &b.chunked_plan {
                Some(p) => p.header_mismatch,
                None => None,
            },
            None => None,
        }
    }

    /// Builds the octree's node map: `run` builds the chunks and merges them. The
    /// stage has one work unit per chunk. Where there are no chunks, there are no
    /// nodes, and no stage.
    pub fn build<
        F: FnOnce(&OctreeBuilder, &ChunkPlan, PipelineConfig<P>) -> (
            PipelineConfig<P>,
            Result<Vec<Counted>, Error>,
        ),
    >(self, run: F) -> (r: Result<Pipeline<Built, P>, Error>)
        requires
            self.inner.builder is Some,
            forall|b: &OctreeBuilder, p: &ChunkPlan, c: PipelineConfig<P>| #[trigger]
                run.requires((b, p, c)),
        ensures
            match self.inner.builder->0.chunked_plan {
                None => r matches Err(e) && e@ == no_plan_error(),
                Some(plan) => {
                    if plan.chunks@.len() == 0 {
                        &&& r matches Ok(p)
                        &&& (r->Ok_0).inner.builder == self.inner.builder
                        &&& (r->Ok_0).inner.config == self.inner.config
                        &&& (r->Ok_0).inner.node_keys matches Some(n) && n@.len() == 0
                    } else {
                        exists|c: PipelineConfig<P>, d: PipelineConfig<P>,
                            n: Result<Vec<Counted>, Error>|
                            {
                                &&& told(
                                    self.inner.config,
                                    c,
                                    seq![stage_start("Building", plan.chunks@.len() as u64)],
                                )
                                &&& #[trigger] run.ensures(
                                    (&self.inner.builder->0, &plan, c),
                                    (d, n),
                                )
                                &&& match r {
                                    Ok(p) => {
                                        &&& n is Ok
                                        &&& p.inner.node_keys == Some(n->Ok_0)
                                        &&& p.inner.builder == self.inner.builder
                                        &&& told(d, p.inner.config, seq![ProgressEvent::StageDone])
                                    },
                                    Err(e) => n == Err::<Vec<Counted>, Error>(e),
                                }
                            }
                    }
                },
            },
    {
        let inner = self.inner;
        let ghost given = inner;
        let PipelineInner {
            input_files,
            config,
            scan_results,
            canonical_wkt,
            canonical_extra_bytes_vlr,
            validated,
            builder,
            node_keys: _,
        } = inner;
        let mut config = config;
        let mut keys: Vec<Counted> = Vec::new();
        match &builder {
            Some(b) => match &b.chunked_plan {
                Some(plan) => {
                    if plan.chunks.len() > 0 {
                        config.report(
                            ProgressEvent::StageStart {
                                name: "Building",
                                total: plan.chunks.len() as u64,
                            },
                        );
                        let ghost building = config;
                        let (built, result) = run(b, plan, config);
                        assert(run.ensures((b, plan, building), (built, result)));
                        config = built;
                        match result {
                            Err(e) => {
                                return Err(e);
                            },
                            Ok(n) => {
                                keys = n;
                            },
                        }
                        config.report(ProgressEvent::StageDone);
                    }
                },
                None => {
                    return Err(Error::Internal("build_node_map called without a chunk plan".to_owned()));
                },
            },
            None => {
                return Err(Error::Internal("not distributed".to_owned()));
            },
        }
        Ok(
            Pipeline {
                inner: PipelineInner {
                    input_files,
                    config,
                    scan_results,
                    canonical_wkt,
                    canonical_extra_bytes_vlr,
                    validated,
                    builder,
                    node_keys: Some(keys),
                },
                stage: PhantomData,
            },
        )
    }
}

/// The error where build_node_map called without a chunk plan.
pub open spec fn no_plan_error() -> ErrorView {
    ErrorView::Internal("build_node_map called without a chunk plan"@)
}

/// How many nodes hold points.
pub open spec fn filled_count(nodes: Seq<Counted>) -> nat
    decreases nodes.len(),
{
    if nodes.len() == 0 {
        0
    } else {
        filled_count(nodes.drop_last()) + if nodes.last().1 > 0 {
            1nat
        } else {
            0nat
        }
    }
}

fn count_filled(nodes: &Vec<Counted>) -> (n: u64)
    ensures
        n == filled_count(nodes@),
{
    let mut n: u64 = 0;
    let mut i: usize = 0;
    assert(nodes@.take(0) =~= Seq::<Counted>::empty());
    while i < nodes.len()
        invariant
            i <= nodes@.len(),
            n <= i,
            n == filled_count(nodes@.take(i as int)),
        decreases nodes@.len() - i,
    {
        assert(nodes@.take(i + 1).drop_last() =~= nodes@.take(i as int));
        assert(nodes@.take(i + 1).last() == nodes@[i as int]);
        if nodes[i].1 > 0 {
            n = n + 1;
        }
        i = i + 1;
    }
    assert(nodes@.take(i as int) =~= nodes@);
    n
}

/// The number of points of all nodes, where 64 bits can hold it.
fn checked_count(nodes: &Vec<Counted>) -> (n: Option<u64>)
    ensures
        match n {
            Some(v) => v == total_count(nodes@),
            None => total_count(nodes@) > u64::MAX,
        },
{
    let mut n: u64 = 0;
    let mut i: usize = 0;
    assert(nodes@.take(0) =~= Seq::<Counted>::empty());
    while i < nodes.len()
        invariant
            i <= nodes@.len(),
            n == total_count(nodes@.take(i as int)),
        decreases nodes@.len() - i,
    {
        proof {
            assert(nodes@.take(i + 1).drop_last() =~= nodes@.take(i as int));
            assert(nodes@.take(i + 1).last() == nodes@[i as int]);
            lemma_total_count_prefix(nodes@, i + 1);
        }
        if nodes[i].1 > u64::MAX - n {
            return None;
        }
        n = n + nodes[i].1;
        i = i + 1;
    }
    assert(nodes@.take(i as int) =~= nodes@);
    Some(n)
}

/// The state in which the writing of a builder's nodes begins.
pub open spec fn first_write<P>(
    b: OctreeBuilder,
    nodes: Seq<Counted>,
    config: PipelineConfig<P>,
) -> WriteState {
    begun_writing(
        data_nodes(by_key(nodes)),
        b.point_format,
        b.num_extra_bytes,
        config.memory_budget,
        config.temporal_index,
    )
}

/// The events of the writing: one per batch, between the start and the end.
pub open spec fn write_events(nodes: Seq<Counted>, batches: Seq<Seq<usize>>) -> Seq<
    ProgressEvent,
> {
    seq![stage_start("Writing", filled_count(nodes) as u64)] + batch_events(batches, batches.len())
        + seq![ProgressEvent::StageDone]
}

impl<P: ProgressObserver> Pipeline<Built, P> {
    /// Writes the COPC file: `open` makes the file and writes what stands before
    /// the chunks, `encode` encodes the nodes of a batch, `compress` compresses
    /// and writes their chunks, and `close` writes the rest. `open` and `close`
    /// get the nodes in the order of their keys. The stage has one work unit per
    /// node that holds points. Returns the configuration with what the observer
    /// received.
    pub fn write<
        A: FnOnce(&OctreeBuilder, &Vec<Counted>) -> Result<(), Error>,
        E: Fn(&Vec<Counted>) -> Result<Vec<EncodedNode>, Error>,
        C: Fn(Vec<Vec<u8>>) -> Result<(), Error>,
        D: FnOnce(&OctreeBuilder, &Vec<Counted>, NodeWriter) -> Result<(), Error>,
    >(self, open: A, encode: E, compress: C, close: D) -> (r: Result<PipelineConfig<P>, Error>)
        requires
            self.inner.builder is Some,
            self.inner.node_keys is Some,
            forall|b: &OctreeBuilder, n: &Vec<Counted>| #[trigger] open.requires((b, n)),
            forall|n: &Vec<Counted>| #[trigger] encode.requires((n,)),
            forall|c: Vec<Vec<u8>>| #[trigger] compress.requires((c,)),
            forall|b: &OctreeBuilder, n: &Vec<Counted>, w: NodeWriter| #[trigger]
                close.requires((b, n, w)),
        ensures
            ({
                let b = self.inner.builder->0;
                let nodes = self.inner.node_keys->0@;
                let first = first_write(b, nodes, self.inner.config);
                match r {
                    Ok(c) => {
                        &&& told(self.inner.config, c, write_events(nodes, first.batches))
                        &&& exists|ordered: Vec<Counted>, w: NodeWriter, steps: Seq<Step>|
                            {
                                &&& ordered@ == by_key(nodes)
                                &&& open.ensures((&b, &ordered), Ok::<(), Error>(()))
                                &&& #[trigger] steps_lead(encode, compress, first, steps, w.state())
                                &&& w.wf()
                                &&& w.state().next == w.state().batches.len()
                                &&& #[trigger] close.ensures(
                                    (&b, &ordered, w),
                                    Ok::<(), Error>(()),
                                )
                            }
                    },
                    Err(e) => {
                        ||| total_count(first.data) > u64::MAX && e@ == too_many_points()
                        ||| exists|ordered: Vec<Counted>|
                            ordered@ == by_key(nodes) && #[trigger] open.ensures(
                                (&b, &ordered),
                                Err::<(), Error>(e),
                            )
                        ||| exists|steps: Seq<Step>, s: WriteState|
                            {
                                &&& #[trigger] steps_lead(encode, compress, first, steps, s)
                                &&& s.next < s.batches.len()
                                &&& batch_fails(encode, compress, s, e)
                            }
                        ||| exists|ordered: Vec<Counted>, w: NodeWriter, steps: Seq<Step>|
                            {
                                &&& ordered@ == by_key(nodes)
                                &&& #[trigger] steps_lead(encode, compress, first, steps, w.state())
                                &&& w.state().next == w.state().batches.len()
                                &&& #[trigger] close.ensures(
                                    (&b, &ordered, w),
                                    Err::<(), Error>(e),
                                )
                            }
                    },
                }
            }),
    {
        let PipelineInner {
            input_files,
            config,
            scan_results,
            canonical_wkt,
            canonical_extra_bytes_vlr,
            validated,
            builder,
            node_keys,
        } = self.inner;
        let ghost given = config;
        let mut config = config;
        match (builder, node_keys) {
            (Some(b), Some(n)) => {
                let total: u64 = count_filled(&n);
                config.report(ProgressEvent::StageStart { name: "Writing", total });
                let ghost started = config;
                let ordered = order_nodes(&n);
                let data = select_data_nodes(&ordered);
                let ghost first = first_write(b, n@, given);
                if checked_count(&data).is_none() {
                    return Err(Error::Internal("the nodes hold too many points".to_owned()));
                }
                let opened = open(&b, &ordered);
                match opened {
                    Err(e) => {
                        assert(open.ensures((&b, &ordered), Err::<(), Error>(e)));
                        return Err(e);
                    },
                    Ok(unit) => {
                        assert(unit == ());
                    },
                }
                let writer = NodeWriter::new(
                    data,
                    b.point_format,
                    b.num_extra_bytes,
                    config.memory_budget,
                    config.temporal_index,
                );
                assert(writer.state() == first);
                let w = match write_nodes(writer, &mut config, &encode, &compress) {
                    Err(e) => {
                        return Err(e);
                    },
                    Ok(w) => w,
                };
                let ghost written = config;
                let ghost steps = choose|steps: Seq<Step>| #[trigger]
                    steps_lead(encode, compress, first, steps, w.state());
                let ghost last = w;
                let closed = close(&b, &ordered, w);
                match closed {
                    Err(e) => {
                        proof {
                            assert(steps_lead(encode, compress, first, steps, last.state()));
                            assert(close.ensures((&b, &ordered, last), Err::<(), Error>(e)));
                        }
                        Err(e)
                    },
                    Ok(unit) => {
                        config.report(ProgressEvent::StageDone);
                        proof {
                            assert(unit == ());
                            assert(steps_lead(encode, compress, first, steps, last.state()));
                            assert(close.ensures((&b, &ordered, last), Ok::<(), Error>(())));
                            let start = stage_start("Writing", filled_count(n@) as u64);
                            let events = batch_events(first.batches, first.batches.len());
                            lemma_told(given, started, written, seq![start], events);
                            lemma_told(
                                given,
                                written,
                                config,
                                seq![start] + events,
                                seq![ProgressEvent::StageDone],
                            );
                        }
                        Ok(config)
                    },
                }
            },
            _ => Err(Error::Internal("not built".to_owned())),
        }
    }
}

} // verus!
