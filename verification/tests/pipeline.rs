use copc_converter::config::ProgressEvent;
use copc_converter::encode::encode_node;
use copc_converter::distribute::{
    chunk_canonical_path, chunk_shard_path, chunked_distribute_worker_count, partition_batch,
    per_worker_open_files, read_chunk_size, worker_files, workers_for, CacheAction,
    ChunkWriterCache,
};
use copc_converter::fbits::{equal, larger, less, smaller};
use copc_converter::inputs::DirFile;
use copc_converter::key::VoxelKey;
use copc_converter::memory::{
    detect_available_memory, parse_group_limit, parse_meminfo, parse_number, parse_old_group_limit,
};
use copc_converter::pipeline::{merge_results, Cube, OctreeBuilder};
use copc_converter::point::RawPoint;
use copc_converter::progress::{
    BarAction, BarProgress, JsonProgress, PlainProgress, ProgressRecord, StderrProgress,
};
use copc_converter::scan::{scan_header, Bounds, FileHeader, ScanOutput, ScanResult, Vlr};
use copc_converter::units::{
    human_bytes, human_count, parse_count, parse_memory_limit, short_bytes, trim,
};
use copc_converter::validate::ValidatedInputs;
use copc_converter::{
    collect_input_files, ChunkPlan, Distributed, Error, Forward, HeaderBoundsMismatch,
    NodeStorage, Pipeline, PipelineConfig, PlannedChunk, ProgressLog, ProgressObserver, Scanned,
    TempCompression,
};
use std::cell::{Cell, RefCell};
use std::rc::Rc;

fn point(x: i32) -> RawPoint {
    RawPoint {
        x,
        y: 0,
        z: 0,
        intensity: 0,
        return_number: 1,
        number_of_returns: 1,
        classification: 0,
        scan_angle: 0,
        user_data: 0,
        point_source_id: 0,
        gps_time: 0,
        red: 0,
        green: 0,
        blue: 0,
        nir: 0,
        extras: Vec::new(),
    }
}

fn show(bits: u64) -> String {
    format!("{:?}", f64::from_bits(bits))
}

fn ratio(n: u64, divisor: u64, decimals: u32) -> String {
    format!("{:.*}", decimals as usize, n as f64 / divisor as f64)
}

fn scaled(number: &str, unit: u64) -> Option<u64> {
    number.parse::<f64>().ok().map(|v| (v * unit as f64) as u64)
}

fn header(lo: f64, hi: f64, count: u64) -> FileHeader {
    FileHeader {
        bounds_min: [lo.to_bits(); 3],
        bounds_max: [hi.to_bits(); 3],
        point_count: count,
        scale: [0.01f64.to_bits(); 3],
        offset: [0.5f64.to_bits(); 3],
        wkt: None,
        geo: None,
        vlrs: Vec::new(),
        num_extra_bytes: 0,
        point_format_id: 7,
    }
}

fn config(observer: ProgressLog) -> PipelineConfig<ProgressLog> {
    PipelineConfig {
        memory_budget: 1 << 30,
        temp_dir: None,
        temporal_index: None,
        progress: Some(observer),
        chunk_target_override: None,
        temp_compression: TempCompression::Lz4,
        node_storage: NodeStorage::Packed,
    }
}

#[test]
fn doubles_are_compared_by_value() {
    let b = f64::to_bits;
    assert!(less(b(-1.0), b(2.0)) && !less(b(2.0), b(2.0)) && !less(b(f64::NAN), b(1.0)));
    assert!(less(b(-3.0), b(-2.0)) && less(b(1e-300), b(1e300)));
    assert!(equal(b(0.0), b(-0.0)) && !equal(b(f64::NAN), b(f64::NAN)));
    assert_eq!(smaller(b(3.0), b(-4.0)), b(-4.0));
    assert_eq!(larger(b(3.0), b(-4.0)), b(3.0));
    assert_eq!(smaller(b(5.0), b(f64::NAN)), b(5.0));
    assert_eq!(smaller(b(0.0), b(-0.0)), b(0.0));
    assert_eq!(larger(b(5.0), b(f64::NAN)), b(5.0));
}

#[test]
fn bounds_hold_what_they_were_expanded_with() {
    let mut b = Bounds::empty();
    b.expand_with(1.0f64.to_bits(), 2.0f64.to_bits(), 3.0f64.to_bits());
    b.expand_with((-1.0f64).to_bits(), 5.0f64.to_bits(), 3.0f64.to_bits());
    assert_eq!((f64::from_bits(b.min_x), f64::from_bits(b.max_x)), (-1.0, 1.0));
    assert_eq!((f64::from_bits(b.min_y), f64::from_bits(b.max_y)), (2.0, 5.0));
    assert_eq!((f64::from_bits(b.min_z), f64::from_bits(b.max_z)), (3.0, 3.0));
    let mut all = Bounds::empty();
    all.merge(&b);
    assert_eq!(all, b);
}

#[test]
fn headers_become_scan_results() {
    let mut h = header(-1.0, 4.0, 12);
    let mut field = vec![0u8; 192];
    field[2] = 3;
    h.vlrs = vec![
        Vlr { user_id: "other".to_string(), record_id: 4, data: vec![1] },
        Vlr { user_id: "LASF_Spec".to_string(), record_id: 4, data: field.clone() },
    ];
    h.num_extra_bytes = 2;
    h.wkt = Some(b"W".to_vec());
    let (r, extras) = scan_header(&h).unwrap();
    assert_eq!((r.point_count, r.num_extra_bytes, r.point_format_id), (12, 2, 7));
    assert_eq!(f64::from_bits(r.bounds.min_x), -1.0);
    assert_eq!(f64::from_bits(r.bounds.max_z), 4.0);
    assert_eq!(extras, Some(field.clone()));
    assert_eq!(r.extra_bytes_parsed.unwrap().fields[0].data_type, 3);
    let mut out = ScanOutput::new();
    assert!(out.add_header(&header(0.0, 1.0, 1)).is_ok());
    assert!(out.add_header(&h).is_ok());
    assert!(out.add_header(&header(0.0, 1.0, 1)).is_ok());
    assert_eq!(out.results.len(), 3);
    assert_eq!(out.canonical_wkt, Some(b"W".to_vec()));
    assert_eq!(out.canonical_extra_bytes_vlr, Some(field));
}

#[test]
fn malformed_extra_bytes_name_the_file() {
    let bad = || {
        let mut h = header(0.0, 1.0, 1);
        h.vlrs =
            vec![Vlr { user_id: "LASF_Spec".to_string(), record_id: 4, data: vec![0u8; 193] }];
        h
    };
    assert_eq!(scan_header(&bad()).unwrap_err().length, 193);
    assert_eq!(ScanOutput::new().add_header(&bad()).unwrap_err().length, 193);
    let files = vec!["a.las".to_string(), "b.las".to_string(), "c.las".to_string()];
    let mut c = config(ProgressLog { received: Vec::new() });
    let read = |f: &String| Ok(if f == "b.las" { bad() } else { header(0.0, 1.0, 1) });
    let e = OctreeBuilder::scan(&files, &mut c, &read).unwrap_err();
    assert_eq!(
        e.text(&show),
        "parsing Extra Bytes VLR in \"b.las\": Extra Bytes VLR payload length 193 is not a \
         multiple of 192"
    );
    assert_eq!(shown(&c.progress.unwrap().received), vec!["done 1", "done 2"]);
}

fn shown(events: &[ProgressEvent]) -> Vec<String> {
    events
        .iter()
        .map(|e| match e {
            ProgressEvent::StageStart { name, total } => format!("{name} of {total}"),
            ProgressEvent::StageProgress { done } => format!("done {done}"),
            ProgressEvent::StageDone => "end".to_string(),
        })
        .collect()
}

#[test]
fn results_are_merged() {
    let (a, _) = scan_header(&header(-1.0, 4.0, 12)).unwrap();
    let (b, _) = scan_header(&header(0.0, 9.0, 30)).unwrap();
    let (bounds, total) = merge_results(&vec![a, b]);
    assert_eq!(total, 42);
    assert_eq!((f64::from_bits(bounds.min_y), f64::from_bits(bounds.max_y)), (-1.0, 9.0));
}

fn chunk(level: u32, count: u64) -> PlannedChunk {
    PlannedChunk { level, gx: 0, gy: 0, gz: 0, point_count: count }
}

fn plan(chunks: Vec<PlannedChunk>, mismatch: Option<HeaderBoundsMismatch>) -> ChunkPlan {
    ChunkPlan {
        grid_size: 128,
        grid_depth: 7,
        chunk_target: 10,
        total_points: 5,
        chunks,
        header_mismatch: mismatch,
    }
}

const CUBE: Cube = Cube { center_x: 1, center_y: 2, center_z: 3, halfsize: 4 };

fn two_files() -> Vec<String> {
    vec!["a.las".to_string(), "b.las".to_string()]
}

fn scanned() -> Pipeline<Scanned, ProgressLog> {
    let log = ProgressLog { received: Vec::new() };
    Pipeline::scan(two_files(), config(log), |f: &String| {
        Ok(header(0.0, 8.0, if f == "a.las" { 2 } else { 3 }))
    })
    .unwrap()
}

fn distributed(chunks: Vec<PlannedChunk>) -> Pipeline<Distributed, ProgressLog> {
    scanned()
        .validate()
        .unwrap()
        .distribute(
            |_, results, v, c| {
                Ok(OctreeBuilder::from_scan(results, v, c, CUBE, "tmp".to_string()))
            },
            |_, _, c| (c, Ok(plan(chunks, None))),
            |_, _, _, c| (c, Ok(())),
        )
        .unwrap()
}

#[test]
fn stages_run_in_order_and_report() {
    let p = scanned().validate().unwrap();
    let preview = p.analyze_chunking(|_, results, v| {
        assert_eq!((results[0].point_count, v.point_format), (2, 7));
        Ok(plan(Vec::new(), None))
    });
    assert_eq!(preview.unwrap().grid_size, 128);
    let mismatch = HeaderBoundsMismatch {
        min_x: Some((1, 2)),
        max_x: None,
        min_y: None,
        max_y: None,
        min_z: None,
        max_z: None,
    };
    let p = p
        .distribute(
            |_, results, v, c| {
                Ok(OctreeBuilder::from_scan(results, v, c, CUBE, "tmp".to_string()))
            },
            |files, b, mut c| {
                assert_eq!((files.len(), b.total_points), (2, 5));
                c.report(ProgressEvent::StageProgress { done: 5 });
                (c, Ok(plan(vec![chunk(0, 5)], Some(mismatch))))
            },
            |_, b, plan, mut c| {
                assert!(b.chunked_plan.is_none());
                assert_eq!(plan.chunks.len(), 1);
                c.report(ProgressEvent::StageProgress { done: 4 });
                (c, Ok(()))
            },
        )
        .unwrap();
    assert_eq!(p.header_bounds_mismatch(), Some(mismatch));
    let root = VoxelKey::root();
    let below = VoxelKey { level: 1, x: 0, y: 0, z: 0 };
    let empty = VoxelKey { level: 1, x: 1, y: 0, z: 0 };
    let p = p
        .build(|b, plan, mut c| {
            assert_eq!((b.cube, b.total_points, b.point_format), (CUBE, 5, 7));
            assert_eq!(b.node_storage, NodeStorage::Packed);
            assert_eq!(plan.chunks.len(), 1);
            c.report(ProgressEvent::StageProgress { done: 1 });
            (c, Ok(vec![(below, 3), (root, 2), (empty, 0)]))
        })
        .unwrap();
    let calls: RefCell<Vec<String>> = RefCell::new(Vec::new());
    let back = p
        .write(
            |b, nodes| {
                assert_eq!(b.tmp_dir, "tmp");
                assert_eq!(nodes, &vec![(root, 2), (below, 3), (empty, 0)]);
                calls.borrow_mut().push("open".to_string());
                Ok(())
            },
            |nodes| {
                assert_eq!(nodes, &vec![(root, 2), (below, 3)]);
                let stored = |n: u64| (0..n as i32).map(point).collect::<Vec<RawPoint>>();
                Ok(nodes.iter().map(|n| encode_node(&stored(n.1), 7, None)).collect())
            },
            |chunks| {
                assert_eq!(
                    chunks.iter().map(|c| c.len()).collect::<Vec<usize>>(),
                    vec![2 * 36, 3 * 36]
                );
                calls.borrow_mut().push("compress".to_string());
                Ok(())
            },
            |_, nodes, writer| {
                assert_eq!((nodes.len(), writer.written()), (3, 2));
                let (totals, index) = writer.finish();
                assert_eq!(totals.return_counts[0], 5);
                assert!(index.is_none());
                calls.borrow_mut().push("close".to_string());
                Ok(())
            },
        )
        .unwrap();
    assert_eq!(*calls.borrow(), vec!["open", "compress", "close"]);
    assert_eq!(
        shown(&back.progress.unwrap().received),
        vec![
            "Scanning of 2",
            "done 1",
            "done 2",
            "end",
            "Counting of 5",
            "done 5",
            "end",
            "Distributing of 5",
            "done 4",
            "end",
            "Building of 1",
            "done 1",
            "end",
            "Writing of 2",
            "done 2",
            "end",
        ]
    );
}

#[test]
fn no_files_are_scanned_too() {
    let log = ProgressLog { received: Vec::new() };
    let p = Pipeline::scan(Vec::new(), config(log), |_: &String| {
        Err(Error::Internal("there is no file".to_string()))
    })
    .unwrap();
    assert!(p.inner.scan_results.is_empty());
    let received = p.inner.config.progress.unwrap().received;
    assert_eq!(shown(&received), vec!["Scanning of 0", "end"]);
}

#[test]
fn without_chunks_nothing_is_built() {
    let p = distributed(Vec::new())
        .build(|_, _, c| (c, Err(Error::Internal("called".to_string()))))
        .unwrap();
    assert_eq!(p.inner.node_keys, Some(Vec::new()));
    let received = p.inner.config.progress.as_ref().unwrap().received.len();
    assert_eq!(received, 8);
    let mut p = distributed(vec![chunk(0, 5)]);
    if let Some(b) = &mut p.inner.builder {
        b.chunked_plan = None;
    }
    let e = p.build(|_, _, c| (c, Ok(Vec::new()))).err().unwrap();
    assert_eq!(e.text(&show), "build_node_map called without a chunk plan");
}

fn is_failure<T>(r: Result<T, Error>, text: &str) -> bool {
    matches!(r, Err(Error::Internal(m)) if m == text)
}

fn failure(text: &str) -> Error {
    Error::Internal(text.to_string())
}

#[test]
fn errors_of_a_stage_are_handed_on() {
    let log = ProgressLog { received: Vec::new() };
    let asked = Cell::new(0);
    let r = Pipeline::scan(two_files(), config(log), |f: &String| {
        asked.set(asked.get() + 1);
        if f == "b.las" {
            Err(failure("no disk"))
        } else {
            Ok(header(0.0, 1.0, 1))
        }
    });
    assert!(is_failure(r, "no disk"));
    assert_eq!(asked.get(), 2);

    let r = scanned().validate().unwrap().distribute(
        |_, _, _, _| Err(failure("no cube")),
        |_, _, c| (c, Ok(plan(Vec::new(), None))),
        |_, _, _, c| (c, Ok(())),
    );
    assert!(is_failure(r, "no cube"));
    let builder = |results: &Vec<ScanResult>, v: &ValidatedInputs, c: &PipelineConfig<ProgressLog>| {
        OctreeBuilder::from_scan(results, v, c, CUBE, "tmp".to_string())
    };
    let r = scanned().validate().unwrap().distribute(
        |_, results, v, c| Ok(builder(results, v, c)),
        |_, _, c| (c, Err(failure("no count"))),
        |_, _, _, c| (c, Ok(())),
    );
    assert!(is_failure(r, "no count"));
    let r = scanned().validate().unwrap().distribute(
        |_, results, v, c| Ok(builder(results, v, c)),
        |_, _, c| (c, Ok(plan(Vec::new(), None))),
        |_, _, _, c| (c, Err(failure("no space"))),
    );
    assert!(is_failure(r, "no space"));
    let r = distributed(vec![chunk(0, 5)]).build(|_, _, c| (c, Err(failure("no memory"))));
    assert!(is_failure(r, "no memory"));

    let root = VoxelKey::root();
    let built = |n: u64| {
        distributed(vec![chunk(0, 5)]).build(|_, _, c| (c, Ok(vec![(root, n)]))).unwrap()
    };
    let encoded = |n: i32| {
        vec![encode_node(&(0..n).map(point).collect::<Vec<RawPoint>>(), 7, None)]
    };
    let r = built(2).write(
        |_, _| Err(failure("no file")),
        |_| Ok(encoded(2)),
        |_| Ok(()),
        |_, _, _| Ok(()),
    );
    assert!(is_failure(r, "no file"));
    let r = built(2).write(
        |_, _| Ok(()),
        |_| Err(failure("no node")),
        |_| Ok(()),
        |_, _, _| Ok(()),
    );
    assert!(is_failure(r, "no node"));
    let r = built(2).write(
        |_, _| Ok(()),
        |_| Ok(encoded(2)),
        |_| Err(failure("no codec")),
        |_, _, _| Ok(()),
    );
    assert!(is_failure(r, "no codec"));
    let r = built(2).write(
        |_, _| Ok(()),
        |_| Ok(encoded(2)),
        |_| Ok(()),
        |_, _, _| Err(failure("no end")),
    );
    assert!(is_failure(r, "no end"));
    let r = built(2).write(|_, _| Ok(()), |_| Ok(Vec::new()), |_| Ok(()), |_, _, _| Ok(()));
    assert!(is_failure(r, "a batch was not encoded node by node"));
    let below = VoxelKey { level: 1, x: 0, y: 0, z: 0 };
    let p = distributed(vec![chunk(0, 5)])
        .build(|_, _, c| (c, Ok(vec![(root, u64::MAX), (below, 1)])))
        .unwrap();
    let r = p.write(|_, _| Ok(()), |_| Ok(encoded(2)), |_| Ok(()), |_, _, _| Ok(()));
    assert!(is_failure(r, "the nodes hold too many points"));
}

#[test]
fn header_counts_what_is_written() {
    let root = VoxelKey::root();
    let below = VoxelKey { level: 1, x: 0, y: 0, z: 0 };
    let built = || {
        distributed(vec![chunk(0, 5)])
            .build(|_, _, c| (c, Ok(vec![(root, 1), (below, 1)])))
            .unwrap()
    };
    // The nodes hold more points than the list says.
    let timed = |times: &[f64]| {
        let points: Vec<RawPoint> = times
            .iter()
            .map(|t| {
                let mut p = point(0);
                p.gps_time = t.to_bits();
                p.return_number = if *t > 2.0 { 2 } else { 1 };
                p
            })
            .collect();
        encode_node(&points, 7, None)
    };
    let r = built().write(
        |_, _| Ok(()),
        |_| Ok(vec![timed(&[2.5, 1.5, 9.0]), timed(&[0.5, 3.0])]),
        |_| Ok(()),
        |_, _, writer| {
            let (totals, _) = writer.finish();
            assert_eq!(totals.return_counts[..3], [2, 3, 0]);
            assert_eq!(f64::from_bits(totals.gps_min), 0.5);
            assert_eq!(f64::from_bits(totals.gps_max), 9.0);
            Ok(())
        },
    );
    assert!(r.is_ok());
    let full = || {
        let mut e = timed(&[1.0]);
        e.return_counts[4] = u64::MAX / 2 + 1;
        e
    };
    let r = built().write(
        |_, _| Ok(()),
        |_| Ok(vec![full(), full()]),
        |_| Ok(()),
        |_, _, _| Ok(()),
    );
    assert!(is_failure(r, "the nodes hold too many points"));
}

#[test]
fn silent_configuration_reports_nothing() {
    let mut c: PipelineConfig<ProgressLog> = config(ProgressLog { received: Vec::new() });
    c.progress = None;
    c.report(ProgressEvent::StageDone);
    assert!(c.progress.is_none());
    let mut log = ProgressLog { received: Vec::new() };
    log.on_progress(ProgressEvent::StageProgress { done: 3 });
    assert_eq!(log.received.len(), 1);
    assert_eq!(TempCompression::default(), TempCompression::Uncompressed);
    assert_eq!(NodeStorage::default(), NodeStorage::Files);
}

#[test]
fn other_observers_are_called() {
    let seen: Rc<RefCell<Vec<ProgressEvent>>> = Rc::new(RefCell::new(Vec::new()));
    let to = Rc::clone(&seen);
    let mut c = PipelineConfig {
        memory_budget: 0,
        temp_dir: None,
        temporal_index: None,
        progress: Some(Forward::new(move |e: ProgressEvent| to.borrow_mut().push(e))),
        chunk_target_override: None,
        temp_compression: TempCompression::Uncompressed,
        node_storage: NodeStorage::Files,
    };
    c.report(ProgressEvent::StageProgress { done: 7 });
    c.report(ProgressEvent::StageDone);
    assert_eq!(shown(&seen.borrow()), vec!["done 7", "end"]);
}

#[test]
fn workers_depend_on_cores_and_files() {
    assert_eq!(workers_for(8, 100), workers_for(8, 1000));
    assert_eq!(workers_for(64, 3), 3);
    assert_eq!(workers_for(1, 0), 1);
    assert_eq!(chunked_distribute_worker_count(1), 1);
    let pool = rayon::ThreadPoolBuilder::new().num_threads(9).build().unwrap();
    assert_eq!(pool.install(|| chunked_distribute_worker_count(100)), 6);
    assert_eq!(per_worker_open_files(4), 128);
    assert_eq!(per_worker_open_files(100), 32);
}

#[test]
fn read_size_is_clamped() {
    assert_eq!(read_chunk_size(1, 1, 0), 50_000);
    assert_eq!(read_chunk_size(u64::MAX, 1, 0), 2_000_000);
    assert_eq!(read_chunk_size(8 * 130 * 100_000 * 2, 2, 10), 100_000);
}

#[test]
fn each_file_has_one_worker() {
    let mut seen = vec![0; 10];
    for w in 0..4 {
        let (start, end) = worker_files(10, 4, w);
        for n in seen.iter_mut().take(end).skip(start) {
            *n += 1;
        }
    }
    assert_eq!(seen, vec![1; 10]);
    assert_eq!(worker_files(10, 4, 0), (0, 3));
}

#[test]
fn chunk_files_are_numbered() {
    assert_eq!(chunk_shard_path(&"s/0".to_string(), 12), "s/0/chunk_12");
    assert_eq!(chunk_canonical_path(&"c".to_string(), 0), "c/chunk_0");
}

#[test]
fn points_go_to_their_chunks() {
    let groups = partition_batch(
        &vec![3, 1, 3, 1, 2],
        &vec![point(0), point(1), point(2), point(3), point(4)],
    );
    let mut shown: Vec<(u32, Vec<i32>)> = groups
        .iter()
        .map(|g| (g.chunk, g.points.iter().map(|p| p.x).collect()))
        .collect();
    shown.sort();
    assert_eq!(shown, vec![(1, vec![1, 3]), (2, vec![4]), (3, vec![0, 2])]);
}

#[test]
fn least_recently_used_file_is_closed() {
    let mut cache = ChunkWriterCache::new(2);
    let opened = |a: CacheAction| match a {
        CacheAction::Open { evicted } => evicted,
        other => panic!("expected Open, got {other:?}"),
    };
    assert!(opened(cache.append(1, 5)).is_empty());
    assert!(opened(cache.append(2, 5)).is_empty());
    assert!(matches!(cache.append(1, 5), CacheAction::Append));
    assert!(matches!(cache.append(7, 0), CacheAction::Nothing));
    assert_eq!(opened(cache.append(3, 5)), vec![2]);
    cache.flush_all();
    assert!(opened(cache.append(1, 1)).is_empty());
}

#[test]
fn directory_listing_is_filtered_and_sorted() {
    let file = |p: &str, e: Option<&str>| DirFile {
        path: p.to_string(),
        extension: e.map(|s| s.to_string()),
    };
    let listing = vec![
        file("d/b.laz", Some("laz")),
        file("d/readme", None),
        file("d/a.LAS", Some("LAS")),
        file("d/c.txt", Some("txt")),
    ];
    let files = collect_input_files("d".to_string(), Some(listing)).unwrap();
    assert_eq!(files, vec!["d/a.LAS", "d/b.laz"]);
    let files = collect_input_files("x.txt".to_string(), None).unwrap();
    assert_eq!(files, vec!["x.txt"]);
    let e = collect_input_files("d".to_string(), Some(Vec::new())).unwrap_err();
    assert!(e.text(&show).contains('d'));
    assert!(matches!(e, Error::NoInputFiles { .. }));
}

#[test]
fn error_texts() {
    let e = Error::PointFormatMismatch {
        file_a: "a.laz".to_string(),
        format_a: 3,
        file_b: "b.laz".to_string(),
        format_b: 7,
    };
    let text = e.text(&show);
    assert_eq!(
        text,
        "Point format mismatch: \"a.laz\" has format 3 but \"b.laz\" has format 7"
    );
    let e = Error::CrsMismatch { file_a: "a\"b".to_string(), file_b: "c\\d".to_string() };
    assert_eq!(
        e.text(&show),
        "CRS mismatch: \"a\\\"b\" has a different WKT CRS than \"c\\\\d\""
    );
    assert_eq!(
        Error::NoGpsTime { format: 2 }.text(&show),
        "Temporal index requested but input point format 2 does not include GPS time"
    );
    assert_eq!(
        Error::NoInputFiles { path: "d".to_string() }.text(&show),
        "No LAZ/LAS files found in \"d\""
    );
    assert!(Error::InvalidTemporalStride { stride: 0 }.text(&show).contains('0'));
    assert_eq!(Error::Internal("boom".to_string()).text(&show), "boom");
}

#[test]
fn sizes_are_parsed() {
    assert_eq!(parse_memory_limit("16G", &scaled), Some(16 << 30));
    assert_eq!(parse_memory_limit(" 1.5 m ", &scaled), Some(1_572_864));
    assert_eq!(parse_memory_limit("512k", &scaled), Some(524_288));
    assert_eq!(parse_memory_limit("77", &scaled), Some(77));
    assert_eq!(parse_memory_limit("", &scaled), None);
    assert_eq!(parse_memory_limit("x", &scaled), None);
    assert_eq!(parse_count("10M", &scaled), Some(10_000_000));
    assert_eq!(parse_count("500K", &scaled), Some(500_000));
    assert_eq!(parse_count("1g", &scaled), Some(1_000_000_000));
    assert_eq!(trim("  a b\t"), "a b");
}

#[test]
fn counts_are_shown_with_units() {
    assert_eq!(human_count(999, 1, &ratio), "999");
    assert_eq!(human_count(1500, 2, &ratio), "1.5K");
    assert_eq!(human_count(2_345_000, 2, &ratio), "2.35M");
    assert_eq!(human_count(3_000_000_000, 1, &ratio), "3.0B");
    assert_eq!(human_bytes(5 << 30, &ratio), "5.00 GB");
    assert_eq!(human_bytes(3 << 20, &ratio), "3 MB");
    assert_eq!(human_bytes(2048, &ratio), "2 KB");
    assert_eq!(short_bytes(5 << 30, &ratio), "5.0 GB");
    assert_eq!(short_bytes((1 << 30) - 1, &ratio), "1024 MB");
    assert_eq!(short_bytes(2048, &ratio), "0 MB");
}

#[test]
fn memory_limits_are_found() {
    assert_eq!(parse_number(" 42"), None);
    assert_eq!(parse_number("42"), Some(42));
    assert_eq!(parse_group_limit("1024\n"), Some(1024));
    assert_eq!(parse_group_limit("max\n"), None);
    assert_eq!(parse_old_group_limit("2048\n"), Some(2048));
    assert_eq!(parse_old_group_limit("9223372036854771712\n"), None);
    let info = "MemFree: 5 kB\nMemTotal:       1000 kB\n";
    assert_eq!(parse_meminfo(info), Some(1000));
    assert_eq!(parse_meminfo("nothing"), None);

    let text = |s: &str| Some(s.to_string());
    assert_eq!(detect_available_memory(&text("7"), &text("8"), &text(info), Some(9)), 7);
    assert_eq!(detect_available_memory(&text("max"), &text("8"), &text(info), Some(9)), 8);
    assert_eq!(detect_available_memory(&None, &None, &text(info), Some(9)), 1_024_000);
    assert_eq!(detect_available_memory(&None, &None, &None, Some(9)), 9);
    assert_eq!(detect_available_memory(&None, &None, &None, None), 16 << 30);
}

#[test]
fn plain_progress_reports_every_ten_percent() {
    let mut p = PlainProgress::new(4);
    let start = ProgressEvent::StageStart { name: "Building", total: 2000 };
    assert!(p.on_progress(start, 0, &ratio).unwrap().contains("Building"));
    assert_eq!(p.stage_total(), 2000);
    let step = |done| ProgressEvent::StageProgress { done };
    let line = p.on_progress(step(300), 15, &ratio).unwrap();
    assert!(line.contains("Building 10% (300/2.0K)"), "{line}");
    assert!(p.on_progress(step(380), 19, &ratio).is_none());
    assert!(p.on_progress(step(400), 20, &ratio).is_some());
    assert!(p.on_progress(ProgressEvent::StageDone, 0, &ratio).unwrap().contains("Building done"));
}

#[test]
fn json_progress_numbers_the_stages() {
    let mut p = JsonProgress::new(4);
    let start = |name| ProgressEvent::StageStart { name, total: 50 };
    p.on_progress(start("Scanning"), 0);
    let r = p.on_progress(start("Building"), 0).unwrap();
    assert!(matches!(
        r,
        ProgressRecord::StageStart { step: 2, total_steps: 4, total_units: 50, .. }
    ));
    let r = p.on_progress(ProgressEvent::StageProgress { done: 25 }, 50).unwrap();
    assert!(matches!(r, ProgressRecord::StageProgress { done: 25, total: 50, .. }));
    assert!(p.on_progress(ProgressEvent::StageProgress { done: 26 }, 52).is_none());
    let r = p.on_progress(ProgressEvent::StageDone, 0).unwrap();
    assert!(matches!(r, ProgressRecord::StageDone { stage, step: 2, .. } if stage == "Building"));
}

#[test]
fn bar_follows_the_stage() {
    let mut p = BarProgress::new(5);
    assert!(matches!(
        p.on_progress(ProgressEvent::StageDone, &ratio),
        BarAction::Nothing
    ));
    let start = ProgressEvent::StageStart { name: "Writing", total: 1500 };
    let BarAction::Start { total, message } = p.on_progress(start, &ratio) else {
        panic!("expected Start");
    };
    assert_eq!((total, message.as_str()), (1500, "[1/5] Writing 0/1.5K"));
    let BarAction::Update { done, message } =
        p.on_progress(ProgressEvent::StageProgress { done: 7 }, &ratio)
    else {
        panic!("expected Update");
    };
    assert_eq!((done, message.as_str()), (7, "[1/5] Writing 7/1.5K"));
    let BarAction::Finish { line } = p.on_progress(ProgressEvent::StageDone, &ratio) else {
        panic!("expected Finish");
    };
    assert_eq!(line, "[1/5] Writing done");
    let spin = ProgressEvent::StageStart { name: "Waiting", total: 0 };
    let BarAction::Start { message, .. } = p.on_progress(spin, &ratio) else {
        panic!("expected Start");
    };
    assert_eq!(message, "[2/5] Waiting");
}

#[test]
fn stage_without_units_reports_no_progress() {
    let mut p = StderrProgress::new();
    p.on_progress(ProgressEvent::StageStart { name: "Counting", total: 0 }, 0, &ratio);
    assert_eq!(p.stage_total(), 0);
    assert!(p.on_progress(ProgressEvent::StageProgress { done: 5 }, 50, &ratio).is_none());
}
