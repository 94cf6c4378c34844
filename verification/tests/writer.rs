use copc_converter::encode::{
    encode_node, encode_point, encode_point_base, fit_extras, point_record_length, Totals,
};
use copc_converter::hierarchy::{build_hierarchy_payload, choose_page_boundaries, HierarchyEntry};
use copc_converter::key::VoxelKey;
use copc_converter::node_writer::NodeWriter;
use copc_converter::point::RawPoint;
use copc_converter::temporal::{build_temporal_payload, time_range_of, TemporalIndexEntry};
use copc_converter::writer::{
    build_chunk_info, count_points, file_prefix, laz_vlr_payload, offset_to_point_data,
    order_nodes, placeholder_numbers, select_data_nodes, write_batches, write_copc, write_evlr,
    write_vlr, CopcParams, TemporalIndex,
};

fn sample_point() -> RawPoint {
    RawPoint {
        x: -123456,
        y: 789012,
        z: -1,
        intensity: 65535,
        return_number: 3,
        number_of_returns: 5,
        classification: 6,
        scan_angle: -15000,
        user_data: 42,
        point_source_id: 1001,
        gps_time: 123456789.987654f64.to_bits(),
        red: 255,
        green: 0,
        blue: 65535,
        nir: 32768,
        extras: Vec::new(),
    }
}

#[test]
fn point_record_lengths() {
    assert_eq!(point_record_length(6), 30);
    assert_eq!(point_record_length(7), 36);
    assert_eq!(point_record_length(8), 38);
}

#[test]
fn encode_point_format6_size() {
    let p = sample_point();
    let mut buf = Vec::new();
    encode_point(&p, 6, &mut buf);
    assert_eq!(buf.len(), 30);
}

#[test]
fn encode_point_format7_size() {
    let p = sample_point();
    let mut buf = Vec::new();
    encode_point(&p, 7, &mut buf);
    assert_eq!(buf.len(), 36);
}

#[test]
fn encode_point_format8_size() {
    let p = sample_point();
    let mut buf = Vec::new();
    encode_point(&p, 8, &mut buf);
    assert_eq!(buf.len(), 38);
}

#[test]
fn encode_point_format7_includes_rgb() {
    let p = sample_point();
    let mut buf = Vec::new();
    encode_point(&p, 7, &mut buf);
    let red = u16::from_le_bytes([buf[30], buf[31]]);
    let green = u16::from_le_bytes([buf[32], buf[33]]);
    let blue = u16::from_le_bytes([buf[34], buf[35]]);
    assert_eq!(red, p.red);
    assert_eq!(green, p.green);
    assert_eq!(blue, p.blue);
}

#[test]
fn encode_point_format8_includes_nir() {
    let p = sample_point();
    let mut buf = Vec::new();
    encode_point(&p, 8, &mut buf);
    let nir = u16::from_le_bytes([buf[36], buf[37]]);
    assert_eq!(nir, p.nir);
}

/// The samples that a node with these times gets.
fn sample_gps_times(gps_times: &[f64], stride: u32) -> Vec<f64> {
    let points: Vec<RawPoint> = gps_times
        .iter()
        .map(|t| {
            let mut p = sample_point();
            p.gps_time = t.to_bits();
            p
        })
        .collect();
    let node = encode_node(&points, 6, Some(stride));
    node.samples.iter().map(|&b| f64::from_bits(b)).collect()
}

#[test]
fn temporal_sampling_basic() {
    let times: Vec<f64> = (0..5000).map(|i| i as f64 * 0.1).collect();
    let samples = sample_gps_times(&times, 1000);
    assert_eq!(samples.len(), 6);
    assert_eq!(samples[0], 0.0);
    assert_eq!(samples[5], 4999.0 * 0.1);
}

#[test]
fn temporal_sampling_fewer_than_stride() {
    let times: Vec<f64> = (0..50).map(|i| i as f64).collect();
    let samples = sample_gps_times(&times, 1000);
    assert_eq!(samples.len(), 2);
    assert_eq!(samples[0], 0.0);
    assert_eq!(samples[1], 49.0);
}

#[test]
fn temporal_sampling_single_point() {
    let samples = sample_gps_times(&[42.0], 1000);
    assert_eq!(samples, vec![42.0]);
}

#[test]
fn temporal_sampling_exact_stride() {
    let times: Vec<f64> = (0..1000).map(|i| i as f64).collect();
    let samples = sample_gps_times(&times, 1000);
    assert_eq!(samples.len(), 2);
    assert_eq!(samples[0], 0.0);
    assert_eq!(samples[1], 999.0);
}

#[test]
fn encode_point_format6_matches_base_of_format7() {
    let p = sample_point();
    let mut buf6 = Vec::new();
    let mut buf7 = Vec::new();
    encode_point(&p, 6, &mut buf6);
    encode_point(&p, 7, &mut buf7);
    assert_eq!(buf6[..], buf7[..30], "format 6 must match the first 30 bytes of format 7");
}

fn key(level: i32, x: i32, y: i32, z: i32) -> VoxelKey {
    VoxelKey { level, x, y, z }
}

fn entry(key: VoxelKey, offset: u64, byte_size: i32, point_count: i32) -> HierarchyEntry {
    HierarchyEntry { key, offset, byte_size, point_count }
}

fn i32_at(b: &[u8], at: usize) -> i32 {
    i32::from_le_bytes(b[at..at + 4].try_into().unwrap())
}

fn u16_at(b: &[u8], at: usize) -> u16 {
    u16::from_le_bytes(b[at..at + 2].try_into().unwrap())
}

fn u32_at(b: &[u8], at: usize) -> u32 {
    u32::from_le_bytes(b[at..at + 4].try_into().unwrap())
}

fn u64_at(b: &[u8], at: usize) -> u64 {
    u64::from_le_bytes(b[at..at + 8].try_into().unwrap())
}

fn f64_at(b: &[u8], at: usize) -> f64 {
    f64::from_bits(u64_at(b, at))
}

fn read_page(payload: &[u8], start_of_data: u64, offset: u64, size: u64, out: &mut Vec<HierarchyEntry>) {
    let start = (offset - start_of_data) as usize;
    let end = start + size as usize;
    let page = &payload[start..end];
    assert!(size % 32 == 0, "hierarchy page size must be a multiple of 32");
    for e in page.chunks_exact(32) {
        let k = key(i32_at(e, 0), i32_at(e, 4), i32_at(e, 8), i32_at(e, 12));
        let (entry_offset, entry_size, count) = (u64_at(e, 16), i32_at(e, 24), i32_at(e, 28));
        if count == -1 {
            read_page(payload, start_of_data, entry_offset, entry_size as u64, out);
        } else {
            out.push(entry(k, entry_offset, entry_size, count));
        }
    }
}

/// Every data entry that the page tree holds.
fn collect_hierarchy(payload: &[u8], start: u64, root_off: u64, root_size: u64) -> Vec<HierarchyEntry> {
    let mut out = Vec::new();
    read_page(payload, start, root_off, root_size, &mut out);
    out
}

fn by_key(mut v: Vec<HierarchyEntry>) -> Vec<HierarchyEntry> {
    v.sort_by_key(|e| (e.key.level, e.key.x, e.key.y, e.key.z));
    v
}

#[test]
fn hierarchy_paging_small_tree_stays_flat() {
    let entries = vec![
        entry(key(0, 0, 0, 0), 100, 42, 10),
        entry(key(1, 1, 0, 0), 200, 84, 20),
        entry(key(2, 3, 1, 1), 300, 168, 40),
    ];
    let (payload, root_off, root_size) = build_hierarchy_payload(&entries, 1_000);
    assert_eq!(payload.len() as u64, root_size);
    assert_eq!(root_off, 1_000);

    let decoded = collect_hierarchy(&payload, 1_000, root_off, root_size);
    assert_eq!(decoded.len(), 3);
    assert_eq!(decoded[0].key.level, 0);
    assert_eq!(decoded[2].key.level, 2);
}

#[test]
fn hierarchy_paging_deep_tree_produces_multiple_pages() {
    let mut entries: Vec<HierarchyEntry> = Vec::new();
    for level in 0..=8 {
        let span = 1 << level;
        for x in 0..span.min(3) {
            for y in 0..span.min(3) {
                for z in 0..span.min(3) {
                    let k = key(level, x, y, z);
                    entries.push(entry(k, 100 + entries.len() as u64, 42, 10));
                }
            }
        }
    }
    let n_entries = entries.len();

    let (payload, root_off, root_size) = build_hierarchy_payload(&entries, 10_000);
    assert!(
        payload.len() as u64 > root_size,
        "deep tree must produce a payload larger than the root page alone"
    );

    let decoded = by_key(collect_hierarchy(&payload, 10_000, root_off, root_size));
    let expected = by_key(entries.clone());
    assert_eq!(decoded.len(), n_entries);
    for (a, b) in decoded.iter().zip(expected.iter()) {
        assert_eq!(a.key, b.key, "key mismatch");
        assert_eq!(a.offset, b.offset, "offset mismatch for {:?}", a.key);
        assert_eq!(a.byte_size, b.byte_size, "byte_size mismatch for {:?}", a.key);
        assert_eq!(a.point_count, b.point_count, "point_count mismatch for {:?}", a.key);
    }
}

#[test]
fn hierarchy_paging_empty_input_returns_empty_payload() {
    let (payload, root_off, root_size) = build_hierarchy_payload(&[], 5_000);
    assert!(payload.is_empty());
    assert_eq!(root_off, 5_000);
    assert_eq!(root_size, 0);
}

#[test]
fn hierarchy_paging_boundary_node_lives_in_child_page() {
    let boundary = 3i32;
    let boundary_key = key(boundary, 1, 2, 3);
    let descendant = key(boundary + 1, 2, 5, 6);
    let entries = vec![
        entry(key(0, 0, 0, 0), 100, 42, 10),
        entry(key(1, 0, 0, 0), 200, 42, 10),
        entry(key(2, 0, 1, 1), 300, 42, 10),
        entry(boundary_key, 400, 42, 10),
        entry(descendant, 500, 42, 10),
    ];
    let evlr_data_start = 7_000u64;
    let (payload, root_off, root_size) = build_hierarchy_payload(&entries, evlr_data_start);

    let root_start = (root_off - evlr_data_start) as usize;
    let root_end = root_start + root_size as usize;
    let root_bytes = &payload[root_start..root_end];
    let mut root_regular: Vec<(VoxelKey, i32)> = Vec::new();
    let mut root_pointers: Vec<VoxelKey> = Vec::new();
    for e in root_bytes.chunks_exact(32) {
        let k = key(i32_at(e, 0), i32_at(e, 4), i32_at(e, 8), i32_at(e, 12));
        let point_count = i32_at(e, 28);
        if point_count == -1 {
            root_pointers.push(k);
        } else {
            root_regular.push((k, point_count));
        }
    }
    for (k, _) in &root_regular {
        assert!(k.level < boundary, "root page holds an entry at the boundary level: {k:?}");
    }
    assert!(
        root_pointers.contains(&boundary_key),
        "expected a page pointer for {boundary_key:?}, got {root_pointers:?}"
    );
    assert!(
        !root_regular.iter().any(|(k, _)| *k == boundary_key),
        "boundary node {boundary_key:?} must not be a regular entry of the root page"
    );

    let decoded = by_key(collect_hierarchy(&payload, evlr_data_start, root_off, root_size));
    assert_eq!(decoded, by_key(entries.clone()));
}

#[test]
fn page_boundaries_come_every_three_levels() {
    assert_eq!(choose_page_boundaries(2), Vec::<i32>::new());
    assert_eq!(choose_page_boundaries(4), vec![3]);
    assert_eq!(choose_page_boundaries(9), vec![3, 6]);
}

#[test]
fn format6_base_layout() {
    let mut buf = Vec::new();
    encode_point_base(&sample_point(), &mut buf);
    assert_eq!(i32_at(&buf, 0), -123456);
    assert_eq!(i32_at(&buf, 4), 789012);
    assert_eq!(i32_at(&buf, 8), -1);
    assert_eq!(u16_at(&buf, 12), 65535);
    assert_eq!(buf[14], 0x53);
    assert_eq!(buf[15], 0);
    assert_eq!((buf[16], buf[17]), (6, 42));
    assert_eq!(u16_at(&buf, 18) as i16, -15000);
    assert_eq!(u16_at(&buf, 20), 1001);
    assert_eq!(f64_at(&buf, 22), 123456789.987654);
}

#[test]
fn extras_follow_the_point() {
    let mut p = sample_point();
    p.extras = vec![1, 2, 3];
    let mut buf = vec![9u8];
    encode_point(&p, 7, &mut buf);
    assert_eq!(buf.len(), 1 + 36 + 3);
    assert_eq!(buf[0], 9);
    assert_eq!(buf[37..], [1, 2, 3]);
}

#[test]
fn extras_are_cut_or_padded() {
    assert_eq!(fit_extras(&[1, 2, 3], 2), vec![1, 2]);
    assert_eq!(fit_extras(&[1, 2, 3], 3), vec![1, 2, 3]);
    assert_eq!(fit_extras(&[1], 3), vec![1, 0, 0]);
}

#[test]
fn node_points_are_written_in_time_order() {
    let mut a = sample_point();
    a.gps_time = 5.0f64.to_bits();
    a.x = 1;
    a.return_number = 1;
    let mut b = sample_point();
    b.gps_time = (-2.0f64).to_bits();
    b.x = 2;
    b.return_number = 15;
    let mut c = sample_point();
    c.gps_time = 1.0f64.to_bits();
    c.x = 3;
    c.return_number = 0;
    let e = encode_node(&vec![a, b, c], 6, Some(1));
    assert_eq!(e.bytes.len(), 90);
    assert_eq!(
        (i32_at(&e.bytes, 0), i32_at(&e.bytes, 30), i32_at(&e.bytes, 60)),
        (2, 3, 1)
    );
    let samples: Vec<f64> = e.samples.iter().map(|&b| f64::from_bits(b)).collect();
    assert_eq!(samples, vec![-2.0, 1.0, 5.0]);
    assert_eq!((f64::from_bits(e.gps_min), f64::from_bits(e.gps_max)), (-2.0, 5.0));
    assert_eq!((e.return_counts[0], e.return_counts[14]), (1, 1));
    assert_eq!(e.return_counts.iter().sum::<u64>(), 2);

    let mut totals = Totals::new();
    assert_eq!(totals.gps_range(), (0, 0));
    totals.add_node(&e);
    totals.add_node(&e);
    let (lo, hi) = totals.gps_range();
    assert_eq!((f64::from_bits(lo), f64::from_bits(hi)), (-2.0, 5.0));
    assert_eq!(totals.return_counts[0], 2);
}

#[test]
fn nodes_are_written_batch_by_batch() {
    let data: Vec<(VoxelKey, u64)> = (0..3).map(|i| (key(2, i, 0, 0), 2u64)).collect();
    for stride in [Some(5), None] {
        let mut w = NodeWriter::new(data.clone(), 7, 0, 2 * 2 * 36 * 2, stride);
        let mut seen: Vec<(VoxelKey, u64)> = Vec::new();
        let mut sizes: Vec<usize> = Vec::new();
        loop {
            let batch = w.batch();
            if batch.is_empty() {
                break;
            }
            let encoded = batch
                .iter()
                .map(|_| encode_node(&vec![sample_point(), sample_point()], 7, stride))
                .collect();
            let chunks = w.add(encoded);
            assert!(chunks.iter().all(|c| c.len() == 72));
            sizes.push(chunks.len());
            seen.extend(batch);
        }
        assert_eq!(sizes, vec![2, 1]);
        assert_eq!(seen, data);
        assert_eq!(w.written(), 3);
        let (totals, index) = w.finish();
        assert_eq!(totals.return_counts[2], 6);
        assert_eq!(f64::from_bits(totals.gps_min), 123456789.987654);
        match index {
            Some(t) => {
                assert_eq!(t.stride, 5);
                let keys: Vec<VoxelKey> = t.entries.iter().map(|e| e.key).collect();
                assert_eq!(keys, data.iter().map(|n| n.0).collect::<Vec<_>>());
                assert_eq!(t.entries[0].samples.len(), 2);
            }
            None => assert_eq!(stride, None),
        }
    }
}

#[test]
fn no_stride_means_no_samples() {
    let e = encode_node(&vec![sample_point()], 8, None);
    assert!(e.samples.is_empty());
    assert_eq!(e.bytes.len(), 38);
}

#[test]
fn vlr_headers() {
    let mut out = Vec::new();
    write_vlr(&mut out, "copc", 1, "info", &[7; 10]);
    assert_eq!(out.len(), 54 + 10);
    assert_eq!(&out[2..7], b"copc\0");
    assert_eq!((u16_at(&out, 18), u16_at(&out, 20)), (1, 10));
    assert_eq!(&out[22..27], b"info\0");
    assert_eq!(out[54..], [7; 10]);

    let mut out = Vec::new();
    write_evlr(&mut out, "copc", 1000, "pages", &[8; 3]);
    assert_eq!(out.len(), 60 + 3);
    assert_eq!(&out[2..7], b"copc\0");
    assert_eq!(u16_at(&out, 18), 1000);
    assert_eq!(u64_at(&out, 20), 3);
    assert_eq!(out[60..], [8; 3]);
}

#[test]
fn laz_vlr_describes_layered_points() {
    let plain = laz_vlr_payload(7, 0);
    assert_eq!(u16_at(&plain, 0), 3);
    assert_eq!(u32_at(&plain, 12), u32::MAX);
    let items = u16_at(&plain, 32);
    assert_eq!(plain.len(), 34 + 6 * items as usize);
    assert_eq!(items, 2);
    let mut expected = vec![3, 0, 0, 0, 2, 2, 0, 0, 0, 0, 0, 0];
    expected.extend([0xFF; 20]);
    expected.extend([2, 0, 10, 0, 30, 0, 3, 0, 11, 0, 6, 0, 3, 0]);
    assert_eq!(plain, expected);
    assert_eq!(laz_vlr_payload(6, 0)[32..], [1, 0, 10, 0, 30, 0, 3, 0]);
    assert_eq!(
        laz_vlr_payload(8, 300)[32..],
        [3, 0, 10, 0, 30, 0, 3, 0, 12, 0, 8, 0, 3, 0, 14, 0, 44, 1, 3, 0]
    );
    let with_extras = laz_vlr_payload(7, 12);
    assert_eq!(u16_at(&with_extras, 32), 3);
    assert_eq!(u16_at(&with_extras, 34 + 12 + 2), 12);
}

#[test]
fn nodes_are_ordered_and_empty_ones_dropped() {
    let nodes = vec![(key(1, 1, 0, 0), 5u64), (key(0, 0, 0, 0), 3), (key(1, 0, 0, 0), 0)];
    let ordered = order_nodes(&nodes);
    assert_eq!(
        ordered,
        vec![(key(0, 0, 0, 0), 3), (key(1, 0, 0, 0), 0), (key(1, 1, 0, 0), 5)]
    );
    assert_eq!(select_data_nodes(&ordered), vec![(key(0, 0, 0, 0), 3), (key(1, 1, 0, 0), 5)]);
    assert_eq!(count_points(&nodes), 8);
}

#[test]
fn chunks_lie_one_behind_another() {
    let nodes = vec![(key(0, 0, 0, 0), 3u64), (key(1, 0, 0, 0), 0), (key(1, 1, 0, 0), 5)];
    let info = build_chunk_info(&nodes, &vec![100, 200], 1000);
    let places: Vec<(u64, i32, i32)> =
        info.iter().map(|e| (e.offset, e.byte_size, e.point_count)).collect();
    assert_eq!(places, vec![(1000, 100, 3), (0, 0, 0), (1100, 200, 5)]);
}

#[test]
fn every_node_is_encoded_in_one_batch() {
    let nodes: Vec<(VoxelKey, u64)> = (0..5).map(|i| (key(3, i, 0, 0), 1000u64)).collect();
    let all: Vec<usize> = write_batches(&nodes, 7, 0, 1 << 40).concat();
    assert_eq!(all, vec![0, 1, 2, 3, 4]);
    let tight = write_batches(&nodes, 7, 0, 1);
    assert_eq!(tight.len(), 5);
    assert_eq!(tight.concat(), vec![0, 1, 2, 3, 4]);
}

fn params(extras: bool, wkt: bool, temporal: bool) -> CopcParams {
    CopcParams {
        point_format: 7,
        num_extra_bytes: if extras { 8 } else { 0 },
        scale: [0.01f64.to_bits(); 3],
        offset: [0.0f64.to_bits(); 3],
        min: [1.0, 2.0, 3.0].map(f64::to_bits),
        max: [4.0, 5.0, 6.0].map(f64::to_bits),
        center: [2.5, 3.5, 4.5].map(f64::to_bits),
        halfsize: 2.0f64.to_bits(),
        spacing: (4.0f64 / 128.0).to_bits(),
        laz_vlr: laz_vlr_payload(7, if extras { 8 } else { 0 }),
        extra_bytes_vlr: if extras { Some(vec![0u8; 192]) } else { None },
        wkt_crs: if wkt { Some(b"WKT".to_vec()) } else { None },
        temporal_index: temporal,
    }
}

fn records_in(evlrs: &[u8]) -> u32 {
    let mut at = 0;
    let mut n = 0;
    while at < evlrs.len() {
        at += 60 + u64_at(evlrs, at + 20) as usize;
        n += 1;
    }
    assert_eq!(at, evlrs.len());
    n
}

#[test]
fn whole_file_can_be_walked() {
    let p = params(true, true, true);
    let nodes = vec![(key(0, 0, 0, 0), 2u64), (key(1, 1, 0, 0), 3)];
    let start = offset_to_point_data(&p) as u64;
    assert_eq!(file_prefix(&p, &placeholder_numbers(&nodes)).len() as u64, start);
    let chunk_sizes = vec![50u64, 70];
    let end = start + 8 + 50 + 70 + 33;
    let mut a = sample_point();
    a.extras = vec![0; 8];
    let first = encode_node(&vec![a.clone(), a.clone()], 7, Some(2));
    let second = encode_node(&vec![a.clone(), a.clone(), a.clone()], 7, Some(2));
    let mut totals = Totals::new();
    totals.add_node(&first);
    totals.add_node(&second);
    let index = Some(TemporalIndex {
        stride: 2,
        entries: vec![
            TemporalIndexEntry { key: nodes[0].0, samples: first.samples },
            TemporalIndexEntry { key: nodes[1].0, samples: second.samples },
        ],
    });
    let file = write_copc(&p, &nodes, &chunk_sizes, end, &totals, &index);

    let h = &file.prefix;
    assert_eq!(h.len() as u64, start);
    assert_eq!(&h[0..4], b"LASF");
    assert_eq!((h[24], h[25]), (1, 4));
    assert_eq!(u16_at(h, 94), 375);
    assert_eq!(u32_at(h, 96) as u64, start);
    assert_eq!(u32_at(h, 100), 4);
    assert_eq!(h[104], 7 | 0x80);
    assert_eq!(u16_at(h, 105), 36 + 8);
    assert_eq!(f64_at(h, 131), 0.01);
    assert_eq!((f64_at(h, 179), f64_at(h, 187)), (4.0, 1.0));
    assert_eq!(u64_at(h, 235), end);
    assert_eq!(u32_at(h, 243), 2);
    assert_eq!(u64_at(h, 247), 5);
    assert_eq!(u64_at(h, 255 + 16), 5);

    let info = &h[375 + 54..375 + 54 + 160];
    assert_eq!(&h[377..382], b"copc\0");
    assert_eq!((f64_at(info, 0), f64_at(info, 24), f64_at(info, 32)), (2.5, 2.0, 0.03125));
    let (root_off, root_size) = (u64_at(info, 40), u64_at(info, 48));
    assert_eq!((f64_at(info, 56), f64_at(info, 64)), (123456789.987654, 123456789.987654));

    let entries = collect_hierarchy(&file.evlrs, end, root_off, root_size);
    assert_eq!(
        entries,
        vec![
            entry(nodes[0].0, start + 8, 50, 2),
            entry(nodes[1].0, start + 58, 70, 3),
        ]
    );
    let second_evlr = 60 + u64_at(&file.evlrs, 20) as usize;
    assert_eq!(u16_at(&file.evlrs, second_evlr + 18), 1000);
    assert_eq!(
        file.evlrs.len(),
        second_evlr + 60 + u64_at(&file.evlrs, second_evlr + 20) as usize
    );
    assert_eq!(records_in(&file.evlrs), u32_at(h, 243));
    let t = &file.evlrs[second_evlr + 60..];
    assert_eq!(u32_at(t, 0), 1);
    assert_eq!(u32_at(t, 4), 2);
    assert_eq!(u32_at(t, 8), 2);
}

#[test]
fn optional_records_are_left_out() {
    let all = offset_to_point_data(&params(true, true, false));
    let no_wkt = offset_to_point_data(&params(true, false, false));
    assert_eq!(all - no_wkt, 54 + 3);
    let bare = params(false, false, false);
    let nodes = vec![(key(0, 0, 0, 0), 2u64)];
    let h = file_prefix(&bare, &placeholder_numbers(&nodes));
    assert_eq!(u32_at(&h, 100), 2);
    assert_eq!(u16_at(&h, 105), 36);
    assert_eq!(h.len() as u32, offset_to_point_data(&bare));
}

#[test]
fn temporal_index_is_written_on_demand_only() {
    let p = params(false, false, false);
    let nodes = vec![(key(0, 0, 0, 0), 1u64)];
    let mut totals = Totals::new();
    totals.add_node(&encode_node(&vec![sample_point()], 7, None));
    let end = offset_to_point_data(&p) as u64 + 8 + 40;
    let file = write_copc(&p, &nodes, &vec![40], end, &totals, &None);
    assert_eq!(u32_at(&file.prefix, 243), 1);
    assert_eq!(records_in(&file.evlrs), 1);
    assert_eq!(&file.evlrs[2..7], b"copc\0");
    assert_eq!(file.evlrs.len(), 60 + 32);
}

#[test]
fn deep_temporal_index_is_paged() {
    let mut entries = Vec::new();
    for level in 0..=5 {
        entries.push(TemporalIndexEntry {
            key: key(level, 0, 0, 0),
            samples: vec![(level as f64).to_bits(), (level as f64 + 0.5).to_bits()],
        });
    }
    let t = build_temporal_payload(&entries, 9, 2000);
    assert_eq!(u32_at(&t, 8), 6);
    assert!(u32_at(&t, 12) > 1);
    let root_offset = u64_at(&t, 16);
    let root_size = u32_at(&t, 24) as u64;
    assert!(root_offset >= 2032 && root_offset + root_size <= 2000 + t.len() as u64);
    assert!(root_size < t.len() as u64 - 32);

    let mut at = (root_offset - 2000) as usize;
    let end = at + root_size as usize;
    let mut pointers = Vec::new();
    while at < end {
        let samples = u32_at(&t, at + 16) as usize;
        if samples == 0 {
            pointers.push((i32_at(&t, at), f64_at(&t, at + 32), f64_at(&t, at + 40)));
            at += 48;
        } else {
            at += 20 + 8 * samples;
        }
    }
    assert_eq!(at, end);
    assert_eq!(pointers, vec![(3, 3.0, 5.5)]);
}

#[test]
fn time_range_spans_all_samples() {
    let bits = |v: &[f64]| v.iter().map(|t| t.to_bits()).collect::<Vec<u64>>();
    let entries = vec![
        TemporalIndexEntry { key: key(0, 0, 0, 0), samples: bits(&[1.0, 4.0]) },
        TemporalIndexEntry { key: key(1, 0, 0, 0), samples: bits(&[-3.0, 2.0]) },
    ];
    let (lo, hi) = time_range_of(&entries, &[0, 1]);
    assert_eq!((f64::from_bits(lo), f64::from_bits(hi)), (-3.0, 4.0));
    let (lo, hi) = time_range_of(&entries, &[0]);
    assert_eq!((f64::from_bits(lo), f64::from_bits(hi)), (1.0, 4.0));
}

#[test]
fn temporal_payload_layout() {
    let entries = vec![
        TemporalIndexEntry { key: key(0, 0, 0, 0), samples: vec![1.0f64.to_bits()] },
        TemporalIndexEntry {
            key: key(1, 1, 0, 1),
            samples: vec![2.0f64.to_bits(), 3.0f64.to_bits()],
        },
    ];
    let t = build_temporal_payload(&entries, 7, 500);
    assert_eq!((u32_at(&t, 0), u32_at(&t, 4), u32_at(&t, 8), u32_at(&t, 12)), (1, 7, 2, 1));
    assert_eq!(u64_at(&t, 16), 532);
    assert_eq!(u32_at(&t, 24) as usize, t.len() - 32);
    let page = &t[32..];
    assert_eq!((i32_at(page, 0), u32_at(page, 16), f64_at(page, 20)), (0, 1, 1.0));
    let next = &page[28..];
    assert_eq!((i32_at(next, 0), i32_at(next, 4), i32_at(next, 12)), (1, 1, 1));
    assert_eq!((u32_at(next, 16), f64_at(next, 20), f64_at(next, 28)), (2, 2.0, 3.0));
}
