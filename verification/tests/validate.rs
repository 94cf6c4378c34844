use copc_converter::crs::{
    crs_kinds_compatible, crs_of_file, epsg_of_wkt, get_epsg_from_wkt_crs_bytes, wkt_for_epsg,
    CrsKind, GeoKeys,
};
use copc_converter::error::{detail_text, MismatchLine};
use copc_converter::extra_bytes::{bytes_hash, schema_hash, ParsedExtraBytes};
use copc_converter::notes::{validation_notes, Note};
use copc_converter::scan::{Bounds, ScanResult};
use copc_converter::validate::{
    extras_mismatch_error, format_has_gps_time, input_to_copc_format, validate,
};
use copc_converter::Error;

const WGS84_WKT: &[u8] = br#"GEOGCS["WGS 84",DATUM["WGS_1984",SPHEROID["WGS 84",6378137,298.257223563,AUTHORITY["EPSG","7030"]],AUTHORITY["EPSG","6326"]],PRIMEM["Greenwich",0,AUTHORITY["EPSG","8901"]],UNIT["degree",0.0174532925199433,AUTHORITY["EPSG","9122"]],AUTHORITY["EPSG","4326"]]"#;
const EPSG3006_WKT: &[u8] = br#"PROJCRS["SWEREF99 TM",BASEGEOGCRS["SWEREF99",DATUM["SWEREF99",ELLIPSOID["GRS 1980",6378137,298.257222101,LENGTHUNIT["metre",1]]],PRIMEM["Greenwich",0,ANGLEUNIT["degree",0.0174532925199433]],ID["EPSG",4619]],CONVERSION["SWEREF99 TM",METHOD["Transverse Mercator",ID["EPSG",9807]],PARAMETER["Latitude of natural origin",0,ANGLEUNIT["degree",0.0174532925199433],ID["EPSG",8801]],PARAMETER["Longitude of natural origin",15,ANGLEUNIT["degree",0.0174532925199433],ID["EPSG",8802]],PARAMETER["Scale factor at natural origin",0.9996,SCALEUNIT["unity",1],ID["EPSG",8805]],PARAMETER["False easting",500000,LENGTHUNIT["metre",1],ID["EPSG",8806]],PARAMETER["False northing",0,LENGTHUNIT["metre",1],ID["EPSG",8807]]],CS[Cartesian,2],AXIS["northing (N)",north,ORDER[1],LENGTHUNIT["metre",1]],AXIS["easting (E)",east,ORDER[2],LENGTHUNIT["metre",1]],USAGE[SCOPE["Topographic mapping (medium and small scale)."],AREA["Sweden - onshore and offshore."],BBOX[54.96,10.03,69.07,24.17]],ID["EPSG",3006]]"#;

fn render(bits: u64) -> String {
    format!("{:?}", f64::from_bits(bits))
}

fn build_one_field_vlr(
    data_type: u8,
    name: &str,
    min0: f64,
    max0: f64,
) -> (Vec<u8>, ParsedExtraBytes) {
    let mut buf = vec![0u8; 192];
    buf[2] = data_type;
    buf[3] = 0b0000_0110;
    let nm = name.as_bytes();
    buf[4..4 + nm.len()].copy_from_slice(nm);
    buf[64..72].copy_from_slice(&min0.to_le_bytes());
    buf[88..96].copy_from_slice(&max0.to_le_bytes());
    let parsed = ParsedExtraBytes::parse(&buf).unwrap();
    (buf, parsed)
}

fn make_result(crs: Option<CrsKind>, fmt: u8) -> ScanResult {
    ScanResult {
        bounds: Bounds::empty(),
        point_count: 100,
        scale: [0.001f64.to_bits(); 3],
        offset: [0.0f64.to_bits(); 3],
        crs,
        extra_bytes_parsed: None,
        extra_bytes_schema_hash: None,
        num_extra_bytes: 0,
        point_format_id: fmt,
    }
}

fn make_result_with_extras(
    crs: Option<CrsKind>,
    parsed: ParsedExtraBytes,
    num_extra: u16,
    fmt: u8,
) -> ScanResult {
    let hash = schema_hash(&parsed);
    let mut r = make_result(crs, fmt);
    r.extra_bytes_parsed = Some(parsed);
    r.extra_bytes_schema_hash = Some(hash);
    r.num_extra_bytes = num_extra;
    r
}

#[test]
fn validate_single_file() {
    let files = vec!["a.laz".to_string()];
    let results = vec![make_result(None, 3)];
    let v = validate(&files, &results, None, None, None).unwrap();
    assert_eq!(v.point_format, 7);
    assert!(v.wkt_crs.is_none());
    assert!(v.extra_bytes_vlr.is_none());
    assert_eq!(v.num_extra_bytes, 0);
}

#[test]
fn validate_matching_files() {
    let files = vec!["a.laz".to_string(), "b.laz".to_string()];
    let h = bytes_hash(WGS84_WKT);
    let results = vec![
        make_result(Some(CrsKind::WktHash(h)), 8),
        make_result(Some(CrsKind::WktHash(h)), 8),
    ];
    let v = validate(&files, &results, Some(WGS84_WKT.to_vec()), None, None).unwrap();
    assert_eq!(v.point_format, 8);
    assert_eq!(v.wkt_crs.as_deref(), Some(WGS84_WKT));
}

#[test]
fn validate_crs_wkt_and_geotiff() {
    let files = vec!["a.laz".to_string(), "b.laz".to_string()];
    let results = vec![
        make_result(Some(CrsKind::WktHash(bytes_hash(EPSG3006_WKT))), 7),
        make_result(Some(CrsKind::GeoTiffEpsg(3006, None)), 7),
    ];
    let v = validate(&files, &results, Some(EPSG3006_WKT.to_vec()), None, None).unwrap();
    assert_eq!(v.wkt_crs.as_deref(), Some(EPSG3006_WKT));
}

#[test]
fn validate_crs_geotiff_and_wkt() {
    let files = vec!["a.laz".to_string(), "b.laz".to_string()];
    let results = vec![
        make_result(Some(CrsKind::GeoTiffEpsg(3006, None)), 7),
        make_result(Some(CrsKind::WktHash(bytes_hash(EPSG3006_WKT))), 7),
    ];
    // canonical_wkt comes from the WKT file (file 1), even though the
    // GeoTIFF file is listed first.
    let v = validate(&files, &results, Some(EPSG3006_WKT.to_vec()), None, None).unwrap();
    assert_eq!(v.wkt_crs.as_deref(), Some(EPSG3006_WKT));
}

#[test]
fn validate_crs_geotiff_only_translates_via_registry() {
    let files = vec!["a.laz".to_string(), "b.laz".to_string()];
    let results = vec![
        make_result(Some(CrsKind::GeoTiffEpsg(3006, None)), 7),
        make_result(Some(CrsKind::GeoTiffEpsg(3006, None)), 7),
    ];
    let v = validate(&files, &results, None, None, None).unwrap();
    // The registry returns *some* WKT for EPSG:3006; we don't pin
    // the exact bytes (depends on crs-definitions version).
    assert!(v.wkt_crs.is_some());
    let wkt = v.wkt_crs.unwrap();
    assert!(wkt.windows(4).any(|w| w == b"3006"));
}

#[test]
fn validate_crs_mismatch() {
    let files = vec!["a.laz".to_string(), "b.laz".to_string()];
    let results = vec![
        make_result(Some(CrsKind::WktHash(bytes_hash(WGS84_WKT))), 7),
        make_result(Some(CrsKind::WktHash(bytes_hash(EPSG3006_WKT))), 7),
    ];
    let err = validate(&files, &results, Some(WGS84_WKT.to_vec()), None, None).unwrap_err();
    assert!(matches!(err, Error::CrsMismatch { .. }));
}

#[test]
fn validate_format_mismatch() {
    let files = vec!["a.laz".to_string(), "b.laz".to_string()];
    let results = vec![make_result(None, 3), make_result(None, 7)];
    let err = validate(&files, &results, None, None, None).unwrap_err();
    assert!(matches!(err, Error::PointFormatMismatch { .. }));
}

#[test]
fn validate_temporal_index_requires_gps_time() {
    let files = vec!["a.laz".to_string()];
    let results = vec![make_result(None, 0)];
    let err = validate(&files, &results, None, None, Some(1000)).unwrap_err();
    assert!(matches!(err, Error::NoGpsTime { .. }));
}

#[test]
fn validate_temporal_index_with_gps_time() {
    let files = vec!["a.laz".to_string()];
    let results = vec![make_result(None, 1)];
    let v = validate(&files, &results, None, None, Some(1000)).unwrap();
    assert_eq!(v.point_format, 6);
}

#[test]
fn validate_extras_matching_with_identical_stats() {
    let files = vec!["a.laz".to_string(), "b.laz".to_string()];
    let (canonical, parsed_a) = build_one_field_vlr(10, "zNorm", -1.0, 10.0);
    let (_, parsed_b) = build_one_field_vlr(10, "zNorm", -1.0, 10.0);
    let results = vec![
        make_result_with_extras(None, parsed_a, 8, 3),
        make_result_with_extras(None, parsed_b, 8, 3),
    ];
    let v = validate(&files, &results, None, Some(canonical), None).unwrap();
    assert_eq!(v.num_extra_bytes, 8);
    let merged = ParsedExtraBytes::parse(v.extra_bytes_vlr.as_ref().unwrap()).unwrap();
    assert_eq!(f64::from_bits(merged.stats[0].min[0]), -1.0);
    assert_eq!(f64::from_bits(merged.stats[0].max[0]), 10.0);
}

#[test]
fn validate_extras_same_schema_different_stats_is_accepted() {
    let files = vec!["a.laz".to_string(), "b.laz".to_string()];
    let (canonical, parsed_a) = build_one_field_vlr(10, "zNorm", -4.5, 10.0);
    let (_, parsed_b) = build_one_field_vlr(10, "zNorm", -2.0, 24.7);
    let results = vec![
        make_result_with_extras(None, parsed_a, 8, 3),
        make_result_with_extras(None, parsed_b, 8, 3),
    ];
    let v = validate(&files, &results, None, Some(canonical), None).unwrap();
    let merged = ParsedExtraBytes::parse(v.extra_bytes_vlr.as_ref().unwrap()).unwrap();
    // Output stats must be the union: min from a, max from b.
    assert_eq!(f64::from_bits(merged.stats[0].min[0]), -4.5);
    assert_eq!(f64::from_bits(merged.stats[0].max[0]), 24.7);
}

#[test]
fn validate_extras_data_type_mismatch_lists_field() {
    let files = vec!["a.laz".to_string(), "b.laz".to_string()];
    let (canonical, parsed_a) = build_one_field_vlr(3, "treeId", 0.0, 0.0); // u16
    let (_, parsed_b) = build_one_field_vlr(5, "treeId", 0.0, 0.0); // u32
    let results = vec![
        make_result_with_extras(None, parsed_a, 2, 3),
        make_result_with_extras(None, parsed_b, 4, 3),
    ];
    let err = validate(&files, &results, None, Some(canonical), None).unwrap_err();
    let Error::ExtraBytesMismatch {
        file_a,
        file_b,
        detail,
    } = err
    else {
        panic!("expected ExtraBytesMismatch");
    };
    let detail = detail_text(&detail, &render);
    assert_eq!(file_a, "a.laz".to_string());
    assert_eq!(file_b, "b.laz".to_string());
    // Trailing-byte width mismatch (u16 -> 2 bytes, u32 -> 4 bytes)
    // and per-field data_type difference must both be reported.
    assert!(
        detail.contains("trailing-byte width"),
        "expected width line, got:\n{detail}"
    );
    assert!(
        detail.contains("data_type") && detail.contains("treeId"),
        "expected per-field data_type diff for treeId, got:\n{detail}"
    );
    assert!(detail.contains("u16"));
    assert!(detail.contains("u32"));
}

#[test]
fn validate_extras_one_file_lacks_them() {
    let files = vec!["a.laz".to_string(), "b.laz".to_string()];
    let (canonical, parsed_a) = build_one_field_vlr(10, "zNorm", 0.0, 0.0);
    let results = vec![
        make_result_with_extras(None, parsed_a, 8, 3),
        make_result(None, 3), // no extras
    ];
    let err = validate(&files, &results, None, Some(canonical), None).unwrap_err();
    let Error::ExtraBytesMismatch { detail, .. } = err else {
        panic!("expected ExtraBytesMismatch");
    };
    let detail = detail_text(&detail, &render);
    assert!(
        detail.contains("declares an Extra Bytes VLR") && detail.contains("declares none"),
        "expected presence-mismatch line, got:\n{detail}"
    );
}

#[test]
fn validate_extras_lists_all_differences() {
    let files = vec!["a.laz".to_string(), "b.laz".to_string()];
    let (canonical, parsed_a) = build_one_field_vlr(3, "treeId", 0.0, 0.0);
    let (mut other_bytes, _) = build_one_field_vlr(5, "treeId", 0.0, 0.0);
    // Force a description mismatch on top of the data_type mismatch.
    let desc = b"different desc";
    other_bytes[160..160 + desc.len()].copy_from_slice(desc);
    let parsed_b = ParsedExtraBytes::parse(&other_bytes).unwrap();
    let results = vec![
        make_result_with_extras(None, parsed_a, 2, 3),
        make_result_with_extras(None, parsed_b, 4, 3),
    ];
    let err = validate(&files, &results, None, Some(canonical), None).unwrap_err();
    let Error::ExtraBytesMismatch { detail, .. } = err else {
        panic!("expected ExtraBytesMismatch");
    };
    let detail = detail_text(&detail, &render);
    assert!(
        detail.contains("data_type"),
        "missing data_type diff in: {detail}"
    );
    assert!(
        detail.contains("description"),
        "missing description diff in: {detail}"
    );
}

#[test]
fn input_to_copc_format_mapping() {
    assert_eq!(input_to_copc_format(0), 6);
    assert_eq!(input_to_copc_format(1), 6);
    assert_eq!(input_to_copc_format(4), 6);
    assert_eq!(input_to_copc_format(6), 6);
    assert_eq!(input_to_copc_format(9), 6);

    assert_eq!(input_to_copc_format(2), 7);
    assert_eq!(input_to_copc_format(3), 7);
    assert_eq!(input_to_copc_format(5), 7);
    assert_eq!(input_to_copc_format(7), 7);

    assert_eq!(input_to_copc_format(8), 8);
    assert_eq!(input_to_copc_format(10), 8);
}

#[test]
fn only_formats_zero_and_two_lack_gps_time() {
    for fmt in 0..=10u8 {
        assert_eq!(format_has_gps_time(fmt), fmt != 0 && fmt != 2);
    }
}

#[test]
fn temporal_stride_of_zero_is_refused() {
    let files = vec!["a.laz".to_string()];
    let results = vec![make_result(None, 1)];
    let err = validate(&files, &results, None, None, Some(0)).unwrap_err();
    assert!(matches!(err, Error::InvalidTemporalStride { .. }));
}

#[test]
fn missing_gps_time_names_the_format() {
    let files = vec!["a.laz".to_string()];
    let results = vec![make_result(None, 2)];
    let err = validate(&files, &results, None, None, Some(10)).unwrap_err();
    assert!(err.text(&render).contains('2'));
    assert!(validate(&files, &results, None, None, None).is_ok());
}

#[test]
fn width_alone_is_a_mismatch() {
    let (_, a) = build_one_field_vlr(3, "treeId", 0.0, 0.0);
    let (_, b) = build_one_field_vlr(3, "treeId", 0.0, 0.0);
    let ra = make_result_with_extras(None, a, 2, 3);
    let rb = make_result_with_extras(None, b, 4, 3);
    let e = extras_mismatch_error(&"a".to_string(), &"b".to_string(), &ra, &rb);
    let Error::ExtraBytesMismatch { detail, .. } = e else {
        panic!("expected ExtraBytesMismatch");
    };
    assert_eq!(detail.len(), 1);
    assert!(matches!(detail[0], MismatchLine::Width { .. }));
}

#[test]
fn second_file_alone_with_extras_is_a_mismatch() {
    let files = vec!["a.laz".to_string(), "b.laz".to_string()];
    let (canonical, parsed) = build_one_field_vlr(10, "zNorm", 0.0, 0.0);
    let results = vec![make_result(None, 3), make_result_with_extras(None, parsed, 8, 3)];
    let err = validate(&files, &results, None, Some(canonical), None).unwrap_err();
    let Error::ExtraBytesMismatch { detail, .. } = err else {
        panic!("expected ExtraBytesMismatch");
    };
    assert!(detail.iter().any(|l| matches!(l, MismatchLine::OnlyReference)));
    let plain = make_result(None, 3);
    let e = extras_mismatch_error(&files[0], &files[1], &plain, &results[1]);
    let Error::ExtraBytesMismatch { detail, .. } = e else {
        panic!("expected ExtraBytesMismatch");
    };
    assert!(detail.iter().any(|l| matches!(l, MismatchLine::OnlyOther)));
}

#[test]
fn crs_on_one_file_only_is_a_mismatch() {
    let files = vec!["a.laz".to_string(), "b.laz".to_string()];
    let h = bytes_hash(WGS84_WKT);
    let results = vec![make_result(Some(CrsKind::WktHash(h)), 3), make_result(None, 3)];
    let err = validate(&files, &results, Some(WGS84_WKT.to_vec()), None, None).unwrap_err();
    assert!(matches!(err, Error::CrsMismatch { .. }));
    let text = err.text(&render);
    assert!(text.contains("a.laz") && text.contains("b.laz"), "{text}");
}

#[test]
fn epsg_is_read_from_the_end_of_the_text() {
    assert_eq!(get_epsg_from_wkt_crs_bytes(WGS84_WKT), Some((4326, None)));
    assert_eq!(get_epsg_from_wkt_crs_bytes(EPSG3006_WKT), Some((3006, None)));
    assert_eq!(get_epsg_from_wkt_crs_bytes(b"LOCAL_CS[]"), None);
    assert_eq!(get_epsg_from_wkt_crs_bytes(b"X\xFF[ID[\"EPSG\",3006]]"), Some((3006, None)));
    assert_eq!(get_epsg_from_wkt_crs_bytes(b"3006\xFF\xFF\xFF"), None);
    assert_eq!(epsg_of_wkt(b"3006\xFF\xFF\xFF"), Some((3006, None)));
    assert_eq!(
        get_epsg_from_wkt_crs_bytes(b"COMPD[PROJCRS[ID[\"EPSG\",3006]],VERTCRS[ID[\"EPSG\",5613]]]"),
        Some((3006, Some(5613)))
    );
    assert_eq!(get_epsg_from_wkt_crs_bytes(b"[ID[\"EPSG\",1023]]"), None);
    assert_eq!(
        get_epsg_from_wkt_crs_bytes(br#"PROJCS["x",AUTHORITY["EPSG","25832"]]"#),
        Some((25832, None))
    );
    assert_eq!(get_epsg_from_wkt_crs_bytes(br#"X["EPSG","32766"]"#), Some((32766, None)));
    assert_eq!(get_epsg_from_wkt_crs_bytes(br#"X["EPSG","32767"]"#), None);
    assert_eq!(get_epsg_from_wkt_crs_bytes(br#"X["EPSG","91368"]"#), None);
    assert_eq!(epsg_of_wkt(b"X[ID[\"EPSG\",3006]]"), Some((3006, None)));
}

#[test]
fn geotiff_codes_match_by_value() {
    let a = CrsKind::GeoTiffEpsg(3006, None);
    let b = CrsKind::GeoTiffEpsg(3007, None);
    assert!(crs_kinds_compatible(a, a, &None).0);
    assert!(!crs_kinds_compatible(a, b, &None).0);
    let wkt = CrsKind::WktHash(bytes_hash(EPSG3006_WKT));
    let text = Some(EPSG3006_WKT.to_vec());
    assert!(crs_kinds_compatible(a, wkt, &text).0);
    assert!(crs_kinds_compatible(wkt, a, &text).0);
    assert!(!crs_kinds_compatible(wkt, b, &text).0);
}

#[test]
fn five_digit_codes_match_across_formats() {
    let text: &[u8] = br#"PROJCS["x",AUTHORITY["EPSG","25832"]]"#;
    let files = vec!["a.laz".to_string(), "b.laz".to_string()];
    let results = vec![
        make_result(Some(CrsKind::WktHash(bytes_hash(text))), 7),
        make_result(Some(CrsKind::GeoTiffEpsg(25832, None)), 7),
    ];
    let v = validate(&files, &results, Some(text.to_vec()), None, None).unwrap();
    assert_eq!(v.wkt_crs.as_deref(), Some(text));
}

#[test]
fn registry_knows_common_codes() {
    let wkt = wkt_for_epsg(4326).unwrap();
    assert!(wkt.windows(4).any(|w| w == b"4326"));
    assert!(wkt_for_epsg(1).is_none());
}

#[test]
fn wkt_wins_over_geotiff_keys() {
    let geo = Some(GeoKeys {
        model_type: Some(1),
        projected: Some(3006),
        geodetic: Some(4619),
        vertical: None,
    });
    let wkt = Some(WGS84_WKT.to_vec());
    assert_eq!(crs_of_file(&wkt, geo), Some(CrsKind::WktHash(bytes_hash(WGS84_WKT))));
    assert_eq!(crs_of_file(&None, geo), Some(CrsKind::GeoTiffEpsg(3006, None)));
    assert_eq!(crs_of_file(&None, None), None);
}

fn names(n: usize) -> Vec<String> {
    ["a.laz", "b.laz", "c.laz"].iter().take(n).map(|s| s.to_string()).collect()
}

fn note_texts(
    results: &Vec<ScanResult>,
    wkt: Option<&[u8]>,
    vlr: Option<Vec<u8>>,
    temporal_index: Option<u32>,
) -> Vec<String> {
    let wkt = wkt.map(|w| w.to_vec());
    validation_notes(&names(results.len()), results, &wkt, &vlr, temporal_index)
        .iter()
        .map(Note::text)
        .collect()
}

#[test]
fn consistent_files_need_no_note() {
    let crs = Some(CrsKind::WktHash(bytes_hash(WGS84_WKT)));
    let results = vec![make_result(crs, 7), make_result(crs, 7)];
    assert!(note_texts(&results, Some(WGS84_WKT), None, None).is_empty());
    let results = vec![make_result(Some(CrsKind::GeoTiffEpsg(3006, None)), 7)];
    assert!(note_texts(&results, None, None, None).is_empty());
}

#[test]
fn translated_codes_are_noted() {
    let results = vec![make_result(Some(CrsKind::GeoTiffEpsg(3006, Some(5613))), 7)];
    assert_eq!(
        note_texts(&results, None, None, None),
        vec![
            "Translating GeoTIFF CRS (EPSG:3006) to WKT for COPC output; vertical CRS will be \
             dropped"
        ]
    );
    assert!(note_texts(&results, Some(EPSG3006_WKT), None, None).is_empty());
    let results = vec![make_result(Some(CrsKind::GeoTiffEpsg(1, Some(2))), 7)];
    assert_eq!(
        note_texts(&results, None, None, None),
        vec![
            "Translating GeoTIFF CRS (EPSG:1) to WKT for COPC output; vertical CRS will be \
             dropped",
            "GeoTIFF EPSG:1 not found in crs-definitions registry; output COPC will have no CRS",
        ]
    );
}

#[test]
fn other_vertical_parts_are_noted() {
    let with = |v| Some(CrsKind::GeoTiffEpsg(3006, v));
    let wkt = Some(CrsKind::WktHash(bytes_hash(EPSG3006_WKT)));
    let differs = |b: &str| {
        format!("Vertical CRS component differs between \"a.laz\" and \"{b}\"; ignoring it")
    };
    let results = vec![
        make_result(wkt, 7),
        make_result(with(Some(5613)), 7),
        make_result(with(Some(5614)), 7),
    ];
    assert_eq!(
        note_texts(&results, Some(EPSG3006_WKT), None, None),
        vec![differs("b.laz"), differs("c.laz")]
    );
    // A file with another point format is looked at, and those behind it are not.
    let results = vec![
        make_result(wkt, 7),
        make_result(with(Some(5613)), 6),
        make_result(with(Some(5614)), 7),
    ];
    assert_eq!(note_texts(&results, Some(EPSG3006_WKT), None, None), vec![differs("b.laz")]);
    // A file with another reference system is refused without a note.
    let results = vec![
        make_result(wkt, 7),
        make_result(Some(CrsKind::GeoTiffEpsg(3007, None)), 7),
        make_result(with(Some(5614)), 7),
    ];
    assert!(note_texts(&results, Some(EPSG3006_WKT), None, None).is_empty());
}

#[test]
fn statistics_that_cannot_be_merged_are_noted() {
    let (record, parsed) = build_one_field_vlr(10, "zNorm", -1.0, 2.0);
    let results = vec![make_result_with_extras(None, parsed, 8, 7)];
    assert!(note_texts(&results, None, Some(record.clone()), None).is_empty());
    let start = "Could not merge Extra Bytes stats, using reference file's stats as-is: ";
    assert_eq!(
        note_texts(&results, None, Some(vec![0u8; 10]), None),
        vec![format!("{start}canonical VLR length 10 not a multiple of descriptor size")]
    );
    assert_eq!(
        note_texts(&results, None, Some([record.clone(), record].concat()), None),
        vec![format!("{start}stat merge expected 2 fields per file but one has 1")]
    );
    // Inputs that are refused are not merged.
    assert!(note_texts(&results, None, Some(vec![0u8; 10]), Some(0)).is_empty());
    assert!(note_texts(&vec![make_result(None, 7)], None, Some(vec![0u8; 10]), None).is_empty());
}
