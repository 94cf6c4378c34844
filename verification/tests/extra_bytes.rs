use copc_converter::extra_bytes::{
    bytes_hash, data_type_name, merge_stats_into_canonical, schema_hash, trim_nul,
    BadDescriptorLength, MergeStatsError, ParsedExtraBytes, DESCRIPTOR_SIZE, OPT_MAX, OPT_MIN,
    OPT_NO_DATA, OPT_OFFSET, OPT_SCALE,
};
use copc_converter::schema_diff::{diff_schemas, field_name_list};

fn render(bits: u64) -> String {
    format!("{:?}", f64::from_bits(bits))
}

fn texts(a: &ParsedExtraBytes, b: &ParsedExtraBytes) -> Vec<String> {
    diff_schemas(a, b).iter().map(|d| d.text(&render)).collect()
}

#[allow(clippy::too_many_arguments)]
fn build_single_field(
    data_type: u8,
    name: &str,
    description: &str,
    options: u8,
    min: [f64; 3],
    max: [f64; 3],
    scale: [f64; 3],
    offset: [f64; 3],
    no_data: [u64; 3],
) -> Vec<u8> {
    let mut buf = vec![0u8; DESCRIPTOR_SIZE];
    buf[2] = data_type;
    buf[3] = options;
    let name_bytes = name.as_bytes();
    let n = name_bytes.len().min(32);
    buf[4..4 + n].copy_from_slice(&name_bytes[..n]);
    let mut off = 40;
    for v in no_data {
        buf[off..off + 8].copy_from_slice(&v.to_le_bytes());
        off += 8;
    }
    for group in [min, max, scale, offset] {
        for v in group {
            buf[off..off + 8].copy_from_slice(&v.to_le_bytes());
            off += 8;
        }
    }
    let desc_bytes = description.as_bytes();
    let dn = desc_bytes.len().min(32);
    buf[160..160 + dn].copy_from_slice(&desc_bytes[..dn]);
    buf
}

fn plain(data_type: u8, name: &str, description: &str) -> Vec<u8> {
    build_single_field(
        data_type, name, description, 0, [0.0; 3], [0.0; 3], [0.0; 3], [0.0; 3], [0; 3],
    )
}

fn ranged(min: f64, max: f64) -> Vec<u8> {
    build_single_field(
        10,
        "zNorm",
        "",
        OPT_MIN | OPT_MAX,
        [min, 0.0, 0.0],
        [max, 0.0, 0.0],
        [0.0; 3],
        [0.0; 3],
        [0; 3],
    )
}

#[test]
fn parse_single_field_round_trip() {
    let payload = build_single_field(
        10,
        "zNorm",
        "height above ground",
        OPT_MIN | OPT_MAX,
        [-4.5, 0.0, 0.0],
        [24.7, 0.0, 0.0],
        [0.0, 0.0, 0.0],
        [0.0, 0.0, 0.0],
        [0, 0, 0],
    );
    let parsed = ParsedExtraBytes::parse(&payload).unwrap();
    assert_eq!(parsed.fields.len(), 1);
    assert_eq!(parsed.fields[0].data_type, 10);
    assert_eq!(parsed.fields[0].name, "zNorm");
    assert_eq!(parsed.fields[0].description, "height above ground");
    assert_eq!(parsed.fields[0].options_structural, 0);
    assert_eq!(f64::from_bits(parsed.stats[0].min[0]), -4.5);
    assert_eq!(f64::from_bits(parsed.stats[0].max[0]), 24.7);
}

#[test]
fn schema_hash_ignores_stats() {
    let a = ranged(-4.5, 24.7);
    let b = ranged(-99.0, 200.0);
    let pa = ParsedExtraBytes::parse(&a).unwrap();
    let pb = ParsedExtraBytes::parse(&b).unwrap();
    assert_eq!(schema_hash(&pa), schema_hash(&pb));
    assert!(diff_schemas(&pa, &pb).is_empty());
}

#[test]
fn diff_reports_data_type_mismatch() {
    let pa = ParsedExtraBytes::parse(&plain(3, "treeId", "")).unwrap();
    let pb = ParsedExtraBytes::parse(&plain(5, "treeId", "")).unwrap();
    let diffs = texts(&pa, &pb);
    assert_eq!(diffs.len(), 1);
    assert!(diffs[0].contains("data_type mismatch"));
    assert!(diffs[0].contains("3 (u16)"));
    assert!(diffs[0].contains("5 (u32)"));
}

#[test]
fn diff_reports_field_count_mismatch() {
    let single = plain(10, "zNorm", "");
    let mut double = single.clone();
    double.extend_from_slice(&plain(1, "semantic", ""));
    let pa = ParsedExtraBytes::parse(&single).unwrap();
    let pb = ParsedExtraBytes::parse(&double).unwrap();
    let diffs = texts(&pa, &pb);
    assert_eq!(diffs.len(), 1);
    assert!(diffs[0].contains("field count differs"));
    assert!(diffs[0].contains("zNorm"));
    assert!(diffs[0].contains("semantic"));
}

#[test]
fn diff_reports_all_field_differences() {
    let mut a = plain(3, "treeId", "id");
    a.extend(plain(10, "zNorm", "z"));
    let mut b = plain(5, "treeId", "id");
    b.extend(plain(10, "zNorm", "z-norm"));
    let pa = ParsedExtraBytes::parse(&a).unwrap();
    let pb = ParsedExtraBytes::parse(&b).unwrap();
    let diffs = texts(&pa, &pb);
    assert!(diffs.iter().any(|d| d.contains("field 0") && d.contains("data_type")));
    assert!(diffs.iter().any(|d| d.contains("field 1") && d.contains("description")));
}

#[test]
fn merge_stats_takes_union() {
    let a = ranged(-4.5, 10.0);
    let b = ranged(-2.0, 24.7);
    let pa = ParsedExtraBytes::parse(&a).unwrap();
    let pb = ParsedExtraBytes::parse(&b).unwrap();

    let mut canonical = a.clone();
    merge_stats_into_canonical(&mut canonical, &vec![&pa, &pb]).unwrap();

    let merged = ParsedExtraBytes::parse(&canonical).unwrap();
    assert_eq!(f64::from_bits(merged.stats[0].min[0]), -4.5);
    assert_eq!(f64::from_bits(merged.stats[0].max[0]), 24.7);
    assert_eq!(merged.stats[0].options_stats & (OPT_MIN | OPT_MAX), OPT_MIN | OPT_MAX);
}

#[test]
fn merge_handles_mixed_stat_presence() {
    let with_stats = ranged(-4.5, 10.0);
    let without_stats = plain(10, "zNorm", "");
    let p1 = ParsedExtraBytes::parse(&with_stats).unwrap();
    let p2 = ParsedExtraBytes::parse(&without_stats).unwrap();

    let mut canonical = without_stats.clone();
    merge_stats_into_canonical(&mut canonical, &vec![&p1, &p2]).unwrap();

    let merged = ParsedExtraBytes::parse(&canonical).unwrap();
    assert_eq!(f64::from_bits(merged.stats[0].min[0]), -4.5);
    assert_eq!(f64::from_bits(merged.stats[0].max[0]), 10.0);
    assert_eq!(merged.stats[0].options_stats & (OPT_MIN | OPT_MAX), OPT_MIN | OPT_MAX);
}

#[test]
fn structural_options_changes_hash() {
    let a = build_single_field(
        10,
        "zNorm",
        "",
        OPT_SCALE,
        [0.0; 3],
        [0.0; 3],
        [0.001, 0.0, 0.0],
        [0.0; 3],
        [0; 3],
    );
    let b = plain(10, "zNorm", "");
    let pa = ParsedExtraBytes::parse(&a).unwrap();
    let pb = ParsedExtraBytes::parse(&b).unwrap();
    assert_ne!(schema_hash(&pa), schema_hash(&pb));
    let diffs = texts(&pa, &pb);
    assert!(
        diffs.iter().any(|d| d.contains("options") || d.contains("scale")),
        "expected diff about options/scale, got {diffs:?}"
    );
}

#[test]
fn payload_must_be_whole_descriptors() {
    let r = ParsedExtraBytes::parse(&[0u8; 100]);
    assert_eq!(r.unwrap_err(), BadDescriptorLength { length: 100 });
    assert_eq!(ParsedExtraBytes::parse(&[]).unwrap().fields.len(), 0);
}

#[test]
fn names_lose_their_trailing_nuls() {
    assert_eq!(trim_nul(b"abc\0\0"), "abc");
    assert_eq!(trim_nul(b"abc"), "abc");
    assert_eq!(trim_nul(b"a\0b\0"), "a\0b");
    assert_eq!(trim_nul(b"\0"), "");
    assert_eq!(trim_nul(b"a\xFFb\0"), "");
    assert_eq!(trim_nul("h\u{f6}he\0".as_bytes()), "h\u{f6}he");
}

#[test]
fn data_types_have_names() {
    let names: Vec<&str> = (0..13).map(data_type_name).collect();
    assert_eq!(names[1], "u8");
    assert_eq!(names[3], "u16");
    assert_eq!(names[5], "u32");
    assert_eq!(names[10], "f64");
    assert_eq!(names[11], names[12]);
}

#[test]
fn descriptor_flags_are_split() {
    let payload = build_single_field(
        9,
        "v",
        "d",
        OPT_NO_DATA | OPT_MIN | OPT_MAX | OPT_SCALE | OPT_OFFSET,
        [1.0, 2.0, 3.0],
        [4.0, 5.0, 6.0],
        [7.0, 8.0, 9.0],
        [10.0, 11.0, 12.0],
        [13, 14, 15],
    );
    let p = ParsedExtraBytes::parse(&payload).unwrap();
    assert_eq!(p.fields[0].options_structural, OPT_SCALE | OPT_OFFSET);
    assert_eq!(p.stats[0].options_stats, OPT_NO_DATA | OPT_MIN | OPT_MAX);
    assert_eq!(p.fields[0].no_data, [13, 14, 15]);
    assert_eq!(p.stats[0].min, [1.0, 2.0, 3.0].map(f64::to_bits));
    assert_eq!(p.stats[0].max, [4.0, 5.0, 6.0].map(f64::to_bits));
    assert_eq!(p.fields[0].scale, [7.0, 8.0, 9.0].map(f64::to_bits));
    assert_eq!(p.fields[0].offset, [10.0, 11.0, 12.0].map(f64::to_bits));
}

#[test]
fn merge_refuses_other_lengths_and_counts() {
    let one = ParsedExtraBytes::parse(&plain(1, "a", "")).unwrap();
    let mut odd = vec![0u8; 10];
    let r = merge_stats_into_canonical(&mut odd, &vec![&one]);
    assert_eq!(r, Err(MergeStatsError::BadLength { length: 10 }));
    let mut two = plain(1, "a", "");
    two.extend(plain(1, "b", ""));
    let before = two.clone();
    let r = merge_stats_into_canonical(&mut two, &vec![&one]);
    assert_eq!(r, Err(MergeStatsError::FieldCount { expected: 2, found: 1 }));
    assert_eq!(two, before);
}

#[test]
fn merge_leaves_the_schema_alone() {
    let a = ranged(-4.5, 10.0);
    let pa = ParsedExtraBytes::parse(&a).unwrap();
    let pb = ParsedExtraBytes::parse(&ranged(f64::NAN, 24.7)).unwrap();
    let mut canonical = a.clone();
    merge_stats_into_canonical(&mut canonical, &vec![&pa, &pb]).unwrap();
    let merged = ParsedExtraBytes::parse(&canonical).unwrap();
    assert_eq!(schema_hash(&merged), schema_hash(&pa));
    assert!(diff_schemas(&merged, &pa).is_empty());
    assert_eq!(f64::from_bits(merged.stats[0].min[0]), -4.5);
    assert_eq!(f64::from_bits(merged.stats[0].max[0]), 24.7);
}

#[test]
fn no_differences_means_the_same_hash() {
    let a = ParsedExtraBytes::parse(&plain(10, "zNorm", "z")).unwrap();
    let b = ParsedExtraBytes::parse(&plain(10, "zNorm", "z")).unwrap();
    assert!(diff_schemas(&a, &b).is_empty());
    assert_eq!(schema_hash(&a), schema_hash(&b));
}

#[test]
fn every_kind_of_difference_has_a_line() {
    let a = ParsedExtraBytes::parse(&plain(10, "z", "d")).unwrap();
    let b = ParsedExtraBytes::parse(&build_single_field(
        1,
        "w",
        "e",
        OPT_SCALE,
        [0.0; 3],
        [0.0; 3],
        [0.5, 0.0, 0.0],
        [1.5, 0.0, 0.0],
        [1, 0, 0],
    ))
    .unwrap();
    let lines = texts(&a, &b);
    for word in ["name", "data_type", "description", "options", "scale", "offset", "no_data"] {
        assert!(lines.iter().any(|l| l.contains(word)), "no line on {word} in {lines:?}");
    }
    assert!(lines.iter().any(|l| l.contains("\"z\"") && l.contains("\"w\"")));
    assert!(lines.iter().any(|l| l.contains("[0.5, 0.0, 0.0]")));
}

#[test]
fn field_names_are_listed() {
    let mut two = plain(1, "a b", "");
    two.extend(plain(1, "", ""));
    let p = ParsedExtraBytes::parse(&two).unwrap();
    assert_eq!(field_name_list(&p.fields), "a b, <unnamed>");
    assert_eq!(field_name_list(&Vec::new()), "no fields");
}

#[test]
fn byte_hash_tells_contents_apart() {
    assert_eq!(bytes_hash(b"abc"), bytes_hash(b"abc"));
    assert_ne!(bytes_hash(b"abc"), bytes_hash(b"abd"));
}

#[test]
fn merging_again_changes_nothing() {
    let pa = ParsedExtraBytes::parse(&ranged(-4.5, 10.0)).unwrap();
    let pb = ParsedExtraBytes::parse(&ranged(-2.0, 24.7)).unwrap();
    let mut once = ranged(-4.5, 10.0);
    merge_stats_into_canonical(&mut once, &vec![&pa, &pb]).unwrap();
    let mut twice = once.clone();
    merge_stats_into_canonical(&mut twice, &vec![&pa, &pb]).unwrap();
    assert_eq!(once, twice);
}

#[test]
fn files_merge_in_any_order() {
    let files: Vec<ParsedExtraBytes> = [ranged(3.0, 4.0), ranged(-2.0, 1.0), ranged(0.5, 24.7)]
        .iter()
        .map(|b| ParsedExtraBytes::parse(b).unwrap())
        .collect();
    let mut forth = plain(10, "zNorm", "");
    merge_stats_into_canonical(&mut forth, &files.iter().collect()).unwrap();
    let mut back = plain(10, "zNorm", "");
    merge_stats_into_canonical(&mut back, &files.iter().rev().collect()).unwrap();
    assert_eq!(forth, back);

    // Zeros of different sign are equal, and the first of them stays.
    let zeros = [ranged(0.0, 1.0), ranged(-0.0, 1.0)];
    let files: Vec<ParsedExtraBytes> =
        zeros.iter().map(|b| ParsedExtraBytes::parse(b).unwrap()).collect();
    let mut forth = plain(10, "zNorm", "");
    merge_stats_into_canonical(&mut forth, &files.iter().collect()).unwrap();
    let mut back = plain(10, "zNorm", "");
    merge_stats_into_canonical(&mut back, &files.iter().rev().collect()).unwrap();
    assert_ne!(forth, back);
}
