use copc_converter::point::{ByteReader, RawPoint, UnexpectedEof};
use copc_converter::temp::{
    count_temp_file_points, decode_frames, read_batches_loop, read_temp_batches, write_temp_batch,
    TempReadError,
};
use copc_converter::TempCompression;

fn sample_point() -> RawPoint {
    RawPoint {
        x: -123456,
        y: 789012,
        z: -1,
        intensity: 65535,
        return_number: 3,
        number_of_returns: 5,
        classification: 6,
        scan_angle: -15000,
        user_data: 42,
        point_source_id: 1001,
        gps_time: 123456789.987654f64.to_bits(),
        red: 255,
        green: 0,
        blue: 65535,
        nir: 32768,
        extras: Vec::new(),
    }
}

fn sample_point_with_extras(extras: &[u8]) -> RawPoint {
    let mut p = sample_point();
    p.extras = extras.to_vec();
    p
}

fn zero_point() -> RawPoint {
    RawPoint {
        x: 0,
        y: 0,
        z: 0,
        intensity: 0,
        return_number: 0,
        number_of_returns: 0,
        classification: 0,
        scan_angle: 0,
        user_data: 0,
        point_source_id: 0,
        gps_time: 0.0f64.to_bits(),
        red: 0,
        green: 0,
        blue: 0,
        nir: 0,
        extras: Vec::new(),
    }
}

fn shown(p: &RawPoint) -> String {
    format!("{:?}", p)
}

#[test]
fn rawpoint_roundtrip_single() {
    let p = sample_point();
    let mut buf = Vec::new();
    RawPoint::write_bulk(std::slice::from_ref(&p), 0, &mut buf);
    assert_eq!(buf.len(), RawPoint::record_size(0));
    let p2 = RawPoint::read(&mut ByteReader::new(&buf), 0).unwrap();
    assert_eq!(p.x, p2.x);
    assert_eq!(p.y, p2.y);
    assert_eq!(p.z, p2.z);
    assert_eq!(p.intensity, p2.intensity);
    assert_eq!(p.return_number, p2.return_number);
    assert_eq!(p.number_of_returns, p2.number_of_returns);
    assert_eq!(p.classification, p2.classification);
    assert_eq!(p.scan_angle, p2.scan_angle);
    assert_eq!(p.user_data, p2.user_data);
    assert_eq!(p.point_source_id, p2.point_source_id);
    assert_eq!(f64::from_bits(p2.gps_time), 123456789.987654);
    assert_eq!(p.gps_time, p2.gps_time);
    assert_eq!(p.red, p2.red);
    assert_eq!(p.green, p2.green);
    assert_eq!(p.blue, p2.blue);
    assert_eq!(p.nir, p2.nir);
    assert_eq!(p.extras, p2.extras);
}

#[test]
fn rawpoint_roundtrip_bulk() {
    let points = vec![sample_point(), zero_point(), sample_point()];
    let mut buf = Vec::new();
    RawPoint::write_bulk(&points, 0, &mut buf);
    assert_eq!(buf.len(), RawPoint::record_size(0) * 3);

    let mut cursor = ByteReader::new(&buf);
    for orig in &points {
        let p = RawPoint::read(&mut cursor, 0).unwrap();
        assert_eq!(orig.x, p.x);
        assert_eq!(orig.gps_time, p.gps_time);
        assert_eq!(orig.nir, p.nir);
    }
    assert_eq!(cursor.remaining(), 0);
}

#[test]
fn rawpoint_roundtrip_with_extras() {
    let extras_a = b"\xAA\xBB\xCC\xDD\xEE\xFF\x00\x11\x22\x33\x44\x55";
    let extras_b = b"\xDE\xAD\xBE\xEF\xCA\xFE\xBA\xBE\x01\x02\x03\x04";
    let extras_c = b"\x00\x00\x00\x00\x00\x00\x00\x00\x00\x00\x00\x00";
    let num = 12u16;
    let points = vec![
        sample_point_with_extras(extras_a),
        sample_point_with_extras(extras_b),
        sample_point_with_extras(extras_c),
    ];
    let mut buf = Vec::new();
    RawPoint::write_bulk(&points, num, &mut buf);
    assert_eq!(buf.len(), RawPoint::record_size(num) * 3);

    let mut cursor = ByteReader::new(&buf);
    let decoded: Vec<RawPoint> =
        (0..3).map(|_| RawPoint::read(&mut cursor, num).unwrap()).collect();
    assert_eq!(&decoded[0].extras[..], extras_a);
    assert_eq!(&decoded[1].extras[..], extras_b);
    assert_eq!(&decoded[2].extras[..], extras_c);
}

#[test]
fn temp_batch_roundtrip_with_extras() {
    let num = 8u16;
    let points: Vec<RawPoint> =
        (0..5).map(|i| sample_point_with_extras(&[i as u8; 8])).collect();
    for codec in [TempCompression::Uncompressed, TempCompression::Lz4] {
        let mut buf = Vec::new();
        write_temp_batch(&mut buf, &points, num, codec);
        let decoded = read_temp_batches(&buf, num, codec).unwrap();
        assert_eq!(decoded.len(), points.len());
        for (orig, got) in points.iter().zip(decoded.iter()) {
            assert_eq!(orig.extras, got.extras, "extras must survive {codec:?}");
        }
    }
}

#[test]
fn lz4_multi_batch_round_trip() {
    let codec = TempCompression::Lz4;
    let batches: Vec<Vec<RawPoint>> = vec![
        (0..10).map(|_| sample_point()).collect(),
        (0..1).map(|_| sample_point()).collect(),
        (0..1000).map(|_| sample_point()).collect(),
        (0..42).map(|_| sample_point()).collect(),
    ];
    let expected: usize = batches.iter().map(|b| b.len()).sum();
    let mut buf: Vec<u8> = Vec::new();
    for batch in &batches {
        write_temp_batch(&mut buf, batch, 0, codec);
    }
    let decoded = read_temp_batches(&buf, 0, codec).unwrap();
    assert_eq!(decoded.len(), expected, "multi-frame LZ4 decode must recover every point");
}

#[test]
fn lz4_multi_batch_count_temp_file_points() {
    let codec = TempCompression::Lz4;
    let batches: Vec<Vec<RawPoint>> = vec![
        (0..7).map(|_| sample_point()).collect(),
        (0..13).map(|_| sample_point()).collect(),
        (0..21).map(|_| sample_point()).collect(),
    ];
    let expected: u64 = batches.iter().map(|b| b.len() as u64).sum();
    let mut file: Vec<u8> = Vec::new();
    for batch in &batches {
        write_temp_batch(&mut file, batch, 0, codec);
    }
    let got = count_temp_file_points(Some(&file), 0, codec).unwrap();
    assert_eq!(got, expected, "multi-frame count must match total");
}

#[test]
fn rawpoint_record_size_arithmetic() {
    assert_eq!(RawPoint::record_size(0), 38);
    assert_eq!(RawPoint::record_size(12), 50);
    assert_eq!(RawPoint::record_size(255), 38 + 255);
}

#[test]
fn record_layout_is_little_endian() {
    let p = RawPoint {
        x: 0x01020304,
        y: -2,
        z: 3,
        intensity: 0x1122,
        return_number: 5,
        number_of_returns: 6,
        classification: 7,
        scan_angle: -3,
        user_data: 8,
        point_source_id: 0x3344,
        gps_time: 1.0f64.to_bits(),
        red: 0x0102,
        green: 0x0304,
        blue: 0x0506,
        nir: 0x0708,
        extras: vec![9, 10],
    };
    let mut record = Vec::new();
    p.write_base_into(&mut record);
    assert_eq!(record.len(), RawPoint::BASE_BYTE_SIZE + 2);
    let expected: Vec<u8> = vec![
        4, 3, 2, 1, 0xFE, 0xFF, 0xFF, 0xFF, 3, 0, 0, 0, 0x22, 0x11, 5, 6, 7, 0xFD, 0xFF, 8, 0x44,
        0x33, 0, 0, 0, 0, 0, 0, 0xF0, 0x3F, 2, 1, 4, 3, 6, 5, 8, 7, 9, 10,
    ];
    assert_eq!(record, expected);
    let mut bulk = vec![77u8];
    RawPoint::write_bulk(&[p], 2, &mut bulk);
    assert_eq!(bulk[0], 77);
    assert_eq!(bulk[1..], expected[..]);
}

#[test]
fn short_record_is_an_unexpected_end() {
    let mut buf = Vec::new();
    RawPoint::write_bulk(&[sample_point()], 0, &mut buf);
    let r = RawPoint::read(&mut ByteReader::new(&buf[..37]), 0);
    assert_eq!(r.unwrap_err(), UnexpectedEof);
    let r = RawPoint::read(&mut ByteReader::new(&buf), 1);
    assert_eq!(r.unwrap_err(), UnexpectedEof);
}

#[test]
fn every_codec_returns_the_batches_in_order() {
    let mut a = sample_point_with_extras(&[1, 2, 3]);
    a.x = 1;
    let mut b = sample_point_with_extras(&[4, 5, 6]);
    b.x = 2;
    let mut c = sample_point_with_extras(&[7, 8, 9]);
    c.x = 3;
    for codec in [TempCompression::Uncompressed, TempCompression::Lz4] {
        let mut first = Vec::new();
        write_temp_batch(&mut first, &[a.clone(), b.clone()], 3, codec);
        let mut second = Vec::new();
        write_temp_batch(&mut second, &[c.clone()], 3, codec);
        let mut joined = first.clone();
        joined.extend_from_slice(&second);
        let got = read_temp_batches(&joined, 3, codec).unwrap();
        let texts: Vec<String> = got.iter().map(shown).collect();
        assert_eq!(texts, vec![shown(&a), shown(&b), shown(&c)]);
        assert_eq!(count_temp_file_points(Some(&joined), 3, codec), Ok(3));
    }
}

#[test]
fn missing_file_holds_no_points() {
    assert_eq!(count_temp_file_points(None, 0, TempCompression::Lz4), Ok(0));
    assert_eq!(count_temp_file_points(None, 5, TempCompression::Uncompressed), Ok(0));
    assert_eq!(count_temp_file_points(Some(&[]), 5, TempCompression::Uncompressed), Ok(0));
}

#[test]
fn uncompressed_count_walks_the_batch_headers() {
    let mut file = vec![2u8, 0, 0, 0];
    file.extend(vec![0u8; 40 * 2]);
    file.extend([1u8, 0, 0, 0]);
    file.extend(vec![0u8; 40]);
    assert_eq!(count_temp_file_points(Some(&file), 2, TempCompression::Uncompressed), Ok(3));
    file.extend([5u8, 0]);
    assert_eq!(count_temp_file_points(Some(&file), 2, TempCompression::Uncompressed), Ok(3));
    assert_eq!(read_temp_batches(&file, 2, TempCompression::Uncompressed).unwrap().len(), 3);
}

#[test]
fn lz4_frames_hide_the_plain_bytes() {
    let points: Vec<RawPoint> = (0..100).map(|_| zero_point()).collect();
    let mut plain = Vec::new();
    write_temp_batch(&mut plain, &points, 0, TempCompression::Uncompressed);
    let mut packed = Vec::new();
    write_temp_batch(&mut packed, &points, 0, TempCompression::Lz4);
    assert_eq!(plain.len(), 3804);
    assert!(packed.len() < 400);
    let (back, failed) = decode_frames(&packed);
    assert_eq!(back, plain);
    assert!(!failed);
}

#[test]
fn damaged_frame_is_reported() {
    let junk = vec![1u8, 2, 3, 4, 5, 6, 7, 8, 9, 10, 11, 12];
    let (back, failed) = decode_frames(&junk);
    assert!(back.is_empty());
    assert!(failed);
    let r = read_temp_batches(&junk, 0, TempCompression::Lz4);
    assert_eq!(r.unwrap_err(), TempReadError::Corrupt);
    let r = count_temp_file_points(Some(&junk), 0, TempCompression::Lz4);
    assert_eq!(r.unwrap_err(), TempReadError::Corrupt);
}

#[test]
fn batch_cut_short_is_an_unexpected_end() {
    let mut data = Vec::new();
    write_temp_batch(&mut data, &[sample_point(), zero_point()], 0, TempCompression::Uncompressed);
    data.truncate(4 + 38 + 20);
    let r = read_batches_loop(&data, false, 0);
    assert_eq!(r.unwrap_err(), TempReadError::UnexpectedEof);
    let r = read_temp_batches(&data, 0, TempCompression::Uncompressed);
    assert_eq!(r.unwrap_err(), TempReadError::UnexpectedEof);
}
