//! Batches of points in temporary files.
//!
//! Every scratch file is a sequence of zero or more batches. Each batch is a
//! little-endian `u32` point count followed by that many point records. Without
//! compression the batches lie back to back; with LZ4 each batch is wrapped in
//! its own self-contained frame, and a reader walks the frames as one stream.

use crate::config::TempCompression;
use crate::le::{
    le_bytes, le_value, lemma_le_bytes_len, lemma_le_value_bound, lemma_le_value_of_bytes,
    lemma_pow256_values, push_bytes, push_u32, read_u32,
};
use crate::point::{
    bulk_bytes, decode_records, lemma_bulk_bytes_len, lemma_decode_bulk,
    lemma_decode_records_step, point_views, uniform_extras, ByteReader, PointView, RawPoint,
};
use std::io::{Read, Write};
use vstd::prelude::*;

verus! {

/// How reading one LZ4 frame came to its end.
#[derive(Debug, Clone, Copy, PartialEq, Eq, Structural)]
pub enum FrameEnd {
    /// The decoder reported the end of the frame.
    EndOfFrame,
    /// The input ended where the decoder needed more.
    UnexpectedEof,
    /// The decoder rejected the input.
    Invalid,
}

/// Why a sequence of batches cannot be read.
#[derive(Debug, Clone, Copy, PartialEq, Eq, Structural)]
pub enum TempReadError {
    /// The stream ends inside a batch.
    UnexpectedEof,
    /// The decoder rejected the stream before the batch was complete.
    Corrupt,
}

/// The frame that the LZ4 encoder makes of `head` and then `body`.
pub uninterp spec fn lz4_frame(head: Seq<u8>, body: Seq<u8>) -> Seq<u8>;

/// What the LZ4 decoder makes of an input: the bytes it yields up to its first
/// empty read or error, the input it leaves, and how it ended.
pub uninterp spec fn lz4_frame_read(bytes: Seq<u8>) -> (Seq<u8>, Seq<u8>, FrameEnd);

/// `frame` decodes to `content`, and the decoder stops right behind it.
pub open spec fn is_frame_of(frame: Seq<u8>, content: Seq<u8>) -> bool {
    &&& frame.len() > 0
    &&& forall|tail: Seq<u8>|
        #![trigger lz4_frame_read(frame + tail)]
        lz4_frame_read(frame + tail) == (content, tail, FrameEnd::EndOfFrame)
}

/// Calls `lz4_flex::frame::FrameEncoder`: two writes and `finish`, into a
/// vector. The encoder cannot fail on a vector. The result is a function of the
/// two writes, is not empty (a frame starts with its magic number), and is what
/// the crate's decoder turns back into the bytes written, reading not a byte
/// beyond it.
#[verifier::external_body]
fn lz4_encode(head: &[u8], body: &[u8]) -> (frame: Vec<u8>)
    ensures
        frame@ == lz4_frame(head@, body@),
        is_frame_of(frame@, head@ + body@),
{
    let mut enc = lz4_flex::frame::FrameEncoder::new(Vec::new());
    enc.write_all(head).expect("writing to a vector");
    enc.write_all(body).expect("writing to a vector");
    enc.finish().expect("writing to a vector")
}

/// Calls `read_to_end` of `lz4_flex::frame::FrameDecoder` on a fresh decoder
/// over `bytes`: the bytes it yields before it returns, the part of the input
/// it has not taken, and whether it returned normally, with `UnexpectedEof`, or
/// with another error. It takes at least one byte of an input that is not
/// empty.
#[verifier::external_body]
fn lz4_decode<'a>(bytes: &'a [u8]) -> (r: (Vec<u8>, &'a [u8], FrameEnd))
    ensures
        (r.0@, r.1@, r.2) == lz4_frame_read(bytes@),
        bytes@.len() > 0 ==> r.1@.len() < bytes@.len(),
{
    let mut dec = lz4_flex::frame::FrameDecoder::new(bytes);
    let mut content = Vec::new();
    let end = match dec.read_to_end(&mut content) {
        Ok(_) => FrameEnd::EndOfFrame,
        Err(e) if e.kind() == std::io::ErrorKind::UnexpectedEof => FrameEnd::UnexpectedEof,
        Err(_) => FrameEnd::Invalid,
    };
    (content, dec.into_inner(), end)
}

/// The one stream that a sequence of frames stands for, and whether it ends in
/// a decoder error. A frame without content ends the stream, unless it is the
/// `first` one; so does input that ends early.
pub open spec fn multi_frame(bytes: Seq<u8>, first: bool) -> (Seq<u8>, bool)
    decreases bytes.len(),
{
    if bytes.len() == 0 {
        (Seq::empty(), false)
    } else {
        let (content, rest, end) = lz4_frame_read(bytes);
        match end {
            FrameEnd::Invalid => (content, true),
            FrameEnd::UnexpectedEof => (content, false),
            FrameEnd::EndOfFrame => {
                if (content.len() == 0 && !first) || rest.len() >= bytes.len() {
                    (content, false)
                } else {
                    let (more, failed) = multi_frame(rest, false);
                    (content + more, failed)
                }
            },
        }
    }
}

/// Decodes a sequence of concatenated LZ4 frames into one stream.
pub fn decode_frames(bytes: &[u8]) -> (r: (Vec<u8>, bool))
    ensures
        (r.0@, r.1) == multi_frame(bytes@, true),
{
    let mut out: Vec<u8> = Vec::new();
    let mut rest: &[u8] = bytes;
    let mut first: bool = true;
    proof {
        let m = multi_frame(bytes@, true);
        assert(out@ + m.0 =~= m.0);
    }
    while rest.len() > 0
        invariant
            multi_frame(bytes@, true) == (
                out@ + multi_frame(rest@, first).0,
                multi_frame(rest@, first).1,
            ),
        decreases rest@.len(),
    {
        let ghost before = out@;
        let ghost m = multi_frame(rest@, first);
        let (content, next, end) = lz4_decode(rest);
        push_bytes(&mut out, content.as_slice());
        match end {
            FrameEnd::Invalid => {
                return (out, true);
            },
            FrameEnd::UnexpectedEof => {
                return (out, false);
            },
            FrameEnd::EndOfFrame => {
                if content.len() == 0 && !first {
                    return (out, false);
                }
            },
        }
        proof {
            let more = multi_frame(next@, false);
            assert(before + m.0 =~= out@ + more.0);
        }
        rest = next;
        first = false;
    }
    assert(out@ + Seq::<u8>::empty() =~= out@);
    (out, false)
}

/// A batch before compression: the count (modulo 2^32), then the records.
pub open spec fn batch_bytes(ps: Seq<PointView>) -> Seq<u8> {
    le_bytes((ps.len() as u32) as nat, 4) + bulk_bytes(ps)
}

/// A batch as it lies in a file.
pub open spec fn encoded_batch(ps: Seq<PointView>, codec: TempCompression) -> Seq<u8> {
    match codec {
        TempCompression::Uncompressed => batch_bytes(ps),
        TempCompression::Lz4 => lz4_frame(le_bytes((ps.len() as u32) as nat, 4), bulk_bytes(ps)),
    }
}

/// `bytes` is the batch of `ps`, and for LZ4 a frame that decodes to it.
pub open spec fn holds_batch(bytes: Seq<u8>, ps: Seq<PointView>, codec: TempCompression) -> bool {
    &&& bytes == encoded_batch(ps, codec)
    &&& codec == TempCompression::Lz4 ==> is_frame_of(bytes, batch_bytes(ps))
}

/// Appends one batch: a 4-byte little-endian point count followed by
/// the points' records. If `codec` is `Lz4`, the entire batch is encapsulated
/// in a self-contained LZ4 frame.
pub fn write_temp_batch(
    w: &mut Vec<u8>,
    points: &[RawPoint],
    num_extra_bytes: u16,
    codec: TempCompression,
)
    requires
        uniform_extras(point_views(points@), num_extra_bytes as nat),
    ensures
        final(w)@ == old(w)@ + encoded_batch(point_views(points@), codec),
        holds_batch(
            encoded_batch(point_views(points@), codec),
            point_views(points@),
            codec,
        ),
{
    let ghost ps = point_views(points@);
    assert(ps.len() == points@.len());
    match codec {
        TempCompression::Uncompressed => {
            push_u32(w, points.len() as u32);
            RawPoint::write_bulk(points, num_extra_bytes, w);
            assert(w@ =~= old(w)@ + batch_bytes(ps));
        },
        TempCompression::Lz4 => {
            let mut head: Vec<u8> = Vec::new();
            push_u32(&mut head, points.len() as u32);
            assert(head@ =~= le_bytes((ps.len() as u32) as nat, 4));
            let mut body: Vec<u8> = Vec::new();
            RawPoint::write_bulk(points, num_extra_bytes, &mut body);
            assert(body@ =~= bulk_bytes(ps));
            let frame = lz4_encode(head.as_slice(), body.as_slice());
            push_bytes(w, frame.as_slice());
        },
    }
}

/// `ps` put in front of what reading the rest yields.
pub open spec fn prepend(
    ps: Seq<PointView>,
    rest: Result<Seq<PointView>, TempReadError>,
) -> Result<Seq<PointView>, TempReadError> {
    match rest {
        Ok(more) => Ok(ps + more),
        Err(e) => Err(e),
    }
}

/// The error of a stream that ends too early.
pub open spec fn short_stream(failed: bool) -> TempReadError {
    if failed {
        TempReadError::Corrupt
    } else {
        TempReadError::UnexpectedEof
    }
}

/// The points of all batches of a stream with records of `size` bytes. Fewer
/// than four bytes at the end are ignored, unless the stream `failed` there.
pub open spec fn parse_stream(data: Seq<u8>, failed: bool, size: nat) -> Result<
    Seq<PointView>,
    TempReadError,
>
    decreases data.len(),
{
    if data.len() < 4 {
        if failed {
            Err(TempReadError::Corrupt)
        } else {
            Ok(Seq::empty())
        }
    } else {
        let count = le_value(data.take(4));
        let body = data.skip(4);
        if body.len() < count * size {
            Err(short_stream(failed))
        } else {
            prepend(
                decode_records(body, count, size),
                parse_stream(body.skip((count * size) as int), failed, size),
            )
        }
    }
}

/// The points of all batches of a file.
pub open spec fn temp_points(bytes: Seq<u8>, num_extra_bytes: nat, codec: TempCompression) -> Result<
    Seq<PointView>,
    TempReadError,
> {
    match codec {
        TempCompression::Uncompressed => parse_stream(bytes, false, 38 + num_extra_bytes),
        TempCompression::Lz4 => {
            let (data, failed) = multi_frame(bytes, true);
            parse_stream(data, failed, 38 + num_extra_bytes)
        },
    }
}

/// What a reading function returned, with points as views.
pub open spec fn points_result(r: Result<Vec<RawPoint>, TempReadError>) -> Result<
    Seq<PointView>,
    TempReadError,
> {
    match r {
        Ok(v) => Ok(point_views(v@)),
        Err(e) => Err(e),
    }
}

/// Reads every batch of a file to its end, concatenating their points. An
/// empty file produces an empty vector.
pub fn read_temp_batches(bytes: &[u8], num_extra_bytes: u16, codec: TempCompression) -> (r: Result<
    Vec<RawPoint>,
    TempReadError,
>)
    ensures
        points_result(r) == temp_points(bytes@, num_extra_bytes as nat, codec),
        r matches Ok(v) ==> uniform_extras(point_views(v@), num_extra_bytes as nat),
{
    match codec {
        TempCompression::Uncompressed => read_batches_loop(bytes, false, num_extra_bytes),
        TempCompression::Lz4 => {
            let (data, failed) = decode_frames(bytes);
            read_batches_loop(data.as_slice(), failed, num_extra_bytes)
        },
    }
}

/// Reads every batch of a decoded stream.
pub fn read_batches_loop(data: &[u8], failed: bool, num_extra_bytes: u16) -> (r: Result<
    Vec<RawPoint>,
    TempReadError,
>)
    ensures
        points_result(r) == parse_stream(data@, failed, 38 + num_extra_bytes as nat),
        r matches Ok(v) ==> uniform_extras(point_views(v@), num_extra_bytes as nat),
{
    let ghost size: nat = 38 + num_extra_bytes as nat;
    let mut out: Vec<RawPoint> = Vec::new();
    let mut r = ByteReader::new(data);
    proof {
        assert(point_views(out@) =~= Seq::<PointView>::empty());
        let all = parse_stream(data@, failed, size);
        match all {
            Ok(ps) => {
                assert(Seq::<PointView>::empty() + ps =~= ps);
            },
            Err(_) => {},
        }
    }
    while r.remaining() >= 4
        invariant
            r.wf(),
            r.data@ == data@,
            size == 38 + num_extra_bytes as nat,
            uniform_extras(point_views(out@), num_extra_bytes as nat),
            parse_stream(data@, failed, size) == prepend(
                point_views(out@),
                parse_stream(r.rest(), failed, size),
            ),
        decreases r.rest().len(),
    {
        let ghost before = r.rest();
        let ghost done = point_views(out@);
        let count: u32 = read_u32(r.data, r.pos);
        assert(data@.subrange(r.pos as int, r.pos + 4) =~= before.take(4));
        assert(data.len() <= usize::MAX);
        r.pos = r.pos + 4;
        let ghost body = r.rest();
        assert(body =~= before.skip(4));
        let mut i: u32 = 0;
        proof {
            assert(body.skip(0) =~= body);
            assert(done + decode_records(body, 0, size) =~= done);
            assert(0 * size == 0) by (nonlinear_arith);
        }
        while i < count
            invariant
                i <= count,
                r.wf(),
                r.data@ == data@,
                size == 38 + num_extra_bytes as nat,
                body == before.skip(4),
                before.len() >= 4,
                count as nat == le_value(before.take(4)),
                i * size <= body.len(),
                r.rest() == body.skip((i * size) as int),
                uniform_extras(point_views(out@), num_extra_bytes as nat),
                point_views(out@) == done + decode_records(body, i as nat, size),
                parse_stream(data@, failed, size) == prepend(
                    done,
                    parse_stream(before, failed, size),
                ),
            decreases count - i,
        {
            let ghost at = r.rest();
            match RawPoint::read(&mut r, num_extra_bytes) {
                Ok(p) => {
                    proof {
                        assert((i + 1) * size == i * size + size) by (nonlinear_arith);
                        lemma_decode_records_step(body, i as nat, size);
                        assert(at.take(size as int) =~= body.subrange(
                            (i * size) as int,
                            ((i + 1) * size) as int,
                        ));
                        assert(r.rest() =~= at.skip(size as int));
                        assert(r.rest() =~= body.skip(((i + 1) * size) as int));
                        assert(point_views(out@.push(p)) =~= point_views(out@).push(p@));
                        assert(point_views(out@).push(p@) =~= done + decode_records(
                            body,
                            (i + 1) as nat,
                            size,
                        ));
                    }
                    out.push(p);
                },
                Err(_) => {
                    proof {
                        assert(i * size + size <= count * size) by (nonlinear_arith)
                            requires
                                i + 1 <= count,
                        ;
                        assert(body.len() < count * size);
                    }
                    if failed {
                        return Err(TempReadError::Corrupt);
                    } else {
                        return Err(TempReadError::UnexpectedEof);
                    }
                },
            }
            i = i + 1;
        }
        proof {
            let part = decode_records(body, count as nat, size);
            let rest = parse_stream(r.rest(), failed, size);
            assert(parse_stream(before, failed, size) == prepend(part, rest));
            match rest {
                Ok(more) => {
                    assert(done + (part + more) =~= (done + part) + more);
                },
                Err(_) => {},
            }
        }
    }
    if failed {
        Err(TempReadError::Corrupt)
    } else {
        assert(point_views(out@) + Seq::<PointView>::empty() =~= point_views(out@));
        Ok(out)
    }
}

/// The sum of the batch counts of an uncompressed file; a payload that the
/// file does not hold in full is skipped all the same.
pub open spec fn count_headers(data: Seq<u8>, size: nat) -> nat
    decreases data.len(),
{
    if data.len() < 4 {
        0
    } else {
        let count = le_value(data.take(4));
        let body = data.skip(4);
        if body.len() < count * size {
            count
        } else {
            count + count_headers(body.skip((count * size) as int), size)
        }
    }
}

/// The number of points of a file, found without decoding points that the
/// codec lets it skip.
pub open spec fn temp_count(
    file: Option<Seq<u8>>,
    num_extra_bytes: nat,
    codec: TempCompression,
) -> Result<nat, TempReadError> {
    match file {
        None => Ok(0),
        Some(bytes) => match codec {
            TempCompression::Uncompressed => Ok(count_headers(bytes, 38 + num_extra_bytes)),
            TempCompression::Lz4 => match temp_points(bytes, num_extra_bytes, codec) {
                Ok(ps) => Ok(ps.len()),
                Err(e) => Err(e),
            },
        },
    }
}

/// Where a file counts as a whole number of batches, the headers add up to the
/// number of points.
pub proof fn lemma_count_headers(data: Seq<u8>, size: nat)
    requires
        parse_stream(data, false, size) is Ok,
    ensures
        count_headers(data, size) == parse_stream(data, false, size)->Ok_0.len(),
    decreases data.len(),
{
    if data.len() >= 4 {
        let count = le_value(data.take(4));
        let body = data.skip(4);
        assert(count * size >= 0) by (nonlinear_arith);
        lemma_decode_records_len(body, count, size);
        lemma_count_headers(body.skip((count * size) as int), size);
    }
}

/// `decode_records` yields as many points as it was asked for.
pub proof fn lemma_decode_records_len(s: Seq<u8>, count: nat, size: nat)
    ensures
        decode_records(s, count, size).len() == count,
    decreases count,
{
    if count > 0 {
        lemma_decode_records_len(s.skip(size as int), (count - 1) as nat, size);
    }
}

/// Headers count at most one point for every 38 bytes, but for the last one.
proof fn lemma_count_headers_bound(data: Seq<u8>, size: nat)
    requires
        size >= 38,
    ensures
        count_headers(data, size) <= data.len() + 0x1_0000_0000,
    decreases data.len(),
{
    if data.len() >= 4 {
        let count = le_value(data.take(4));
        let body = data.skip(4);
        lemma_pow256_values();
        lemma_le_value_bound(data.take(4));
        assert(count * size >= count) by (nonlinear_arith)
            requires
                size >= 38,
        ;
        if body.len() >= count * size {
            lemma_count_headers_bound(body.skip((count * size) as int), size);
        }
    }
}

/// Counts the points of a temporary file by walking its batch headers; a file
/// that does not exist holds none. Without compression payloads are skipped
/// unread. An LZ4 file has to be decoded, and is rejected where it ends early.
///
/// The file's length is at most `i64::MAX`, as for every file.
pub fn count_temp_file_points(
    file: Option<&[u8]>,
    num_extra_bytes: u16,
    codec: TempCompression,
) -> (r: Result<u64, TempReadError>)
    requires
        file matches Some(bytes) ==> bytes@.len() <= i64::MAX,
    ensures
        match (
            r,
            temp_count(
                match file {
                    Some(bytes) => Some(bytes@),
                    None => None,
                },
                num_extra_bytes as nat,
                codec,
            ),
        ) {
            (Ok(n), Ok(m)) => n == m,
            (Err(e), Err(f)) => e == f,
            _ => false,
        },
{
    let bytes = match file {
        None => {
            return Ok(0);
        },
        Some(b) => b,
    };
    match codec {
        TempCompression::Uncompressed => Ok(count_headers_of(bytes, num_extra_bytes)),
        TempCompression::Lz4 => {
            match read_temp_batches(bytes, num_extra_bytes, codec) {
                Ok(points) => Ok(points.len() as u64),
                Err(e) => Err(e),
            }
        },
    }
}

fn count_headers_of(data: &[u8], num_extra_bytes: u16) -> (total: u64)
    requires
        data@.len() <= i64::MAX,
    ensures
        total == count_headers(data@, 38 + num_extra_bytes as nat),
{
    let size: u64 = RawPoint::record_size(num_extra_bytes) as u64;
    let ghost sz: nat = size as nat;
    let mut pos: usize = 0;
    let mut total: u64 = 0;
    assert(data@.skip(0) =~= data@);
    proof {
        lemma_count_headers_bound(data@, sz);
    }
    while data.len() - pos >= 4
        invariant
            data@.len() <= i64::MAX,
            pos <= data@.len(),
            sz == size == 38 + num_extra_bytes,
            count_headers(data@, sz) <= data@.len() + 0x1_0000_0000,
            count_headers(data@, sz) == total + count_headers(data@.skip(pos as int), sz),
        decreases data@.len() - pos,
    {
        let ghost here = data@.skip(pos as int);
        let count: u32 = read_u32(data, pos);
        assert(data@.subrange(pos as int, pos + 4) =~= here.take(4));
        assert(here.skip(4) =~= data@.skip(pos + 4));
        assert(count * size <= 0x1_0000_0000 * 0x1_0000_0000 && count * size <= u64::MAX)
            by (nonlinear_arith)
            requires
                count <= u32::MAX,
                size <= 38 + 65535,
        ;
        let payload: u64 = count as u64 * size;
        assert(count * sz == payload);
        total = total + count as u64;
        let left: u64 = (data.len() - pos - 4) as u64;
        if left < payload {
            return total;
        }
        assert(here.skip(4).skip(payload as int) =~= data@.skip(pos + 4 + payload));
        pos = pos + 4 + payload as usize;
    }
    total
}

/// The files, one behind another, that hold the batches `bs`.
pub open spec fn encoded_batches(bs: Seq<Seq<PointView>>, codec: TempCompression) -> Seq<u8>
    decreases bs.len(),
{
    if bs.len() == 0 {
        Seq::empty()
    } else {
        encoded_batch(bs[0], codec) + encoded_batches(bs.drop_first(), codec)
    }
}

/// The points of all batches, in order.
pub open spec fn all_points(bs: Seq<Seq<PointView>>) -> Seq<PointView>
    decreases bs.len(),
{
    if bs.len() == 0 {
        Seq::empty()
    } else {
        bs[0] + all_points(bs.drop_first())
    }
}

/// Batches that `write_temp_batch` can have written.
pub open spec fn written_batches(
    bs: Seq<Seq<PointView>>,
    num_extra_bytes: nat,
    codec: TempCompression,
) -> bool {
    forall|i: int|
        0 <= i < bs.len() ==> {
            &&& uniform_extras(#[trigger] bs[i], num_extra_bytes)
            &&& bs[i].len() <= u32::MAX
            &&& holds_batch(encoded_batch(bs[i], codec), bs[i], codec)
        }
}

/// A batch at the start of a stream is read as the points it was written from.
pub proof fn lemma_parse_batch(ps: Seq<PointView>, n: nat, tail: Seq<u8>, failed: bool)
    requires
        uniform_extras(ps, n),
        ps.len() <= u32::MAX,
    ensures
        parse_stream(batch_bytes(ps) + tail, failed, 38 + n) == prepend(
            ps,
            parse_stream(tail, failed, 38 + n),
        ),
{
    broadcast use lemma_le_bytes_len;

    lemma_pow256_values();
    let data = batch_bytes(ps) + tail;
    let head = le_bytes(ps.len(), 4);
    assert(data.take(4) =~= head);
    lemma_le_value_of_bytes(ps.len(), 4);
    lemma_bulk_bytes_len(ps, n);
    let body = data.skip(4);
    assert(body =~= bulk_bytes(ps) + tail);
    lemma_decode_bulk(ps, n, tail);
    assert(body.skip((ps.len() * (38 + n)) as int) =~= tail);
}

/// The batches of a file are read back as the points that were written, in
/// order, with either codec; and a file made by putting the bytes of several
/// such files behind one another holds the points of all of them.
pub proof fn law_batches_round_trip(
    bs: Seq<Seq<PointView>>,
    num_extra_bytes: nat,
    codec: TempCompression,
)
    requires
        written_batches(bs, num_extra_bytes, codec),
    ensures
        temp_points(encoded_batches(bs, codec), num_extra_bytes, codec) == Ok::<
            Seq<PointView>,
            TempReadError,
        >(all_points(bs)),
{
    match codec {
        TempCompression::Uncompressed => {
            lemma_parse_batches(bs, num_extra_bytes);
            lemma_encoded_none(bs);
        },
        TempCompression::Lz4 => {
            lemma_parse_batches(bs, num_extra_bytes);
            lemma_decode_batches(bs, num_extra_bytes, true);
        },
    }
}

/// The uncompressed stream of `bs`.
spec fn plain_stream(bs: Seq<Seq<PointView>>) -> Seq<u8>
    decreases bs.len(),
{
    if bs.len() == 0 {
        Seq::empty()
    } else {
        batch_bytes(bs[0]) + plain_stream(bs.drop_first())
    }
}

proof fn lemma_encoded_none(bs: Seq<Seq<PointView>>)
    ensures
        encoded_batches(bs, TempCompression::Uncompressed) == plain_stream(bs),
    decreases bs.len(),
{
    if bs.len() > 0 {
        lemma_encoded_none(bs.drop_first());
    }
}

proof fn lemma_parse_batches(bs: Seq<Seq<PointView>>, n: nat)
    requires
        forall|i: int|
            0 <= i < bs.len() ==> {
                &&& uniform_extras(#[trigger] bs[i], n)
                &&& bs[i].len() <= u32::MAX
            },
    ensures
        parse_stream(plain_stream(bs), false, 38 + n) == Ok::<Seq<PointView>, TempReadError>(
            all_points(bs),
        ),
    decreases bs.len(),
{
    if bs.len() > 0 {
        let rest = bs.drop_first();
        assert forall|i: int| 0 <= i < rest.len() implies {
            &&& uniform_extras(#[trigger] rest[i], n)
            &&& rest[i].len() <= u32::MAX
        } by {
            assert(rest[i] == bs[i + 1]);
        }
        lemma_parse_batches(rest, n);
        lemma_parse_batch(bs[0], n, plain_stream(rest), false);
    }
}

proof fn lemma_decode_batches(bs: Seq<Seq<PointView>>, n: nat, first: bool)
    requires
        written_batches(bs, n, TempCompression::Lz4),
    ensures
        multi_frame(encoded_batches(bs, TempCompression::Lz4), first) == (plain_stream(bs), false),
    decreases bs.len(),
{
    broadcast use lemma_le_bytes_len;

    if bs.len() > 0 {
        let rest = bs.drop_first();
        assert forall|i: int| 0 <= i < rest.len() implies {
            &&& uniform_extras(#[trigger] rest[i], n)
            &&& rest[i].len() <= u32::MAX
            &&& holds_batch(
                encoded_batch(rest[i], TempCompression::Lz4),
                rest[i],
                TempCompression::Lz4,
            )
        } by {
            assert(rest[i] == bs[i + 1]);
        }
        lemma_decode_batches(rest, n, false);
        let frame = encoded_batch(bs[0], TempCompression::Lz4);
        let tail = encoded_batches(rest, TempCompression::Lz4);
        assert(holds_batch(frame, bs[0], TempCompression::Lz4));
        assert(lz4_frame_read(frame + tail) == (batch_bytes(bs[0]), tail, FrameEnd::EndOfFrame));
    }
}

/// Batches put behind one another lie behind one another in the file.
pub proof fn law_joined_files_hold_both(
    a: Seq<Seq<PointView>>,
    b: Seq<Seq<PointView>>,
    codec: TempCompression,
)
    ensures
        encoded_batches(a + b, codec) == encoded_batches(a, codec) + encoded_batches(b, codec),
        all_points(a + b) == all_points(a) + all_points(b),
    decreases a.len(),
{
    if a.len() == 0 {
        assert(a + b =~= b);
        assert(encoded_batches(a, codec) + encoded_batches(b, codec) =~= encoded_batches(b, codec));
        assert(all_points(a) + all_points(b) =~= all_points(b));
    } else {
        assert((a + b).drop_first() =~= a.drop_first() + b);
        law_joined_files_hold_both(a.drop_first(), b, codec);
        assert(encoded_batches(a + b, codec) =~= encoded_batches(a, codec) + encoded_batches(
            b,
            codec,
        ));
        assert(all_points(a + b) =~= all_points(a) + all_points(b));
    }
}

/// Counting a file that was written batch by batch yields the number of points
/// written, with either codec.
pub proof fn law_count_round_trip(
    bs: Seq<Seq<PointView>>,
    num_extra_bytes: nat,
    codec: TempCompression,
)
    requires
        written_batches(bs, num_extra_bytes, codec),
    ensures
        temp_count(Some(encoded_batches(bs, codec)), num_extra_bytes, codec) == Ok::<
            nat,
            TempReadError,
        >(all_points(bs).len()),
{
    law_batches_round_trip(bs, num_extra_bytes, codec);
    if codec == TempCompression::Uncompressed {
        lemma_count_headers(encoded_batches(bs, codec), 38 + num_extra_bytes);
    }
}

} // verus!
