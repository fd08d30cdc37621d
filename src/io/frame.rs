//! The frame codec: `[length: u32 big-endian][BlobHeader][Blob]`, repeated
//! to the end of the file.

use vstd::prelude::*;
use vstd::utf8::{valid_utf8, decode_utf8, decode_utf8_encode_utf8};
use bytes::Bytes;
use crate::io::blob::{
    Blob, BlobData, BlobError, BlobHeader, BlobType, Result, blob_type_of, bytes_content,
    MAX_BLOB_HEADER_SIZE, MAX_BLOB_MESSAGE_SIZE,
};
use crate::io::wire::{WireValue, field_at, read_field, value_within, lemma_field_within};
use vstd::slice::slice_subrange;

verus! {

/// The last value read of each of the fields 1 to 5 of a message.
#[derive(Debug, Clone, Copy, PartialEq, Eq)]
pub struct FieldSlots {
    pub f1: Option<WireValue>,
    pub f2: Option<WireValue>,
    pub f3: Option<WireValue>,
    pub f4: Option<WireValue>,
    pub f5: Option<WireValue>,
}

impl FieldSlots {
    /// No field read yet.
    pub open spec fn spec_empty() -> FieldSlots {
        FieldSlots { f1: None, f2: None, f3: None, f4: None, f5: None }
    }

    /// The slots once field `n` has been read with value `v`; other field
    /// numbers are skipped.
    pub open spec fn with(self, n: int, v: WireValue) -> FieldSlots {
        if n == 1 {
            FieldSlots { f1: Some(v), ..self }
        } else if n == 2 {
            FieldSlots { f2: Some(v), ..self }
        } else if n == 3 {
            FieldSlots { f3: Some(v), ..self }
        } else if n == 4 {
            FieldSlots { f4: Some(v), ..self }
        } else if n == 5 {
            FieldSlots { f5: Some(v), ..self }
        } else {
            self
        }
    }

    fn empty() -> (r: FieldSlots)
        ensures
            r == FieldSlots::spec_empty(),
    {
        FieldSlots { f1: None, f2: None, f3: None, f4: None, f5: None }
    }

    fn record(&mut self, n: u64, v: WireValue)
        ensures
            *final(self) == old(self).with(n as int, v),
    {
        if n == 1 {
            self.f1 = Some(v);
        } else if n == 2 {
            self.f2 = Some(v);
        } else if n == 3 {
            self.f3 = Some(v);
        } else if n == 4 {
            self.f4 = Some(v);
        } else if n == 5 {
            self.f5 = Some(v);
        }
    }
}

/// Every span held in the slots lies within `[0, end]`.
pub open spec fn slots_within(f: FieldSlots, end: int) -> bool {
    &&& (f.f1 matches Some(v) ==> value_within(v, end))
    &&& (f.f2 matches Some(v) ==> value_within(v, end))
    &&& (f.f3 matches Some(v) ==> value_within(v, end))
    &&& (f.f4 matches Some(v) ==> value_within(v, end))
    &&& (f.f5 matches Some(v) ==> value_within(v, end))
}

/// The fields of the message `b[pos..end]`, read on top of `acc`; `None`
/// when a field is malformed or crosses `end`.
pub open spec fn fields_from(b: Seq<u8>, pos: int, end: int, acc: FieldSlots) -> Option<FieldSlots>
    decreases end - pos,
{
    if pos >= end {
        if pos == end {
            Some(acc)
        } else {
            None
        }
    } else {
        match field_at(b, pos, end) {
            None => None,
            Some((n, v, next)) => if next <= pos {
                None
            } else {
                fields_from(b, next, end, acc.with(n, v))
            },
        }
    }
}

/// The fields of the message `b[start..end]`.
pub open spec fn message_fields(b: Seq<u8>, start: int, end: int) -> Option<FieldSlots> {
    fields_from(b, start, end, FieldSlots::spec_empty())
}

/// Reads the fields 1 to 5 of the message `b[start..end]`.
pub fn read_message(b: &[u8], start: usize, end: usize) -> (r: Option<FieldSlots>)
    requires
        start <= end <= b@.len(),
    ensures
        r == message_fields(b@, start as int, end as int),
        r matches Some(f) ==> slots_within(f, end as int),
{
    let mut acc = FieldSlots::empty();
    let mut pos = start;
    while pos < end
        invariant
            start <= pos <= end <= b@.len(),
            fields_from(b@, pos as int, end as int, acc) == message_fields(
                b@,
                start as int,
                end as int,
            ),
            slots_within(acc, end as int),
        decreases end - pos,
    {
        match read_field(b, pos, end) {
            None => return None,
            Some((n, v, next)) => {
                proof {
                    lemma_field_within(b@, pos as int, end as int);
                }
                acc.record(n, v);
                pos = next;
            },
        }
    }
    Some(acc)
}

/// The big-endian `u32` at `p`.
pub open spec fn be_u32(b: Seq<u8>, p: int) -> int {
    b[p] * 16777216 + b[p + 1] * 65536 + b[p + 2] * 256 + b[p + 3]
}

/// A length-delimited field's span.
pub open spec fn span_of(o: Option<WireValue>) -> Option<(int, int)> {
    match o {
        Some(WireValue::Span(s, e)) => Some((s as int, e as int)),
        _ => None,
    }
}

/// A varint field's value.
pub open spec fn varint_of(o: Option<WireValue>) -> Option<int> {
    match o {
        Some(WireValue::Varint(v)) => Some(v as int),
        _ => None,
    }
}

/// The type span and datasize of the BlobHeader `b[start..end]`: both fields
/// are required, the type must be UTF-8 and the datasize fit a `u32`.
pub open spec fn header_of(b: Seq<u8>, start: int, end: int) -> Option<(int, int, int)> {
    match message_fields(b, start, end) {
        None => None,
        Some(f) => match (span_of(f.f1), varint_of(f.f3)) {
            (Some((ts, te)), Some(d)) => if d <= u32::MAX && valid_utf8(b.subrange(ts, te)) {
                Some((ts, te, d))
            } else {
                None
            },
            _ => None,
        },
    }
}

/// The index data of the BlobHeader `b[start..end]`: a copy of field 2's
/// bytes when present, else nothing.
pub open spec fn indexdata_matches(b: Seq<u8>, start: int, end: int, x: Option<Bytes>) -> bool {
    match message_fields(b, start, end) {
        None => true,
        Some(fs) => match span_of(fs.f2) {
            Some((s, e)) => x matches Some(y) && bytes_content(y) == b.subrange(s, e),
            None => x is None,
        },
    }
}

/// What stands at an offset of a file.
pub enum FrameScan {
    /// The offset is the end of the file.
    End,
    /// A frame is malformed or truncated there.
    Bad,
    /// The frame's BlobHeader length exceeds the bound.
    TooLarge(int),
    /// A whole frame: its BlobHeader's span and fields, and its total size.
    Frame { header_len: int, type_start: int, type_end: int, datasize: int, size: int },
}

/// The frame at `off`: a length, a BlobHeader of that length, and the
/// `datasize` bytes of the blob, all within the file; its total size fits a
/// `u32`.
pub open spec fn frame_at(b: Seq<u8>, off: int) -> FrameScan {
    if off == b.len() {
        FrameScan::End
    } else if off < 0 || off + 4 > b.len() {
        FrameScan::Bad
    } else {
        let hlen = be_u32(b, off);
        if hlen > MAX_BLOB_HEADER_SIZE {
            FrameScan::TooLarge(hlen)
        } else if off + 4 + hlen > b.len() {
            FrameScan::Bad
        } else {
            match header_of(b, off + 4, off + 4 + hlen) {
                None => FrameScan::Bad,
                Some((ts, te, d)) => {
                    let size = 4 + hlen + d;
                    if size > u32::MAX || off + size > b.len() {
                        FrameScan::Bad
                    } else {
                        FrameScan::Frame {
                            header_len: hlen,
                            type_start: ts,
                            type_end: te,
                            datasize: d,
                            size,
                        }
                    }
                },
            }
        }
    }
}

/// Relies on `std::str::from_utf8`: the bytes read as UTF-8, present
/// exactly when they are valid UTF-8.
#[verifier::external_body]
pub(crate) fn utf8_str<'a>(b: &'a [u8]) -> (r: Option<&'a str>)
    ensures
        r is Some <==> valid_utf8(b@),
        r is Some ==> r->Some_0@ == decode_utf8(b@),
{
    std::str::from_utf8(b).ok()
}

/// The bytes as an owned string, when they are valid UTF-8.
pub(crate) fn utf8_string(b: &[u8]) -> (r: Option<String>)
    ensures
        r is Some <==> valid_utf8(b@),
        r is Some ==> r->Some_0@ == decode_utf8(b@),
{
    match utf8_str(b) {
        Some(s) => Some(s.to_owned()),
        None => None,
    }
}

fn invalid(reason: &str) -> (r: BlobError)
    ensures
        r is InvalidFormat,
{
    BlobError::InvalidFormat(reason.to_owned())
}

/// Reads the big-endian `u32` at `p`.
fn read_be_u32(b: &[u8], p: usize) -> (r: u32)
    requires
        p + 4 <= b@.len(),
    ensures
        r == be_u32(b@, p as int),
{
    (b[p] as u32) * 16777216 + (b[p + 1] as u32) * 65536 + (b[p + 2] as u32) * 256 + (b[p + 3] as u32)
}

/// A frame's header as read while indexing: the BlobHeader, the length of
/// its encoding, and the frame's total size.
#[derive(Debug, Clone, PartialEq, Eq)]
pub struct FrameHead {
    pub header: BlobHeader,
    pub header_len: usize,
    pub size: u32,
}

/// Reads the length and the BlobHeader of the frame at `off`, without
/// touching its blob.
pub fn read_frame_head(b: &[u8], off: usize) -> (r: Result<Option<FrameHead>>)
    ensures
        match frame_at(b@, off as int) {
            FrameScan::End => r == Ok::<Option<FrameHead>, BlobError>(None),
            FrameScan::Bad => r is Err && r->Err_0 is InvalidFormat,
            FrameScan::TooLarge(h) => r == Err::<Option<FrameHead>, BlobError>(
                BlobError::HeaderTooLarge { size: h as usize, max: MAX_BLOB_HEADER_SIZE },
            ),
            FrameScan::Frame { header_len, type_start, type_end, datasize, size } => {
                &&& r is Ok
                &&& r->Ok_0 is Some
                &&& r->Ok_0->Some_0.header_len == header_len
                &&& r->Ok_0->Some_0.size == size
                &&& r->Ok_0->Some_0.header.datasize == datasize
                &&& indexdata_matches(b@, off + 4, off + 4 + header_len, r->Ok_0->Some_0.header.indexdata)
                &&& blob_type_of(
                    b@.subrange(type_start, type_end),
                    decode_utf8(b@.subrange(type_start, type_end)),
                    r->Ok_0->Some_0.header.blob_type,
                )
            },
        },
{
    let n = b.len();
    if off == n {
        return Ok(None);
    }
    if off > n || n - off < 4 {
        return Err(invalid("truncated frame length"));
    }
    let hlen = read_be_u32(b, off) as usize;
    if hlen > MAX_BLOB_HEADER_SIZE {
        return Err(BlobError::HeaderTooLarge { size: hlen, max: MAX_BLOB_HEADER_SIZE });
    }
    if n - off - 4 < hlen {
        return Err(invalid("truncated blob header"));
    }
    let start = off + 4;
    let end = start + hlen;
    let fields = match read_message(b, start, end) {
        None => return Err(invalid("malformed blob header")),
        Some(f) => f,
    };
    let (ts, te) = match fields.f1 {
        Some(WireValue::Span(s, e)) => (s, e),
        _ => return Err(invalid("blob header without type")),
    };
    let datasize = match fields.f3 {
        Some(WireValue::Varint(d)) => d,
        _ => return Err(invalid("blob header without datasize")),
    };
    if datasize > u32::MAX as u64 {
        return Err(invalid("blob datasize out of range"));
    }
    let name = match utf8_string(slice_subrange(b, ts, te)) {
        None => return Err(invalid("blob type is not UTF-8")),
        Some(s) => s,
    };
    proof {
        decode_utf8_encode_utf8(b@.subrange(ts as int, te as int));
    }
    let total = 4 + hlen as u64 + datasize;
    if total > u32::MAX as u64 || total > (n - off) as u64 {
        return Err(invalid("truncated blob"));
    }
    let indexdata = match fields.f2 {
        Some(WireValue::Span(s, e)) => {
            Some(Bytes::copy_from_slice(slice_subrange(b, s, e)))
        },
        _ => None,
    };
    let header = BlobHeader {
        blob_type: BlobType::parse(name.as_str()),
        datasize: datasize as u32,
        indexdata,
    };
    Ok(Some(FrameHead { header, header_len: hlen, size: total as u32 }))
}

/// The whole frame whose length prefix and BlobHeader are `h`: the
/// header's length fits the bound, `h` holds exactly that header, and the
/// header reads; its size is `h`'s length plus the header's datasize.
pub open spec fn head_size(h: Seq<u8>) -> Option<int> {
    if h.len() < 4 || be_u32(h, 0) > MAX_BLOB_HEADER_SIZE || h.len() != 4 + be_u32(h, 0) {
        None
    } else {
        match header_of(h, 4, h.len() as int) {
            Some((_, _, d)) => if h.len() + d <= u32::MAX {
                Some(h.len() + d)
            } else {
                None
            },
            None => None,
        }
    }
}

/// The size of the frame whose length prefix and BlobHeader are `h`, so
/// that a reader of a stream knows how many bytes the frame takes.
pub fn frame_size_of_head(h: &[u8]) -> (r: Result<u32>)
    ensures
        match head_size(h@) {
            Some(n) => r == Ok::<u32, BlobError>(n as u32),
            None => r is Err,
        },
{
    let n = h.len();
    if n < 4 {
        return Err(invalid("truncated frame length"));
    }
    let hlen = read_be_u32(h, 0) as usize;
    if hlen > MAX_BLOB_HEADER_SIZE {
        return Err(BlobError::HeaderTooLarge { size: hlen, max: MAX_BLOB_HEADER_SIZE });
    }
    if n - 4 != hlen {
        return Err(invalid("frame head of the wrong length"));
    }
    let fields = match read_message(h, 4, n) {
        None => return Err(invalid("malformed blob header")),
        Some(f) => f,
    };
    let (ts, te) = match fields.f1 {
        Some(WireValue::Span(s, e)) => (s, e),
        _ => return Err(invalid("blob header without type")),
    };
    let datasize = match fields.f3 {
        Some(WireValue::Varint(d)) => d,
        _ => return Err(invalid("blob header without datasize")),
    };
    if datasize > u32::MAX as u64 {
        return Err(invalid("blob datasize out of range"));
    }
    if utf8_str(slice_subrange(h, ts, te)).is_none() {
        return Err(invalid("blob type is not UTF-8"));
    }
    let total = n as u64 + datasize;
    if total > u32::MAX as u64 {
        return Err(invalid("frame too large"));
    }
    Ok(total as u32)
}

/// What the Blob message `b[start..end]` holds.
pub enum PayloadScan {
    /// Malformed, or not exactly one payload, or a compressed payload
    /// without its uncompressed size.
    Bad,
    /// The uncompressed size exceeds the bound.
    TooLarge(int),
    /// Raw bytes `b[s..e]`.
    Raw(int, int),
    /// zlib bytes `b[s..e]` and the declared uncompressed size.
    Zlib(int, int, int),
    /// LZMA bytes `b[s..e]` and the declared uncompressed size.
    Lzma(int, int, int),
    /// bzip2 bytes `b[s..e]` and the declared uncompressed size.
    Bzip2(int, int, int),
}

/// Counts a present field.
pub open spec fn present(o: Option<WireValue>) -> int {
    if o is Some {
        1
    } else {
        0
    }
}

/// The payload of the Blob message `b[start..end]`: field 1 raw bytes,
/// field 2 the uncompressed size, fields 3, 4, 5 zlib, LZMA and bzip2 bytes.
pub open spec fn payload_of(b: Seq<u8>, start: int, end: int) -> PayloadScan {
    match message_fields(b, start, end) {
        None => PayloadScan::Bad,
        Some(f) => if present(f.f1) + present(f.f3) + present(f.f4) + present(f.f5) != 1 {
            PayloadScan::Bad
        } else if f.f1 is Some {
            match span_of(f.f1) {
                None => PayloadScan::Bad,
                Some((s, e)) => if e - s > MAX_BLOB_MESSAGE_SIZE {
                    PayloadScan::TooLarge(e - s)
                } else {
                    PayloadScan::Raw(s, e)
                },
            }
        } else {
            match varint_of(f.f2) {
                None => PayloadScan::Bad,
                Some(n) => if n > MAX_BLOB_MESSAGE_SIZE {
                    PayloadScan::TooLarge(n)
                } else if f.f3 is Some {
                    match span_of(f.f3) {
                        None => PayloadScan::Bad,
                        Some((s, e)) => PayloadScan::Zlib(s, e, n),
                    }
                } else if f.f4 is Some {
                    match span_of(f.f4) {
                        None => PayloadScan::Bad,
                        Some((s, e)) => PayloadScan::Lzma(s, e, n),
                    }
                } else {
                    match span_of(f.f5) {
                        None => PayloadScan::Bad,
                        Some((s, e)) => PayloadScan::Bzip2(s, e, n),
                    }
                },
            }
        },
    }
}

/// The payload data that a scan describes.
pub open spec fn payload_matches(b: Seq<u8>, p: PayloadScan, d: BlobData) -> bool {
    match p {
        PayloadScan::Raw(s, e) => d matches BlobData::Raw(x) && bytes_content(x) == b.subrange(s, e),
        PayloadScan::Zlib(s, e, n) => d matches BlobData::ZlibData { compressed, raw_size }
            && bytes_content(compressed) == b.subrange(s, e) && raw_size == n,
        PayloadScan::Lzma(s, e, n) => d matches BlobData::LzmaData { compressed, raw_size }
            && bytes_content(compressed) == b.subrange(s, e) && raw_size == n,
        PayloadScan::Bzip2(s, e, n) => d matches BlobData::Bzip2Data { compressed, raw_size }
            && bytes_content(compressed) == b.subrange(s, e) && raw_size == n,
        _ => false,
    }
}

fn copy_span(b: &[u8], v: Option<WireValue>, end: usize) -> (r: Option<Bytes>)
    requires
        end <= b@.len(),
        v matches Some(w) ==> value_within(w, end as int),
    ensures
        span_of(v) is None <==> r is None,
        span_of(v) matches Some((s, e)) ==> bytes_content(r->Some_0) == b@.subrange(s, e),
{
    match v {
        Some(WireValue::Span(s, e)) => Some(Bytes::copy_from_slice(slice_subrange(b, s, e))),
        _ => None,
    }
}

/// Decodes the Blob message `b[start..end]`.
pub fn read_payload(b: &[u8], start: usize, end: usize) -> (r: Result<BlobData>)
    requires
        start <= end <= b@.len(),
    ensures
        match payload_of(b@, start as int, end as int) {
            PayloadScan::Bad => r is Err && r->Err_0 is InvalidFormat,
            PayloadScan::TooLarge(n) => r == Err::<BlobData, BlobError>(
                BlobError::MessageTooLarge { size: n as usize, max: MAX_BLOB_MESSAGE_SIZE },
            ),
            p => r is Ok && payload_matches(b@, p, r->Ok_0),
        },
{
    let f = match read_message(b, start, end) {
        None => return Err(invalid("malformed blob")),
        Some(f) => f,
    };
    let count: u8 = (if f.f1.is_some() { 1u8 } else { 0u8 }) + (if f.f3.is_some() { 1u8 } else { 0u8 })
        + (if f.f4.is_some() { 1u8 } else { 0u8 }) + (if f.f5.is_some() { 1u8 } else { 0u8 });
    if count != 1 {
        return Err(invalid("blob must hold exactly one payload"));
    }
    if f.f1.is_some() {
        return match f.f1 {
            Some(WireValue::Span(s, e)) => {
                if e - s > MAX_BLOB_MESSAGE_SIZE {
                    Err(BlobError::MessageTooLarge { size: e - s, max: MAX_BLOB_MESSAGE_SIZE })
                } else {
                    Ok(BlobData::Raw(Bytes::copy_from_slice(slice_subrange(b, s, e))))
                }
            },
            _ => Err(invalid("malformed raw payload")),
        };
    }
    let raw_size = match f.f2 {
        Some(WireValue::Varint(n)) => n,
        _ => return Err(invalid("compressed blob without raw_size")),
    };
    if raw_size > MAX_BLOB_MESSAGE_SIZE as u64 {
        return Err(BlobError::MessageTooLarge { size: raw_size as usize, max: MAX_BLOB_MESSAGE_SIZE });
    }
    let raw_size = raw_size as u32;
    if f.f3.is_some() {
        match copy_span(b, f.f3, end) {
            None => Err(invalid("malformed zlib payload")),
            Some(compressed) => Ok(BlobData::ZlibData { compressed, raw_size }),
        }
    } else if f.f4.is_some() {
        match copy_span(b, f.f4, end) {
            None => Err(invalid("malformed lzma payload")),
            Some(compressed) => Ok(BlobData::LzmaData { compressed, raw_size }),
        }
    } else {
        match copy_span(b, f.f5, end) {
            None => Err(invalid("malformed bzip2 payload")),
            Some(compressed) => Ok(BlobData::Bzip2Data { compressed, raw_size }),
        }
    }
}

/// What reading the blob of the frame at `off` gives: nothing at the end
/// of the file, the error of a malformed frame or payload, or the blob.
pub open spec fn frame_read(b: Seq<u8>, off: int, r: Result<Option<Blob>>) -> bool {
    match frame_at(b, off) {
        FrameScan::End => r == Ok::<Option<Blob>, BlobError>(None),
        FrameScan::Bad => r is Err && r->Err_0 is InvalidFormat,
        FrameScan::TooLarge(h) => r == Err::<Option<Blob>, BlobError>(
            BlobError::HeaderTooLarge { size: h as usize, max: MAX_BLOB_HEADER_SIZE },
        ),
        FrameScan::Frame { header_len, type_start, type_end, datasize, size } => {
            let p = payload_of(b, off + 4 + header_len, off + size);
            match p {
                PayloadScan::Bad => r is Err && r->Err_0 is InvalidFormat,
                PayloadScan::TooLarge(n) => r == Err::<Option<Blob>, BlobError>(
                    BlobError::MessageTooLarge { size: n as usize, max: MAX_BLOB_MESSAGE_SIZE },
                ),
                _ => {
                    &&& r is Ok
                    &&& r->Ok_0 is Some
                    &&& r->Ok_0->Some_0.offset == off
                    &&& r->Ok_0->Some_0.header.datasize == datasize
                    &&& indexdata_matches(b, off + 4, off + 4 + header_len, r->Ok_0->Some_0.header.indexdata)
                    &&& blob_type_of(
                        b.subrange(type_start, type_end),
                        decode_utf8(b.subrange(type_start, type_end)),
                        r->Ok_0->Some_0.header.blob_type,
                    )
                    &&& payload_matches(b, p, r->Ok_0->Some_0.data)
                },
            }
        },
    }
}

/// The blob part of a frame read.
pub open spec fn blob_part(r: Result<Option<(Blob, usize)>>) -> Result<Option<Blob>> {
    match r {
        Ok(Some((blob, _))) => Ok(Some(blob)),
        Ok(None) => Ok(None),
        Err(e) => Err(e),
    }
}

/// Reads the whole frame at `off`: its BlobHeader and its payload, and the
/// offset of the next frame. `None` at the end of the file.
pub fn read_frame_at(b: &[u8], off: usize) -> (r: Result<Option<(Blob, usize)>>)
    ensures
        frame_read(b@, off as int, blob_part(r)),
        r matches Ok(Some((_, next))) ==> frame_at(b@, off as int) matches FrameScan::Frame {
            size,
            ..
        } && next == off + size,
{
    let n = b.len();
    let head = match read_frame_head(b, off) {
        Err(e) => return Err(e),
        Ok(None) => return Ok(None),
        Ok(Some(h)) => h,
    };
    assert(frame_at(b@, off as int) is Frame);
    let start = off + 4 + head.header_len;
    let end = off + head.size as usize;
    let data = match read_payload(b, start, end) {
        Err(e) => return Err(e),
        Ok(d) => d,
    };
    Ok(Some((Blob { header: head.header, data, offset: off as u64 }, end)))
}

} // verus!
