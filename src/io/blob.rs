//! Blobs: the length-framed, optionally compressed payloads of a PBF file.

use vstd::prelude::*;
use bytes::Bytes;
use vstd::string::StringSliceAdditionalSpecFns;

verus! {

/// Largest accepted BlobHeader, in bytes (64 KiB).
pub const MAX_BLOB_HEADER_SIZE: usize = 65_536;

/// Largest accepted uncompressed blob, in bytes (32 MiB).
pub const MAX_BLOB_MESSAGE_SIZE: usize = 33_554_432;

/// The shared byte buffer of the `bytes` crate, carried without looking
/// inside; what it holds is named by [`bytes_content`].
#[verifier::external_type_specification]
#[verifier::external_body]
pub struct ExBytes(Bytes);

/// What a `Bytes` buffer holds, byte by byte.
pub uninterp spec fn bytes_content(b: Bytes) -> Seq<u8>;

/// Relies on `Bytes::len`: the number of bytes the buffer holds.
pub assume_specification[ Bytes::len ](b: &Bytes) -> (r: usize)
    ensures
        r == bytes_content(*b).len(),
;

/// Relies on `Bytes`' `Clone`: the clone shares the same bytes.
pub assume_specification[ <Bytes as Clone>::clone ](b: &Bytes) -> (r: Bytes)
    ensures
        bytes_content(r) == bytes_content(*b),
;

/// Relies on `Bytes::copy_from_slice`: a buffer holding a copy of `data`.
pub assume_specification[ Bytes::copy_from_slice ](data: &[u8]) -> (r: Bytes)
    ensures
        bytes_content(r) == data@,
;

/// Relies on `Bytes`' `Deref` to `[u8]`: the buffer's bytes, borrowed.
#[verifier::external_body]
pub(crate) fn bytes_slice(b: &Bytes) -> (r: &[u8])
    ensures
        r@ == bytes_content(*b),
{
    &**b
}

/// Errors of the file layer and of block decoding.
#[derive(Debug, Clone, PartialEq, Eq)]
pub enum BlobError {
    /// The byte source failed.
    Io(String),
    /// A BlobHeader longer than [`MAX_BLOB_HEADER_SIZE`].
    HeaderTooLarge { size: usize, max: usize },
    /// A blob whose uncompressed size exceeds [`MAX_BLOB_MESSAGE_SIZE`].
    MessageTooLarge { size: usize, max: usize },
    /// Malformed framing, truncation, impossible offsets or lengths.
    InvalidFormat(String),
    /// Decompression failed, or gave another size than declared.
    Compression(String),
    /// A blob type that the caller asked to be refused.
    UnknownType(String),
    /// A compressed payload that this reader cannot expand.
    UnknownCompression(String),
    /// A required feature of the header that this reader lacks.
    UnsupportedFeature(String),
    /// A block whose content is inconsistent: string index, delta overflow,
    /// column lengths, missing tag terminator.
    DecodeError(String),
    /// A blob index or offset outside the file.
    OutOfRange(String),
}

pub type Result<T> = core::result::Result<T, BlobError>;

/// The bytes of the ASCII name `OSMHeader`.
pub open spec fn osm_header_name() -> Seq<u8> {
    seq![79u8, 83u8, 77u8, 72u8, 101u8, 97u8, 100u8, 101u8, 114u8]
}

/// The bytes of the ASCII name `OSMData`.
pub open spec fn osm_data_name() -> Seq<u8> {
    seq![79u8, 83u8, 77u8, 68u8, 97u8, 116u8, 97u8]
}

/// Compares two byte slices.
pub fn bytes_equal(a: &[u8], b: &[u8]) -> (r: bool)
    ensures
        r == (a@ == b@),
{
    if a.len() != b.len() {
        return false;
    }
    let mut i: usize = 0;
    while i < a.len()
        invariant
            a@.len() == b@.len(),
            0 <= i <= a@.len(),
            a@.subrange(0, i as int) == b@.subrange(0, i as int),
        decreases a@.len() - i,
    {
        if a[i] != b[i] {
            assert(a@[i as int] != b@[i as int]);
            return false;
        }
        assert(a@.subrange(0, i + 1) == a@.subrange(0, i as int).push(a@[i as int]));
        assert(b@.subrange(0, i + 1) == b@.subrange(0, i as int).push(b@[i as int]));
        i = i + 1;
    }
    assert(a@ == a@.subrange(0, a@.len() as int));
    assert(b@ == b@.subrange(0, b@.len() as int));
    true
}

/// The kind of data a blob holds.
#[derive(Debug, Clone, PartialEq, Eq)]
pub enum BlobType {
    /// File metadata (a HeaderBlock).
    OSMHeader,
    /// Map elements (a PrimitiveBlock).
    OSMData,
    /// Any other type name, kept as written.
    Unknown(String),
}

/// The blob type that a type name stands for, over the name's bytes and
/// its characters.
pub open spec fn blob_type_of(bytes: Seq<u8>, chars: Seq<char>, t: BlobType) -> bool {
    if bytes == osm_header_name() {
        t is OSMHeader
    } else if bytes == osm_data_name() {
        t is OSMData
    } else {
        t is Unknown && t->Unknown_0@ == chars
    }
}

impl BlobType {
    /// Classifies a type name: `OSMHeader`, `OSMData`, or any other name.
    pub fn parse(s: &str) -> (r: BlobType)
        ensures
            blob_type_of(s.spec_bytes(), s@, r),
    {
        let header: [u8; 9] = [79u8, 83u8, 77u8, 72u8, 101u8, 97u8, 100u8, 101u8, 114u8];
        let data: [u8; 7] = [79u8, 83u8, 77u8, 68u8, 97u8, 116u8, 97u8];
        assert(header@ == osm_header_name());
        assert(data@ == osm_data_name());
        let b = s.as_bytes();
        if bytes_equal(b, header.as_slice()) {
            BlobType::OSMHeader
        } else if bytes_equal(b, data.as_slice()) {
            BlobType::OSMData
        } else {
            BlobType::Unknown(s.to_owned())
        }
    }

    /// The type's name as written in a BlobHeader.
    pub fn as_str(&self) -> (r: &str)
        ensures
            self is OSMHeader ==> r@ == "OSMHeader"@,
            self is OSMData ==> r@ == "OSMData"@,
            self is Unknown ==> r@ == self->Unknown_0@,
    {
        match self {
            BlobType::OSMHeader => "OSMHeader",
            BlobType::OSMData => "OSMData",
            BlobType::Unknown(s) => s.as_str(),
        }
    }
}

impl core::str::FromStr for BlobType {
    type Err = ();

    fn from_str(s: &str) -> core::result::Result<BlobType, ()> {
        Ok(BlobType::parse(s))
    }
}

/// The metadata that precedes every blob.
#[derive(Debug, Clone, PartialEq, Eq)]
pub struct BlobHeader {
    /// What the blob holds.
    pub blob_type: BlobType,
    /// Length in bytes of the encoded blob that follows the header.
    pub datasize: u32,
    /// Optional index data.
    pub indexdata: Option<Bytes>,
}

impl BlobHeader {
    /// A header without index data.
    pub fn new(blob_type: BlobType, datasize: u32) -> (r: BlobHeader)
        ensures
            r.blob_type == blob_type,
            r.datasize == datasize,
            r.indexdata.is_none(),
    {
        BlobHeader { blob_type, datasize, indexdata: None }
    }

    /// Refuses a header longer than [`MAX_BLOB_HEADER_SIZE`].
    pub fn validate_size(&self, header_size: usize) -> (r: Result<()>)
        ensures
            header_size <= MAX_BLOB_HEADER_SIZE <==> r is Ok,
            r is Err ==> r->Err_0 == (BlobError::HeaderTooLarge {
                size: header_size,
                max: MAX_BLOB_HEADER_SIZE,
            }),
    {
        if header_size > MAX_BLOB_HEADER_SIZE {
            return Err(BlobError::HeaderTooLarge { size: header_size, max: MAX_BLOB_HEADER_SIZE });
        }
        Ok(())
    }
}

/// A blob's payload: raw, or compressed with its declared uncompressed size.
#[derive(Debug, Clone, PartialEq, Eq)]
pub enum BlobData {
    /// Uncompressed bytes.
    Raw(Bytes),
    /// zlib-compressed bytes.
    ZlibData { compressed: Bytes, raw_size: u32 },
    /// LZMA-compressed bytes.
    LzmaData { compressed: Bytes, raw_size: u32 },
    /// bzip2-compressed bytes.
    Bzip2Data { compressed: Bytes, raw_size: u32 },
}

impl BlobData {
    /// The uncompressed size: the length of raw bytes, else the declared size.
    pub open spec fn spec_raw_size(&self) -> u32 {
        match self {
            BlobData::Raw(d) => bytes_content(*d).len() as u32,
            BlobData::ZlibData { raw_size, .. } => *raw_size,
            BlobData::LzmaData { raw_size, .. } => *raw_size,
            BlobData::Bzip2Data { raw_size, .. } => *raw_size,
        }
    }

    /// The uncompressed length: that of raw bytes, else the declared size.
    pub open spec fn uncompressed_len(&self) -> nat {
        match self {
            BlobData::Raw(d) => bytes_content(*d).len(),
            BlobData::ZlibData { raw_size, .. } => *raw_size as nat,
            BlobData::LzmaData { raw_size, .. } => *raw_size as nat,
            BlobData::Bzip2Data { raw_size, .. } => *raw_size as nat,
        }
    }

    /// The uncompressed size of the data.
    pub fn raw_size(&self) -> (r: u32)
        ensures
            r == self.spec_raw_size(),
    {
        match self {
            BlobData::Raw(data) => data.len() as u32,
            BlobData::ZlibData { raw_size, .. } => *raw_size,
            BlobData::LzmaData { raw_size, .. } => *raw_size,
            BlobData::Bzip2Data { raw_size, .. } => *raw_size,
        }
    }

    /// True unless the data is raw.
    pub fn is_compressed(&self) -> (r: bool)
        ensures
            r == !(self is Raw),
    {
        match self {
            BlobData::Raw(_) => false,
            _ => true,
        }
    }

    /// Refuses data whose uncompressed size exceeds [`MAX_BLOB_MESSAGE_SIZE`].
    pub fn validate_size(&self) -> (r: Result<()>)
        ensures
            self.uncompressed_len() <= MAX_BLOB_MESSAGE_SIZE <==> r is Ok,
            r is Err ==> r->Err_0 == (BlobError::MessageTooLarge {
                size: self.uncompressed_len() as usize,
                max: MAX_BLOB_MESSAGE_SIZE,
            }),
    {
        let size: usize = match self {
            BlobData::Raw(data) => data.len(),
            BlobData::ZlibData { raw_size, .. } => *raw_size as usize,
            BlobData::LzmaData { raw_size, .. } => *raw_size as usize,
            BlobData::Bzip2Data { raw_size, .. } => *raw_size as usize,
        };
        if size > MAX_BLOB_MESSAGE_SIZE {
            return Err(BlobError::MessageTooLarge { size, max: MAX_BLOB_MESSAGE_SIZE });
        }
        Ok(())
    }
}

/// A blob read from a file: its header, its payload, and where it starts.
#[derive(Debug, Clone, PartialEq, Eq)]
pub struct Blob {
    pub header: BlobHeader,
    pub data: BlobData,
    /// Byte offset of the blob's frame in the file.
    pub offset: u64,
}

impl Blob {
    /// A blob of raw bytes; refused when longer than [`MAX_BLOB_MESSAGE_SIZE`].
    pub fn new_raw(blob_type: BlobType, data: Bytes, offset: u64) -> (r: Result<Blob>)
        ensures
            bytes_content(data).len() <= MAX_BLOB_MESSAGE_SIZE <==> r is Ok,
            r is Ok ==> r->Ok_0 == (Blob {
                header: BlobHeader {
                    blob_type,
                    datasize: bytes_content(data).len() as u32,
                    indexdata: None,
                },
                data: BlobData::Raw(data),
                offset,
            }),
            r is Err ==> r->Err_0 == (BlobError::MessageTooLarge {
                size: bytes_content(data).len() as usize,
                max: MAX_BLOB_MESSAGE_SIZE,
            }),
    {
        let header = BlobHeader::new(blob_type, data.len() as u32);
        let blob_data = BlobData::Raw(data);
        blob_data.validate_size()?;
        Ok(Blob { header, data: blob_data, offset })
    }

    /// A blob of zlib-compressed bytes with its declared uncompressed size;
    /// refused when that size exceeds [`MAX_BLOB_MESSAGE_SIZE`].
    pub fn new_zlib(blob_type: BlobType, compressed: Bytes, raw_size: u32, offset: u64) -> (r:
        Result<Blob>)
        ensures
            raw_size <= MAX_BLOB_MESSAGE_SIZE <==> r is Ok,
            r is Ok ==> r->Ok_0 == (Blob {
                header: BlobHeader {
                    blob_type,
                    datasize: bytes_content(compressed).len() as u32,
                    indexdata: None,
                },
                data: BlobData::ZlibData { compressed, raw_size },
                offset,
            }),
            r is Err ==> r->Err_0 == (BlobError::MessageTooLarge {
                size: raw_size as usize,
                max: MAX_BLOB_MESSAGE_SIZE,
            }),
    {
        let header = BlobHeader::new(blob_type, compressed.len() as u32);
        let blob_data = BlobData::ZlibData { compressed, raw_size };
        blob_data.validate_size()?;
        Ok(Blob { header, data: blob_data, offset })
    }

    /// What the blob holds.
    pub fn blob_type(&self) -> (r: &BlobType)
        ensures
            *r == self.header.blob_type,
    {
        &self.header.blob_type
    }

    /// Byte offset of the blob's frame in the file.
    pub fn offset(&self) -> (r: u64)
        ensures
            r == self.offset,
    {
        self.offset
    }

    /// Size of the stored (possibly compressed) payload.
    pub fn compressed_size(&self) -> (r: u32)
        ensures
            r == self.header.datasize,
    {
        self.header.datasize
    }

    /// Size of the payload once uncompressed.
    pub fn raw_size(&self) -> (r: u32)
        ensures
            r == self.data.spec_raw_size(),
    {
        self.data.raw_size()
    }

    /// True unless the payload is raw.
    pub fn is_compressed(&self) -> (r: bool)
        ensures
            r == !(self.data is Raw),
    {
        self.data.is_compressed()
    }
}

} // verus!
