//! The high-level reader: every element of a file, filtered, with
//! processing statistics.

use vstd::prelude::*;
use crate::blocks::primitives::{ChangeSet, Node, Relation, Way};
use crate::blocks::string_table::StringTable;
use crate::blocks::header_block::HeaderBBox;
use crate::io::filter::{has_tag, tags_pass};
use crate::io::indexed_reader::{
    BlobIndex,
    read_blob_in,
    FileIndex,
    ElementFilter, IndexStatistics, IndexedReader, admits_blob, blob_admitted,
    count_type, filter_within, range_within, sat_sum,
};
use crate::io::blob::{Blob, BlobData, BlobError, BlobType, Result, bytes_content, bytes_slice};
use crate::blocks::primitives::PrimitiveBlock;
use crate::blocks::block_codec::{block_wire, header_wire, read_block, read_header_block};
use crate::blocks::header_block::{HeaderBlock, is_supported_feature};
use crate::blocks::decode::{decode_block, frame_of, group_ok, groups_decode};
use crate::io::frame::{FrameScan, PayloadScan, frame_at, frame_read, payload_of};
use crate::io::blob::{osm_data_name, osm_header_name};

verus! {

/// Any element of a file.
#[derive(Debug, Clone, PartialEq, Eq)]
pub enum OsmElement {
    Node(Node),
    Way(Way),
    Relation(Relation),
    ChangeSet(ChangeSet),
}

/// Settings for parallel processing.
#[derive(Debug, Clone, Copy)]
pub struct ParallelConfig {
    /// Number of worker threads; `None` uses every core.
    pub num_threads: Option<usize>,
    /// Blobs per task.
    pub chunk_size: usize,
    /// Whether results keep file order.
    pub preserve_order: bool,
}

impl Default for ParallelConfig {
    fn default() -> (r: ParallelConfig)
        ensures
            r.num_threads is None,
            r.chunk_size == 100,
            !r.preserve_order,
    {
        ParallelConfig { num_threads: None, chunk_size: 100, preserve_order: false }
    }
}

/// What an iteration did: blobs and elements by type, and blobs skipped
/// for an error.
#[derive(Debug, Clone, Copy, Default, PartialEq, Eq)]
pub struct ProcessingStats {
    pub blobs_processed: u64,
    pub elements_processed: u64,
    pub nodes_processed: u64,
    pub ways_processed: u64,
    pub relations_processed: u64,
    pub changesets_processed: u64,
    pub errors_encountered: u64,
}

/// The id lies in one of the filter's ranges, or the filter has none.
pub open spec fn id_passes(f: ElementFilter, id: i64) -> bool {
    f.id_ranges@.len() == 0 || exists|i: int|
        0 <= i < f.id_ranges@.len() && (#[trigger] f.id_ranges@[i]).0 <= id <= f.id_ranges@[i].1
}

/// The node lies in the box, or there is no box.
pub open spec fn bbox_passes(b: Option<HeaderBBox>, n: Node) -> bool {
    match b {
        None => true,
        Some(x) => x.min_lat.0 <= n.lat <= x.max_lat.0 && x.min_lon.0 <= n.lon <= x.max_lon.0,
    }
}

/// The element's type is wanted, its id is in range, its tags meet the
/// conditions, and a node lies in the box.
pub open spec fn element_admitted(f: ElementFilter, e: OsmElement, table: Seq<Seq<char>>) -> bool {
    let conds = f.tag_filters.conditions();
    match e {
        OsmElement::Node(n) => f.include_nodes && id_passes(f, n.id) && tags_pass(table, n.keys@, n.vals@, conds)
            && bbox_passes(f.bbox, n),
        OsmElement::Way(w) => f.include_ways && id_passes(f, w.id) && tags_pass(table, w.keys@, w.vals@, conds),
        OsmElement::Relation(r) => f.include_relations && id_passes(f, r.id) && tags_pass(table, r.keys@, r.vals@, conds),
        OsmElement::ChangeSet(c) => f.include_changesets && id_passes(f, c.id) && tags_pass(table, c.keys@, c.vals@, conds),
    }
}

/// Decides whether an id lies in the filter's ranges.
fn id_in_ranges(f: &ElementFilter, id: i64) -> (r: bool)
    ensures
        r == id_passes(*f, id),
{
    if f.id_ranges.len() == 0 {
        return true;
    }
    let mut i: usize = 0;
    while i < f.id_ranges.len()
        invariant
            i <= f.id_ranges@.len(),
            f.id_ranges@.len() > 0,
            forall|j: int| 0 <= j < i ==> !((#[trigger] f.id_ranges@[j]).0 <= id <= f.id_ranges@[j].1),
        decreases f.id_ranges@.len() - i,
    {
        let (lo, hi) = f.id_ranges[i];
        if lo <= id && id <= hi {
            assert(f.id_ranges@[i as int].0 <= id <= f.id_ranges@[i as int].1);
            return true;
        }
        i = i + 1;
    }
    false
}

/// The per-element filter, with tags resolved in the block's table.
pub fn element_matches(f: &ElementFilter, e: &OsmElement, table: &StringTable) -> (r: bool)
    ensures
        r == element_admitted(*f, *e, table.strings()),
{
    match e {
        OsmElement::Node(n) => {
            if !f.include_nodes || !id_in_ranges(f, n.id) || !f.tag_filters.passes(table, &n.keys, &n.vals) {
                return false;
            }
            match f.bbox {
                None => true,
                Some(b) => b.min_lat.0 <= n.lat && n.lat <= b.max_lat.0 && b.min_lon.0 <= n.lon && n.lon <= b.max_lon.0,
            }
        },
        OsmElement::Way(w) => f.include_ways && id_in_ranges(f, w.id) && f.tag_filters.passes(table, &w.keys, &w.vals),
        OsmElement::Relation(r) => f.include_relations && id_in_ranges(f, r.id) && f.tag_filters.passes(table, &r.keys, &r.vals),
        OsmElement::ChangeSet(c) => f.include_changesets && id_in_ranges(f, c.id) && f.tag_filters.passes(table, &c.keys, &c.vals),
    }
}

/// A narrower filter keeps no element that a wider one drops: the
/// elements it produces are a subset of the wider filter's.
pub proof fn lemma_filter_monotone(narrow: ElementFilter, wide: ElementFilter, e: OsmElement, table: Seq<Seq<char>>)
    requires
        filter_within(narrow, wide),
        element_admitted(narrow, e, table),
    ensures
        element_admitted(wide, e, table),
{
    let id = match e {
        OsmElement::Node(n) => n.id,
        OsmElement::Way(w) => w.id,
        OsmElement::Relation(r) => r.id,
        OsmElement::ChangeSet(c) => c.id,
    };
    let (keys, vals) = match e {
        OsmElement::Node(n) => (n.keys@, n.vals@),
        OsmElement::Way(w) => (w.keys@, w.vals@),
        OsmElement::Relation(r) => (r.keys@, r.vals@),
        OsmElement::ChangeSet(c) => (c.keys@, c.vals@),
    };
    if wide.id_ranges@.len() > 0 {
        let i = choose|i: int| 0 <= i < narrow.id_ranges@.len() && (#[trigger] narrow.id_ranges@[i]).0 <= id <= narrow.id_ranges@[i].1;
        let j = choose|j: int| 0 <= j < wide.id_ranges@.len() && range_within(#[trigger] narrow.id_ranges@[i], wide.id_ranges@[j]);
        assert(wide.id_ranges@[j].0 <= id <= wide.id_ranges@[j].1);
    }
    let nc = narrow.tag_filters.conditions();
    let wc = wide.tag_filters.conditions();
    assert forall|c: int| 0 <= c < wc.len() implies has_tag(table, keys, vals, #[trigger] wc[c].0, wc[c].1) by {
        assert(nc.contains(wc[c]));
        let k = choose|k: int| 0 <= k < nc.len() && nc[k] == wc[c];
        assert(has_tag(table, keys, vals, nc[k].0, nc[k].1));
    }
}

/// The block of a data blob: raw payloads are read as a PrimitiveBlock;
/// compressed ones are refused; other blobs hold no block.
pub fn blob_block(blob: &Blob) -> (r: Result<Option<PrimitiveBlock>>)
    ensures
        !(blob.header.blob_type is OSMData) ==> r == Ok::<Option<PrimitiveBlock>, BlobError>(None),
        blob.header.blob_type is OSMData && !(blob.data is Raw) ==> r is Err && r->Err_0 is UnknownCompression,
        blob.header.blob_type is OSMData && blob.data is Raw ==> {
            let b = bytes_content(blob.data->Raw_0);
            &&& r matches Ok(Some(p)) ==> block_wire(b, 0, b.len() as int, p)
            &&& r is Err ==> r->Err_0 is InvalidFormat && forall|p: PrimitiveBlock| !block_wire(b, 0, b.len() as int, p)
            &&& !(r matches Ok(None))
        },
{
    match blob.header.blob_type {
        BlobType::OSMData => {},
        _ => return Ok(None),
    }
    match &blob.data {
        BlobData::Raw(bytes) => {
            let v = bytes_slice(bytes);
            match read_block(v, 0, v.len()) {
                Ok(p) => Ok(Some(p)),
                Err(e) => Err(e),
            }
        },
        BlobData::ZlibData { .. } => Err(BlobError::UnknownCompression("zlib".to_owned())),
        BlobData::LzmaData { .. } => Err(BlobError::UnknownCompression("lzma".to_owned())),
        BlobData::Bzip2Data { .. } => Err(BlobError::UnknownCompression("bzip2".to_owned())),
    }
}

/// The header requires only features this reader implements.
pub open spec fn features_supported(h: HeaderBlock) -> bool {
    forall|i: int| 0 <= i < h.required_features@.len() ==> is_supported_feature(#[trigger] h.required_features@[i]@)
}

/// What checking a blob's header gives: other blobs pass; a compressed
/// header is refused; a raw one passes only when it reads as a HeaderBlock
/// that requires only supported features, and names an unsupported
/// feature it requires when it fails for that.
pub open spec fn header_check(blob: Blob, r: Result<()>) -> bool {
    &&& !(blob.header.blob_type is OSMHeader) ==> r is Ok
    &&& blob.header.blob_type is OSMHeader && !(blob.data is Raw) ==> r is Err && r->Err_0 is UnknownCompression
    &&& blob.header.blob_type is OSMHeader && blob.data is Raw ==> {
        let b = bytes_content(blob.data->Raw_0);
        &&& r is Ok ==> exists|h: HeaderBlock| header_wire(b, 0, b.len() as int, h) && features_supported(h)
        &&& r is Err ==> (r->Err_0 is InvalidFormat && forall|h: HeaderBlock| !header_wire(b, 0, b.len() as int, h))
            || r->Err_0 is UnsupportedFeature
        &&& ((exists|h: HeaderBlock| header_wire(b, 0, b.len() as int, h)) && forall|h: HeaderBlock|
            header_wire(b, 0, b.len() as int, h) ==> features_supported(h)) ==> r is Ok
        &&& r matches Err(BlobError::UnsupportedFeature(name)) ==> exists|h: HeaderBlock|
            header_wire(b, 0, b.len() as int, h) && exists|i: int|
                0 <= i < h.required_features@.len() && h.required_features@[i] == name
                    && !is_supported_feature(name@)
    }
}

/// Checks a header blob: its raw payload must read as a HeaderBlock that
/// requires only features this reader implements; a compressed payload is
/// refused. Other blobs pass.
pub fn check_header_blob(blob: &Blob) -> (r: Result<()>)
    ensures
        header_check(*blob, r),
{
    match blob.header.blob_type {
        BlobType::OSMHeader => {},
        _ => return Ok(()),
    }
    match &blob.data {
        BlobData::Raw(bytes) => {
            let v = bytes_slice(bytes);
            let h = match read_header_block(v, 0, v.len()) {
                Ok(h) => h,
                Err(e) => return Err(e),
            };
            let r = h.check_required_features();
            proof {
                assert(header_wire(bytes_content(blob.data->Raw_0), 0, v@.len() as int, h));
                if r is Ok {
                    assert(features_supported(h));
                } else {
                    assert(!features_supported(h));
                    assert(r->Err_0 is UnsupportedFeature);
                }
            }
            r
        },
        _ => Err(BlobError::UnknownCompression("compressed header blob".to_owned())),
    }
}

impl IndexedReader {
    /// Checks the file's first header blob, if there is one; see
    /// [`check_header_blob`].
    pub fn check_header(&self) -> (r: Result<()>)
        ensures
            self.file_index().header() is None ==> r is Ok,
            r is Ok && self.file_index().header() is Some ==> exists|blob: Blob|
                #[trigger] frame_read(self.bytes(), self.file_index().header()->Some_0.offset as int, Ok(Some(blob)))
                    && header_check(blob, r),
            self.file_index().header() matches Some(e) ==> header_read_result(self.bytes(), e.offset as int, r),
    {
        let entry = match self.header_blob() {
            None => return Ok(()),
            Some(e) => e,
        };
        match self.read_blob_at_offset(entry.offset) {
            Err(e) => Err(e),
            Ok(None) => Err(BlobError::InvalidFormat("no frame at the header's offset".to_owned())),
            Ok(Some(blob)) => {
                let r = check_header_blob(&blob);
                let ghost b = self.bytes();
                let ghost off = entry.offset as int;
                assert(frame_read(b, off, Ok(Some(blob))));
                proof {
                    assert(osm_header_name() != osm_data_name()) by {
                        assert(osm_header_name().len() != osm_data_name().len());
                    }
                    assert forall|x: Blob| #[trigger] frame_read(b, off, Ok(Some(x))) implies header_check(x, r) by {
                        if x.data is Raw && blob.data is Raw {
                            assert(bytes_content(x.data->Raw_0) == bytes_content(blob.data->Raw_0));
                        }
                    }
                }
                r
            },
        }
    }
}

/// What checking the header at `off` gives: the frame's read error when it
/// does not read; an error when no frame stands there; otherwise what
/// checking its blob gives, whichever way the frame is read.
pub open spec fn header_read_result(b: Seq<u8>, off: int, r: Result<()>) -> bool {
    &&& off > b.len() ==> r is Err && r->Err_0 is OutOfRange
    &&& off <= b.len() ==> {
        &&& (forall|x: Blob| #[trigger] frame_read(b, off, Ok(Some(x))) ==> header_check(x, r))
        &&& (frame_read(b, off, Ok(None)) ==> r is Err && r->Err_0 is InvalidFormat)
        &&& (r is Err && !(exists|x: Blob| #[trigger] frame_read(b, off, Ok(Some(x))))) ==> frame_read(
            b,
            off,
            Err::<Option<Blob>, BlobError>(r->Err_0),
        ) || frame_read(b, off, Ok(None))
    }
}

/// Number of elements of a kind: 0 nodes, 1 ways, 2 relations,
/// 3 changesets.
pub open spec fn count_kind(s: Seq<OsmElement>, kind: int) -> int
    decreases s.len(),
{
    if s.len() == 0 {
        0
    } else {
        count_kind(s.drop_last(), kind) + if element_kind(s.last()) == kind {
            1int
        } else {
            0int
        }
    }
}

/// 0 for a node, 1 a way, 2 a relation, 3 a changeset.
pub open spec fn element_kind(e: OsmElement) -> int {
    match e {
        OsmElement::Node(_) => 0,
        OsmElement::Way(_) => 1,
        OsmElement::Relation(_) => 2,
        OsmElement::ChangeSet(_) => 3,
    }
}

proof fn lemma_count_kind_bound(s: Seq<OsmElement>, kind: int)
    ensures
        0 <= count_kind(s, kind) <= s.len(),
    decreases s.len(),
{
    if s.len() > 0 {
        lemma_count_kind_bound(s.drop_last(), kind);
    }
}

/// The statistics describe the collected elements.
pub open spec fn stats_describe(st: ProcessingStats, out: Seq<OsmElement>) -> bool {
    &&& st.elements_processed == out.len()
    &&& st.nodes_processed == count_kind(out, 0)
    &&& st.ways_processed == count_kind(out, 1)
    &&& st.relations_processed == count_kind(out, 2)
    &&& st.changesets_processed == count_kind(out, 3)
}

/// The elements of `s` that pass the filter, in order.
pub open spec fn admitted_of(s: Seq<OsmElement>, f: ElementFilter, t: Seq<Seq<char>>) -> Seq<OsmElement>
    decreases s.len(),
{
    if s.len() == 0 {
        Seq::empty()
    } else {
        let r = admitted_of(s.drop_last(), f, t);
        if element_admitted(f, s.last(), t) {
            r.push(s.last())
        } else {
            r
        }
    }
}

/// The kept elements are no more than the input, and each passes.
pub proof fn lemma_admitted_of(s: Seq<OsmElement>, f: ElementFilter, t: Seq<Seq<char>>)
    ensures
        admitted_of(s, f, t).len() <= s.len(),
        forall|i: int| 0 <= i < admitted_of(s, f, t).len() ==> element_admitted(f, #[trigger] admitted_of(s, f, t)[i], t),
    decreases s.len(),
{
    if s.len() > 0 {
        lemma_admitted_of(s.drop_last(), f, t);
        let r = admitted_of(s.drop_last(), f, t);
        if element_admitted(f, s.last(), t) {
            assert forall|i: int| 0 <= i < r.push(s.last()).len() implies element_admitted(f, #[trigger] r.push(s.last())[i], t) by {
                if i < r.len() {
                    assert(r.push(s.last())[i] == r[i]);
                }
            }
        }
    }
}

/// Appends the elements that pass `f`, keeping their order and counting them.
fn keep_matching(
    out: &mut Vec<OsmElement>,
    stats: &mut ProcessingStats,
    elements: Vec<OsmElement>,
    f: &ElementFilter,
    table: &crate::blocks::string_table::StringTable,
)
    requires
        stats_describe(*old(stats), old(out)@),
        old(out)@.len() + elements@.len() <= usize::MAX,
    ensures
        stats_describe(*final(stats), final(out)@),
        final(stats).blobs_processed == old(stats).blobs_processed,
        final(stats).errors_encountered == old(stats).errors_encountered,
        final(out)@ == old(out)@ + admitted_of(elements@, *f, table.strings()),
{
    let ghost start = out@;
    let ghost orig = elements@;
    let ghost t = table.strings();
    let mut rest = crate::blocks::decode::reversed(elements);
    let ghost total = rest@.len();
    proof {
        assert(orig.take(0) =~= Seq::<OsmElement>::empty());
        assert(start + admitted_of(orig.take(0), *f, t) =~= start);
    }
    while rest.len() > 0
        invariant
            stats_describe(*stats, out@),
            stats.blobs_processed == old(stats).blobs_processed,
            stats.errors_encountered == old(stats).errors_encountered,
            start == old(out)@,
            orig == elements@,
            t == table.strings(),
            total == orig.len(),
            rest@.len() <= total,
            forall|i: int| 0 <= i < rest@.len() ==> #[trigger] rest@[i] == orig[total - 1 - i],
            out@ == start + admitted_of(orig.take(total - rest@.len()), *f, t),
            start.len() + total <= usize::MAX,
        decreases rest@.len(),
    {
        let ghost k = total - rest@.len();
        let e = rest.pop().unwrap();
        proof {
            assert(e == orig[k]);
            assert(orig.take(k + 1).drop_last() =~= orig.take(k));
            assert(orig.take(k + 1).last() == orig[k]);
            lemma_admitted_of(orig.take(k), *f, t);
        }
        if element_matches(f, &e, table) {
            proof {
                lemma_count_kind_bound(out@, 0);
                lemma_count_kind_bound(out@, 1);
                lemma_count_kind_bound(out@, 2);
                lemma_count_kind_bound(out@, 3);
            }
            match &e {
                OsmElement::Node(_) => stats.nodes_processed = stats.nodes_processed + 1,
                OsmElement::Way(_) => stats.ways_processed = stats.ways_processed + 1,
                OsmElement::Relation(_) => stats.relations_processed = stats.relations_processed + 1,
                OsmElement::ChangeSet(_) => stats.changesets_processed = stats.changesets_processed + 1,
            }
            stats.elements_processed = stats.elements_processed + 1;
            let ghost before = out@;
            out.push(e);
            proof {
                assert(out@.drop_last() == before);
                assert(out@ =~= start + admitted_of(orig.take(k + 1), *f, t));
            }
        } else {
            assert(out@ =~= start + admitted_of(orig.take(k + 1), *f, t));
        }
    }
    proof {
        assert(orig.take(total as int) =~= orig);
    }
}

/// The frame at `off` of `b` reads as the raw data blob `blob`, whose
/// payload reads as `block`, whose groups decode to `els`; `t` is the
/// block's string table.
pub open spec fn data_block_at(
    b: Seq<u8>,
    off: int,
    blob: Blob,
    block: PrimitiveBlock,
    els: Seq<OsmElement>,
    t: Seq<Seq<char>>,
) -> bool {
    &&& 0 <= off <= b.len()
    &&& frame_read(b, off, Ok(Some(blob)))
    &&& blob.header.blob_type is OSMData
    &&& blob.data is Raw
    &&& block_wire(bytes_content(blob.data->Raw_0), 0, bytes_content(blob.data->Raw_0).len() as int, block)
    &&& groups_decode(block.primitivegroup@, frame_of(block), block.stringtable.s@.len() as int, els)
    &&& t == block.stringtable.strings()
}

/// Blob `i` of the reader is a raw data blob whose block decodes to `els`
/// with string table `t`.
pub open spec fn blob_decodes(b: Seq<u8>,
    idx: FileIndex, i: int, els: Seq<OsmElement>, t: Seq<Seq<char>>) -> bool {
    exists|blob: Blob, block: PrimitiveBlock|
        #[trigger] data_block_at(b, idx.entries()[i].offset as int, blob, block, els, t)
}

/// Offset of blob `i` of the reader.
pub open spec fn blob_offset(b: Seq<u8>,
    idx: FileIndex, i: int) -> int {
    idx.entries()[i].offset as int
}

/// Blob `i` of the reader holds no data block: its offset is the end of the
/// file, or a whole frame of another type with a well-formed payload stands
/// there.
pub open spec fn blob_has_no_block(b: Seq<u8>,
    idx: FileIndex, i: int) -> bool {
    let off = blob_offset(b, idx, i);
    off <= b.len() && match frame_at(b, off) {
        FrameScan::End => true,
        FrameScan::Frame { header_len, type_start, type_end, size, .. } => {
            b.subrange(type_start, type_end) != osm_data_name() && !(payload_of(b, off + 4 + header_len, off + size) is Bad)
                && !(payload_of(b, off + 4 + header_len, off + size) is TooLarge)
        },
        _ => false,
    }
}

/// The span of the raw payload of a data frame at `off`, if one stands there.
pub open spec fn raw_data_span(b: Seq<u8>, off: int) -> Option<(int, int)> {
    match frame_at(b, off) {
        FrameScan::Frame { header_len, type_start, type_end, size, .. } => if b.subrange(type_start, type_end)
            == osm_data_name() {
            match payload_of(b, off + 4 + header_len, off + size) {
                PayloadScan::Raw(s, e) => Some((s, e)),
                _ => None,
            }
        } else {
            None
        },
        _ => None,
    }
}

/// Every group of the block decodes.
pub open spec fn block_ok(p: PrimitiveBlock) -> bool {
    forall|g: int| 0 <= g < p.primitivegroup@.len() ==> group_ok(#[trigger] p.primitivegroup@[g], frame_of(p), p.stringtable.s@.len() as int)
}

/// The payload reads as a PrimitiveBlock, and every reading decodes.
pub open spec fn raw_block_ok(c: Seq<u8>) -> bool {
    &&& exists|p: PrimitiveBlock| #[trigger] block_wire(c, 0, c.len() as int, p)
    &&& forall|p: PrimitiveBlock| #[trigger] block_wire(c, 0, c.len() as int, p) ==> block_ok(p)
}

/// Blob `i` of the reader is a well-formed data blob: a raw data frame whose
/// payload reads as a PrimitiveBlock, every reading of which decodes.
pub open spec fn blob_well_formed(b: Seq<u8>,
    idx: FileIndex, i: int) -> bool {
    let off = blob_offset(b, idx, i);
    let sp = raw_data_span(b, off)->Some_0;
    &&& off <= b.len()
    &&& raw_data_span(b, off) is Some
    &&& raw_block_ok(b.subrange(sp.0, sp.1))
}

/// What a blob contributes: nothing when the filter's pushdown skips it or
/// its reading failed, which happens only for a blob that neither holds no
/// block nor is well formed; else the elements of its block that pass the filter,
/// or nothing when it holds no data block. A blob is skipped as `limited`
/// only when its decoded elements, beside the `before` elements already
/// collected, would exceed what memory can index.
pub open spec fn part_of_blob(
    b: Seq<u8>,
    idx: FileIndex,
    f: ElementFilter,
    i: int,
    part: Seq<OsmElement>,
    failed: bool,
    limited: bool,
    before: int,
) -> bool {
    if !blob_admitted(f, idx.entries()[i]) {
        part.len() == 0 && !failed && !limited
    } else if limited {
        part.len() == 0 && !failed && exists|els: Seq<OsmElement>, t: Seq<Seq<char>>|
            #[trigger] blob_decodes(b, idx, i, els, t) && before + els.len() > usize::MAX
    } else if failed {
        part.len() == 0 && !blob_has_no_block(b, idx, i) && !blob_well_formed(b, idx, i)
    } else {
        (exists|els: Seq<OsmElement>, t: Seq<Seq<char>>|
            #[trigger] blob_decodes(b, idx, i, els, t) && part == admitted_of(els, f, t)) || (blob_has_no_block(b, idx, i)
            && part.len() == 0)
    }
}

/// Number of elements in the parts before part `i`.
pub open spec fn before_len(parts: Seq<Seq<OsmElement>>, i: int) -> int {
    flatten_parts(parts.take(i)).len() as int
}

/// `v` and `st` are what collecting, from the first `n` blobs, the
/// elements that `f` admits gives: each blob's part in file order, and the
/// statistics of the parts.
pub open spec fn collected_upto(
    b: Seq<u8>,
    idx: FileIndex,
    f: ElementFilter,
    n: int,
    v: Seq<OsmElement>,
    st: ProcessingStats,
) -> bool {
    &&& 0 <= n <= idx.entries().len()
    &&& stats_describe(st, v)
    &&& st.blobs_processed + st.errors_encountered <= n
    &&& exists|parts: Seq<Seq<OsmElement>>, failed: Seq<bool>, limited: Seq<bool>| {
        &&& parts.len() == n
        &&& failed.len() == parts.len()
        &&& v == flatten_parts(parts)
        &&& limited.len() == parts.len()
        &&& st.errors_encountered == count_failed(failed) + count_failed(limited)
        &&& forall|i: int| 0 <= i < parts.len() ==> #[trigger] part_of_blob(b, idx, f, i, parts[i], failed[i], limited[i], before_len(parts, i))
    }
}

/// `v` and `st` are what collecting the elements that `f` admits gives,
/// over every blob of the file.
pub open spec fn collected(b: Seq<u8>,
    idx: FileIndex, f: ElementFilter, v: Seq<OsmElement>, st: ProcessingStats) -> bool {
    collected_upto(b, idx, f, idx.entries().len() as int, v, st)
}

/// `st` is the statistics of collecting what `f` admits.
pub open spec fn stats_of_collection(b: Seq<u8>,
    idx: FileIndex, f: ElementFilter, st: ProcessingStats) -> bool {
    exists|v: Seq<OsmElement>| #[trigger] collected(b, idx, f, v, st)
}

/// `st` is the statistics of collecting every node and nothing else.
pub open spec fn node_stats(b: Seq<u8>,
    idx: FileIndex, st: ProcessingStats) -> bool {
    exists|f: ElementFilter|
        #[trigger] stats_of_collection(b, idx, f, st) && f.include_nodes && !f.include_ways && !f.include_relations
            && !f.include_changesets && f.id_ranges@.len() == 0 && f.tag_filters.conditions().len() == 0
            && f.bbox is None
}

/// `st` is the statistics of collecting every way, and every node when
/// `resolve`.
pub open spec fn way_stats(b: Seq<u8>,
    idx: FileIndex, resolve: bool, st: ProcessingStats) -> bool {
    exists|f: ElementFilter|
        #[trigger] stats_of_collection(b, idx, f, st) && f.include_ways && f.include_nodes == resolve
            && !f.include_relations && !f.include_changesets && f.id_ranges@.len() == 0
            && f.tag_filters.conditions().len() == 0 && f.bbox is None
}

/// `p` was called on `e` and returned success.
pub open spec fn accepted<F: FnMut(OsmElement) -> Result<()>>(p: F, e: OsmElement) -> bool {
    exists|o: Result<()>| #[trigger] call_ensures(p, (e,), o) && o is Ok
}

/// `p` accepted every element of `v`.
pub open spec fn all_accepted<F: FnMut(OsmElement) -> Result<()>>(p: F, v: Seq<OsmElement>) -> bool {
    forall|i: int| 0 <= i < v.len() ==> accepted(p, #[trigger] v[i])
}

/// The concatenation's count of a kind is the sum of the counts.
proof fn lemma_count_kind_concat(a: Seq<OsmElement>, b: Seq<OsmElement>, kind: int)
    ensures
        count_kind(a + b, kind) == count_kind(a, kind) + count_kind(b, kind),
    decreases b.len(),
{
    if b.len() > 0 {
        assert((a + b).drop_last() =~= a + b.drop_last());
        lemma_count_kind_concat(a, b.drop_last(), kind);
    } else {
        assert(a + b =~= a);
    }
}

/// `p` accepted `v[0..k]` and returned the error `x` for `v[k]`.
pub open spec fn stop_point<F: FnMut(OsmElement) -> Result<()>>(p: F, v: Seq<OsmElement>, k: int, x: BlobError) -> bool {
    &&& 0 <= k < v.len()
    &&& all_accepted(p, v.take(k))
    &&& call_ensures(p, (v[k],), Err::<(), BlobError>(x))
}

/// Iteration stopped on the error `x`: the elements collected from the
/// first `n` blobs were handed to `p` in order, `p` accepted each up to
/// some element, and returned `x` for that one.
pub open spec fn stopped_at<F: FnMut(OsmElement) -> Result<()>>(
    b: Seq<u8>,
    idx: FileIndex,
    f: ElementFilter,
    p: F,
    x: BlobError,
) -> bool {
    exists|n: int, v: Seq<OsmElement>, st: ProcessingStats, k: int|
        #[trigger] collected_upto(b, idx, f, n, v, st) && #[trigger] stop_point(p, v, k, x)
}


/// The filter admits every element: all four types, no id range, no tag
/// condition, no box.
pub open spec fn takes_everything(f: ElementFilter) -> bool {
    f.include_nodes && f.include_ways && f.include_relations && f.include_changesets
        && f.id_ranges@.len() == 0 && f.tag_filters.conditions().len() == 0 && f.bbox is None
}

/// `p` was called on the node `e` holds, if it holds one, and succeeded.
pub open spec fn nodes_taken<F: FnMut(Node) -> Result<()>>(p: F, e: OsmElement) -> bool {
    e matches OsmElement::Node(n) ==> exists|o: Result<()>| #[trigger] call_ensures(p, (n,), o) && o is Ok
}

/// `p` accepted every node of `v`.
pub open spec fn nodes_accepted<F: FnMut(Node) -> Result<()>>(p: F, v: Seq<OsmElement>) -> bool {
    forall|i: int| 0 <= i < v.len() ==> nodes_taken(p, #[trigger] v[i])
}

/// `p` was called on the way `e` holds, if it holds one, and succeeded.
pub open spec fn ways_taken<F: FnMut(Way) -> Result<()>>(p: F, e: OsmElement) -> bool {
    e matches OsmElement::Way(w) ==> exists|o: Result<()>| #[trigger] call_ensures(p, (w,), o) && o is Ok
}

/// `p` accepted every way of `v`.
pub open spec fn ways_accepted<F: FnMut(Way) -> Result<()>>(p: F, v: Seq<OsmElement>) -> bool {
    forall|i: int| 0 <= i < v.len() ==> ways_taken(p, #[trigger] v[i])
}

/// On success, `st` is the statistics of collecting what a filter of this
/// kind admits, and `p` accepted every node collected.
pub open spec fn nodes_handed<F: FnMut(Node) -> Result<()>>(b: Seq<u8>,
    idx: FileIndex, p: F, st: ProcessingStats) -> bool {
    exists|f: ElementFilter, v: Seq<OsmElement>|
        #[trigger] collected(b, idx, f, v, st) && f.include_nodes && !f.include_ways && !f.include_relations && !f.include_changesets && f.id_ranges@.len() == 0 && f.tag_filters.conditions().len() == 0 && f.bbox is None && nodes_accepted(p, v)
}

/// `p` accepted the nodes of `v[0..k]` and returned the error `x`
/// for the node `v[k]`.
pub open spec fn nodes_error_stop<F: FnMut(Node) -> Result<()>>(p: F, v: Seq<OsmElement>, k: int, x: BlobError) -> bool {
    &&& 0 <= k < v.len()
    &&& forall|i: int| 0 <= i < k ==> nodes_taken(p, #[trigger] v[i])
    &&& v[k] matches OsmElement::Node(e) && call_ensures(p, (e,), Err::<(), BlobError>(x))
}

/// Iteration stopped on the error `x`: `p` was handed, in order, the
/// nodes of a collection by a filter of this kind, accepted them up to
/// one, and returned `x` for that one.
pub open spec fn nodes_error<F: FnMut(Node) -> Result<()>>(b: Seq<u8>, idx: FileIndex, p: F, x: BlobError) -> bool {
    exists|f: ElementFilter, v: Seq<OsmElement>, st: ProcessingStats, k: int|
        #[trigger] collected(b, idx, f, v, st) && f.include_nodes && !f.include_ways && !f.include_relations && !f.include_changesets && f.id_ranges@.len() == 0 && f.tag_filters.conditions().len() == 0 && f.bbox is None && #[trigger] nodes_error_stop(p, v, k, x)
}

/// On success, `st` is the statistics of collecting what a filter of this
/// kind admits, and `p` accepted every way collected.
pub open spec fn ways_handed<F: FnMut(Way) -> Result<()>>(b: Seq<u8>,
    idx: FileIndex, resolve_dependencies: bool, p: F, st: ProcessingStats) -> bool {
    exists|f: ElementFilter, v: Seq<OsmElement>|
        #[trigger] collected(b, idx, f, v, st) && f.include_ways && f.include_nodes == resolve_dependencies && !f.include_relations && !f.include_changesets && f.id_ranges@.len() == 0 && f.tag_filters.conditions().len() == 0 && f.bbox is None && ways_accepted(p, v)
}

/// `p` accepted the ways of `v[0..k]` and returned the error `x`
/// for the way `v[k]`.
pub open spec fn ways_error_stop<F: FnMut(Way) -> Result<()>>(p: F, v: Seq<OsmElement>, k: int, x: BlobError) -> bool {
    &&& 0 <= k < v.len()
    &&& forall|i: int| 0 <= i < k ==> ways_taken(p, #[trigger] v[i])
    &&& v[k] matches OsmElement::Way(e) && call_ensures(p, (e,), Err::<(), BlobError>(x))
}

/// Iteration stopped on the error `x`: `p` was handed, in order, the
/// ways of a collection by a filter of this kind, accepted them up to
/// one, and returned `x` for that one.
pub open spec fn ways_error<F: FnMut(Way) -> Result<()>>(b: Seq<u8>, idx: FileIndex, resolve_dependencies: bool, p: F, x: BlobError) -> bool {
    exists|f: ElementFilter, v: Seq<OsmElement>, st: ProcessingStats, k: int|
        #[trigger] collected(b, idx, f, v, st) && f.include_ways && f.include_nodes == resolve_dependencies && !f.include_relations && !f.include_changesets && f.id_ranges@.len() == 0 && f.tag_filters.conditions().len() == 0 && f.bbox is None && #[trigger] ways_error_stop(p, v, k, x)
}

/// On success, `st` is the statistics of a collection `v` of what `f`
/// admits, and `p` accepted every element of `v`.
pub open spec fn handed_all<F: FnMut(OsmElement) -> Result<()>>(
    b: Seq<u8>,
    idx: FileIndex,
    f: ElementFilter,
    p: F,
    st: ProcessingStats,
) -> bool {
    exists|v: Seq<OsmElement>| #[trigger] collected(b, idx, f, v, st) && all_accepted(p, v)
}

/// Number of failed blobs.
pub open spec fn count_failed(failed: Seq<bool>) -> int
    decreases failed.len(),
{
    if failed.len() == 0 {
        0
    } else {
        count_failed(failed.drop_last()) + if failed.last() {
            1int
        } else {
            0int
        }
    }
}

/// Reads the blob of index entry `index` of a file's bytes `b`.
fn read_blob_of(b: &[u8], idx: &FileIndex, index: usize) -> (r: Result<Option<Blob>>)
    requires
        index < idx.entries().len(),
    ensures
        idx.entries()[index as int].offset > b@.len() ==> r is Err && r->Err_0 is OutOfRange,
        idx.entries()[index as int].offset <= b@.len() ==> frame_read(b@, idx.entries()[index as int].offset as int, r),
{
    let e = idx.get_blob_index(index).unwrap();
    read_blob_in(b, e.offset)
}

/// The decoded elements of blob `index` with the block they came
/// from; `None` for a blob that holds no data block.
fn decoded_blob_in(b: &[u8], idx: &FileIndex, index: usize) -> (r: Result<Option<(Vec<OsmElement>, PrimitiveBlock)>>)
    requires
        index < idx.entries().len(),
    ensures
        r matches Ok(Some((els, block))) ==> blob_decodes(b@, *idx, index as int, els@, block.stringtable.strings()),
        r matches Ok(None) ==> blob_has_no_block(b@, *idx, index as int),
        r is Err ==> !blob_has_no_block(b@, *idx, index as int) && !blob_well_formed(b@, *idx, index as int),
{
    let ghost bs = b@;
    let ghost off = blob_offset(b@, *idx, index as int);
    let blob = match read_blob_of(b, idx, index) {
        Err(e) => {
            assert(raw_data_span(bs, off) is None);
            return Err(e);
        },
        Ok(None) => {
            return Ok(None);
        },
        Ok(Some(x)) => x,
    };
    assert(frame_read(bs, off, Ok(Some(blob))));
    assert(frame_at(bs, off) is Frame);
    let ghost fr = frame_at(bs, off);
    let ghost tb = bs.subrange(fr->type_start, fr->type_end);
    assert(osm_header_name() != osm_data_name()) by {
        assert(osm_header_name().len() != osm_data_name().len());
    }
    let block = match blob_block(&blob) {
        Err(e) => {
            proof {
                if blob.data is Raw {
                    let pl = payload_of(bs, off + 4 + fr->header_len, off + fr->size);
                    assert(pl is Raw);
                    let sp = raw_data_span(bs, off)->Some_0;
                    assert(bytes_content(blob.data->Raw_0) == bs.subrange(sp.0, sp.1));
                }
            }
            return Err(e);
        },
        Ok(None) => {
            return Ok(None);
        },
        Ok(Some(p)) => p,
    };
    let elements = match decode_block(&block) {
        Err(e) => {
            proof {
                let sp = raw_data_span(bs, off)->Some_0;
                assert(bytes_content(blob.data->Raw_0) == bs.subrange(sp.0, sp.1));
                assert(!block_ok(block));
            }
            return Err(e);
        },
        Ok(v) => v,
    };
    proof {
        assert(data_block_at(bs, off, blob, block, elements@, block.stringtable.strings()));
    }
    Ok(Some((elements, block)))
}

/// The elements of blob `index` that pass `filter`, in emission order:
/// nothing for a blob the filter's pushdown skips or that holds no data
/// block; an error only for a blob that is neither blockless nor well
/// formed.
pub fn blob_elements_in(b: &[u8], idx: &FileIndex, index: usize, filter: &ElementFilter) -> (r: Result<Vec<OsmElement>>)
    requires
        index < idx.entries().len(),
    ensures
        r matches Ok(v) ==> part_of_blob(b@, *idx, *filter, index as int, v@, false, false, 0),
        r is Err ==> blob_admitted(*filter, idx.entries()[index as int])
            && !blob_has_no_block(b@, *idx, index as int) && !blob_well_formed(b@, *idx, index as int),
{
    let entry = idx.get_blob_index(index).unwrap();
    if !admits_blob(filter, entry) {
        return Ok(Vec::new());
    }
    let (elements, block) = match decoded_blob_in(b, idx, index) {
        Err(e) => return Err(e),
        Ok(None) => return Ok(Vec::new()),
        Ok(Some(x)) => x,
    };
    let mut out: Vec<OsmElement> = Vec::with_capacity(elements.len());
    let mut stats = zero_stats();
    let ghost els = elements@;
    keep_matching(&mut out, &mut stats, elements, filter, &block.stringtable);
    proof {
        assert(out@ =~= admitted_of(els, *filter, block.stringtable.strings()));
        assert(blob_decodes(b@, *idx, index as int, els, block.stringtable.strings()));
    }
    Ok(out)
}

/// Every element that `filter` admits, blob after blob in file order,
/// with statistics. Blobs that the pushdown skips are not read; a blob
/// that cannot be read or decoded is counted as an error and skipped.
pub fn collect_filtered_in(b: &[u8], idx: &FileIndex, filter: &ElementFilter) -> (r: Result<(Vec<OsmElement>, ProcessingStats)>)
    ensures
        r is Ok,
        r matches Ok((v, st)) ==> collected(b@, *idx, *filter, v@, st),
{
    let n = idx.blob_count();
    let mut out: Vec<OsmElement> = Vec::new();
    let mut stats = zero_stats();
    let ghost mut parts: Seq<Seq<OsmElement>> = Seq::empty();
    let ghost mut failed: Seq<bool> = Seq::empty();
    let ghost mut limited: Seq<bool> = Seq::empty();
    let mut i: usize = 0;
    proof {
        assert(out@ =~= flatten_parts(parts));
    }
    while i < n
        invariant
            n == idx.entries().len(),
            i <= n,
            stats_describe(stats, out@),
            stats.blobs_processed + stats.errors_encountered <= i,
            parts.len() == i,
            failed.len() == i,
            out@ == flatten_parts(parts),
            limited.len() == i,
            stats.errors_encountered == count_failed(failed) + count_failed(limited),
            forall|k: int| 0 <= k < i ==> #[trigger] part_of_blob(b@, *idx, *filter, k, parts[k], failed[k], limited[k], before_len(parts, k)),
        decreases n - i,
    {
        let ghost before = out@;
        let ghost mut part: Seq<OsmElement> = Seq::empty();
        let ghost mut fail = false;
        let ghost mut limit = false;
        let entry = idx.get_blob_index(i).unwrap();
        if admits_blob(filter, entry) {
            match decoded_blob_in(b, idx, i) {
                Err(_) => {
                    stats.errors_encountered = stats.errors_encountered + 1;
                    proof {
                        fail = true;
                    }
                },
                Ok(None) => {
                    stats.blobs_processed = stats.blobs_processed + 1;
                },
                Ok(Some((elements, block))) => {
                    if elements.len() > usize::MAX - out.len() {
                        stats.errors_encountered = stats.errors_encountered + 1;
                        proof {
                            limit = true;
                            assert(blob_decodes(b@, *idx, i as int, elements@, block.stringtable.strings()));
                        }
                    } else {
                        stats.blobs_processed = stats.blobs_processed + 1;
                        let ghost els = elements@;
                        keep_matching(&mut out, &mut stats, elements, filter, &block.stringtable);
                        proof {
                            part = admitted_of(els, *filter, block.stringtable.strings());
                            assert(blob_decodes(b@, *idx, i as int, els, block.stringtable.strings()));
                        }
                    }
                },
            }
        }
        proof {
            assert(out@ =~= before + part);
            let ghost old_parts = parts;
            let ghost old_failed = failed;
            let ghost old_limited = limited;
            limited = limited.push(limit);
            assert(limited.drop_last() =~= old_limited);
            parts = parts.push(part);
            failed = failed.push(fail);
            assert(parts.drop_last() =~= old_parts);
            assert(failed.drop_last() =~= old_failed);
            assert(parts.take(i as int) =~= old_parts);
            assert(before_len(parts, i as int) == before.len());
            assert(part_of_blob(b@, *idx, *filter, i as int, part, fail, limit, before_len(parts, i as int)));
            assert forall|k: int| 0 <= k < i + 1 implies #[trigger] part_of_blob(b@, *idx, *filter, k, parts[k], failed[k], limited[k], before_len(parts, k)) by {
                if k < i {
                    assert(parts.take(k) =~= old_parts.take(k));
                    assert(before_len(parts, k) == before_len(old_parts, k));
                    assert(part_of_blob(b@, *idx, *filter, k, old_parts[k], old_failed[k], old_limited[k], before_len(old_parts, k)));
                    assert(parts[k] == old_parts[k]);
                    assert(failed[k] == old_failed[k]);
                    assert(limited[k] == old_limited[k]);
                }
            }
        }
        i = i + 1;
    }
    assert(collected(b@, *idx, *filter, out@, stats));
    Ok((out, stats))
}

/// Hands every element that `filter` admits to `processor`, in file
/// order, one blob at a time: a blob is decoded only after the elements of
/// the blobs before it have been handed on. The first error the processor
/// returns ends the iteration and is returned.
pub fn for_each_filtered_in<F>(b: &[u8], idx: &FileIndex, filter: &ElementFilter, processor: F) -> (r: Result<ProcessingStats>)
    where
        F: FnMut(OsmElement) -> Result<()>,
    requires
        forall|e: OsmElement| call_requires(processor, (e,)),
    ensures
        r is Ok ==> stats_of_collection(b@, *idx, *filter, r->Ok_0),
        r is Ok ==> handed_all(b@, *idx, *filter, processor, r->Ok_0),
        r is Err ==> stopped_at(b@, *idx, *filter, processor, r->Err_0),
        (forall|e: OsmElement, o: Result<()>| call_ensures(processor, (e,), o) ==> o is Ok) ==> r is Ok,
{
    let ghost p0 = processor;
    let mut handler = processor;
    let n = idx.blob_count();
    let mut stats = zero_stats();
    let mut seen: usize = 0;
    let ghost mut v: Seq<OsmElement> = Seq::empty();
    let ghost mut parts: Seq<Seq<OsmElement>> = Seq::empty();
    let ghost mut failed: Seq<bool> = Seq::empty();
    let ghost mut limited: Seq<bool> = Seq::empty();
    let mut i: usize = 0;
    proof {
        assert(v =~= flatten_parts(parts));
        assert(all_accepted(p0, v));
    }
    while i < n
        invariant
            handler == p0,
            p0 == processor,
            forall|e: OsmElement| call_requires(handler, (e,)),
            n == idx.entries().len(),
            i <= n,
            seen == v.len(),
            stats_describe(stats, v),
            stats.blobs_processed + stats.errors_encountered <= i,
            parts.len() == i,
            failed.len() == i,
            limited.len() == i,
            v == flatten_parts(parts),
            stats.errors_encountered == count_failed(failed) + count_failed(limited),
            forall|k: int| 0 <= k < i ==> #[trigger] part_of_blob(b@, *idx, *filter, k, parts[k], failed[k], limited[k], before_len(parts, k)),
            all_accepted(p0, v),
        decreases n - i,
    {
        let mut part: Vec<OsmElement> = Vec::new();
        let mut pstats = zero_stats();
        let ghost mut fail = false;
        let ghost mut limit = false;
        proof {
            assert(part@ =~= Seq::<OsmElement>::empty());
        }
        let entry = idx.get_blob_index(i).unwrap();
        if admits_blob(filter, entry) {
            match decoded_blob_in(b, idx, i) {
                Err(_) => {
                    stats.errors_encountered = stats.errors_encountered + 1;
                    proof {
                        fail = true;
                    }
                },
                Ok(None) => {
                    stats.blobs_processed = stats.blobs_processed + 1;
                },
                Ok(Some((elements, block))) => {
                    if elements.len() > usize::MAX - seen {
                        stats.errors_encountered = stats.errors_encountered + 1;
                        proof {
                            limit = true;
                            assert(blob_decodes(b@, *idx, i as int, elements@, block.stringtable.strings()));
                        }
                    } else {
                        stats.blobs_processed = stats.blobs_processed + 1;
                        let ghost els = elements@;
                        keep_matching(&mut part, &mut pstats, elements, filter, &block.stringtable);
                        proof {
                            lemma_admitted_of(els, *filter, block.stringtable.strings());
                            assert(part@ =~= admitted_of(els, *filter, block.stringtable.strings()));
                            assert(blob_decodes(b@, *idx, i as int, els, block.stringtable.strings()));
                        }
                    }
                },
            }
        }
        proof {
            lemma_count_kind_bound(v, 0);
            lemma_count_kind_bound(v, 1);
            lemma_count_kind_bound(v, 2);
            lemma_count_kind_bound(v, 3);
            lemma_count_kind_bound(part@, 0);
            lemma_count_kind_bound(part@, 1);
            lemma_count_kind_bound(part@, 2);
            lemma_count_kind_bound(part@, 3);
            lemma_count_kind_concat(v, part@, 0);
            lemma_count_kind_concat(v, part@, 1);
            lemma_count_kind_concat(v, part@, 2);
            lemma_count_kind_concat(v, part@, 3);
        }
        stats.elements_processed = stats.elements_processed + pstats.elements_processed;
        stats.nodes_processed = stats.nodes_processed + pstats.nodes_processed;
        stats.ways_processed = stats.ways_processed + pstats.ways_processed;
        stats.relations_processed = stats.relations_processed + pstats.relations_processed;
        stats.changesets_processed = stats.changesets_processed + pstats.changesets_processed;
        seen = seen + part.len();
        let ghost base = v.len() as int;
        proof {
            let ghost old_v = v;
            let ghost old_parts = parts;
            let ghost old_failed = failed;
            let ghost old_limited = limited;
            assert(part_of_blob(b@, *idx, *filter, i as int, part@, fail, limit, old_v.len() as int));
            parts = parts.push(part@);
            failed = failed.push(fail);
            limited = limited.push(limit);
            v = v + part@;
            assert(parts.drop_last() =~= old_parts);
            assert(failed.drop_last() =~= old_failed);
            assert(limited.drop_last() =~= old_limited);
            assert(parts.take(i as int) =~= old_parts);
            assert(before_len(parts, i as int) == old_v.len());
            assert forall|k: int| 0 <= k < i + 1 implies #[trigger] part_of_blob(b@, *idx, *filter, k, parts[k], failed[k], limited[k], before_len(parts, k)) by {
                if k < i {
                    assert(parts.take(k) =~= old_parts.take(k));
                    assert(before_len(parts, k) == before_len(old_parts, k));
                    assert(part_of_blob(b@, *idx, *filter, k, old_parts[k], old_failed[k], old_limited[k], before_len(old_parts, k)));
                    assert(parts[k] == old_parts[k]);
                    assert(failed[k] == old_failed[k]);
                    assert(limited[k] == old_limited[k]);
                }
            }
            assert(v.take(base) =~= old_v);
            assert(all_accepted(p0, v.take(base)));
            assert(collected_upto(b@, *idx, *filter, i + 1, v, stats));
        }
        let ghost plen = part@.len() as int;
        let mut rest = crate::blocks::decode::reversed(part);
        while rest.len() > 0
            invariant
                handler == p0,
                p0 == processor,
                forall|e: OsmElement| call_requires(handler, (e,)),
                n == idx.entries().len(),
                i < n,
                seen == v.len(),
                stats_describe(stats, v),
                stats.blobs_processed + stats.errors_encountered <= i + 1,
                parts.len() == i + 1,
                failed.len() == i + 1,
                limited.len() == i + 1,
                v == flatten_parts(parts),
                stats.errors_encountered == count_failed(failed) + count_failed(limited),
                forall|k: int| 0 <= k < i + 1 ==> #[trigger] part_of_blob(b@, *idx, *filter, k, parts[k], failed[k], limited[k], before_len(parts, k)),
                collected_upto(b@, *idx, *filter, i + 1, v, stats),
                base + plen == v.len(),
                0 <= base,
                rest@.len() <= plen,
                forall|j: int| 0 <= j < rest@.len() ==> #[trigger] rest@[j] == v[base + plen - 1 - j],
                all_accepted(p0, v.take(base + plen - rest@.len())),
            decreases rest@.len(),
        {
            let ghost k = base + plen - rest@.len();
            let e = rest.pop().unwrap();
            assert(e == v[k]);
            let res = handler(e);
            assert(call_ensures(p0, (v[k],), res));
            match res {
                Ok(()) => {
                    proof {
                        assert(accepted(p0, v[k]));
                        assert forall|j: int| 0 <= j < k + 1 implies accepted(p0, #[trigger] v.take(k + 1)[j]) by {
                            if j < k {
                                assert(v.take(k + 1)[j] == v.take(k)[j]);
                            }
                        }
                    }
                },
                Err(err) => {
                    proof {
                        assert(stop_point(p0, v, k, err));
                        assert(stopped_at(b@, *idx, *filter, p0, err));
                    }
                    return Err(err);
                },
            }
        }
        proof {
            assert(v.take(v.len() as int) =~= v);
        }
        i = i + 1;
    }
    assert(collected(b@, *idx, *filter, v, stats));
    assert(stats_of_collection(b@, *idx, *filter, stats));
    assert(handed_all(b@, *idx, *filter, p0, stats));
    Ok(stats)
}

/// A reader of every element of a file held in memory.
pub struct Reader {
    indexed_reader: IndexedReader,
}

impl Reader {
    /// The index-level reader.
    pub closed spec fn inner(&self) -> IndexedReader {
        self.indexed_reader
    }

    /// Builds the blob index of `data`; see [`IndexedReader::new`].
    pub fn new(data: Vec<u8>) -> (r: Result<Reader>)
        ensures
            r is Ok,
            r->Ok_0.inner().bytes() == data@,
            r->Ok_0.inner().file_index().indexes(data@),
    {
        let indexed_reader = IndexedReader::new(data)?;
        Ok(Reader { indexed_reader })
    }

    /// The index-level reader.
    pub fn indexed(&self) -> (r: &IndexedReader)
        ensures
            *r == self.inner(),
    {
        &self.indexed_reader
    }

    /// Counts of blobs by type and sums of the known element counts.
    pub fn statistics(&self) -> (r: IndexStatistics)
        ensures
            r.total_blobs == self.inner().file_index().entries().len(),
            r.header_blobs == count_type(self.inner().file_index().entries(), 0),
            r.data_blobs == count_type(self.inner().file_index().entries(), 1),
            r.unknown_blobs == count_type(self.inner().file_index().entries(), 2),
            r.total_nodes == sat_sum(self.inner().file_index().entries(), 0),
            r.total_ways == sat_sum(self.inner().file_index().entries(), 1),
            r.total_relations == sat_sum(self.inner().file_index().entries(), 2),
            r.total_changesets == sat_sum(self.inner().file_index().entries(), 3),
    {
        self.indexed_reader.statistics()
    }


    /// The elements of blob `index` that pass `filter`; see [`blob_elements_in`].
    pub fn blob_elements(&self, index: usize, filter: &ElementFilter) -> (r: Result<Vec<OsmElement>>)
        requires
            index < self.inner().file_index().entries().len(),
        ensures
            r matches Ok(v) ==> part_of_blob(self.inner().bytes(), self.inner().file_index(), *filter, index as int, v@, false, false, 0),
            r is Err ==> blob_admitted(*filter, self.inner().file_index().entries()[index as int])
                && !blob_has_no_block(self.inner().bytes(), self.inner().file_index(), index as int)
                && !blob_well_formed(self.inner().bytes(), self.inner().file_index(), index as int),
    {
        blob_elements_in(self.indexed_reader.data(), self.indexed_reader.index(), index, filter)
    }


    /// Every element that `filter` admits, with statistics; see
    /// [`collect_filtered_in`].
    pub fn collect_filtered(&self, filter: &ElementFilter) -> (r: Result<(Vec<OsmElement>, ProcessingStats)>)
        ensures
            r is Ok,
            r matches Ok((v, st)) ==> collected(self.inner().bytes(), self.inner().file_index(), *filter, v@, st),
    {
        collect_filtered_in(self.indexed_reader.data(), self.indexed_reader.index(), filter)
    }


    /// Hands every element that `filter` admits to `processor`, in file
    /// order; the first error it returns ends the iteration and is returned.
    pub fn for_each_filtered<F>(&self, filter: &ElementFilter, processor: F) -> (r: Result<ProcessingStats>)
        where
            F: FnMut(OsmElement) -> Result<()>,
        requires
            forall|e: OsmElement| call_requires(processor, (e,)),
        ensures
            r is Ok ==> stats_of_collection(self.inner().bytes(), self.inner().file_index(), *filter, r->Ok_0),
            r is Ok ==> handed_all(self.inner().bytes(), self.inner().file_index(), *filter, processor, r->Ok_0),
            r is Err ==> stopped_at(self.inner().bytes(), self.inner().file_index(), *filter, processor, r->Err_0),
            (forall|e: OsmElement, o: Result<()>| call_ensures(processor, (e,), o) ==> o is Ok) ==> r is Ok,
    {
        for_each_filtered_in(self.indexed_reader.data(), self.indexed_reader.index(), filter, processor)
    }


    /// Hands every element of the file to `processor`, in file order; the
    /// first error it returns ends the iteration and is returned.
    pub fn for_each<F>(&self, processor: F) -> (r: Result<ProcessingStats>)
        where
            F: FnMut(OsmElement) -> Result<()>,
        requires
            forall|e: OsmElement| call_requires(processor, (e,)),
        ensures
            r is Ok ==> exists|f: ElementFilter| #[trigger] handed_all(self.inner().bytes(), self.inner().file_index(), f, processor, r->Ok_0) && takes_everything(f),
            r is Err ==> exists|f: ElementFilter| #[trigger] stopped_at(self.inner().bytes(), self.inner().file_index(), f, processor, r->Err_0) && takes_everything(f),
            (forall|e: OsmElement, o: Result<()>| call_ensures(processor, (e,), o) ==> o is Ok) ==> r is Ok,
    {
        let mut everything = ElementFilter::all();
        everything.include_changesets = true;
        let r = self.for_each_filtered(&everything, processor);
        proof {
            if r is Ok {
                assert(handed_all(self.inner().bytes(), self.inner().file_index(), everything, processor, r->Ok_0) && takes_everything(everything));
            } else {
                assert(stopped_at(self.inner().bytes(), self.inner().file_index(), everything, processor, r->Err_0) && takes_everything(everything));
            }
        }
        r
    }

    /// Hands every node to `processor`, in file order; the first error it
    /// returns ends the iteration and is returned.
    pub fn nodes<F>(&self, processor: F) -> (r: Result<ProcessingStats>)
        where
            F: FnMut(Node) -> Result<()>,
        requires
            forall|x: Node| call_requires(processor, (x,)),
        ensures
            r is Ok ==> node_stats(self.inner().bytes(), self.inner().file_index(), r->Ok_0),
            r is Ok ==> nodes_handed(self.inner().bytes(), self.inner().file_index(), processor, r->Ok_0),
            r is Err ==> nodes_error(self.inner().bytes(), self.inner().file_index(), processor, r->Err_0),
            (forall|x: Node, o: Result<()>| call_ensures(processor, (x,), o) ==> o is Ok) ==> r is Ok,
    {
        let ghost p0 = processor;
        let mut handler = processor;
        let f = ElementFilter::nodes_only();
        let (elements, stats) = match self.collect_filtered(&f) {
            Ok(x) => x,
            Err(e) => return Err(e),
        };
        let ghost v = elements@;
        let ghost total = v.len();
        let mut rest = crate::blocks::decode::reversed(elements);
        while rest.len() > 0
            invariant
                handler == p0,
                p0 == processor,
                forall|x: Node| call_requires(handler, (x,)),
                collected(self.inner().bytes(), self.inner().file_index(), f, v, stats),
                f.include_nodes && !f.include_ways && !f.include_relations && !f.include_changesets && f.id_ranges@.len() == 0 && f.tag_filters.conditions().len() == 0 && f.bbox is None,
                total == v.len(),
                rest@.len() <= total,
                forall|i: int| 0 <= i < rest@.len() ==> #[trigger] rest@[i] == v[total - 1 - i],
                forall|i: int| 0 <= i < total - rest@.len() ==> nodes_taken(p0, #[trigger] v[i]),
            decreases rest@.len(),
        {
            let ghost k = total - rest@.len();
            let e = rest.pop().unwrap();
            assert(e == v[k]);
            match e {
                OsmElement::Node(x) => {
                    let res = handler(x);
                    assert(call_ensures(p0, (x,), res));
                    match res {
                        Ok(()) => {
                            assert(nodes_taken(p0, v[k]));
                        },
                        Err(err) => {
                            assert(call_ensures(p0, (x,), Err::<(), BlobError>(err)));
                            assert(nodes_error_stop(p0, v, k, err));
                            assert(nodes_error(self.inner().bytes(), self.inner().file_index(), p0, err));
                            return Err(err);
                        },
                    }
                },
                _ => {
                    assert(nodes_taken(p0, v[k]));
                },
            }
        }
        assert(stats_of_collection(self.inner().bytes(), self.inner().file_index(), f, stats));
        assert(node_stats(self.inner().bytes(), self.inner().file_index(), stats));
        assert(nodes_accepted(p0, v));
        assert(nodes_handed(self.inner().bytes(), self.inner().file_index(), p0, stats));
        Ok(stats)
    }

    /// Hands every way to `processor`, in file order, with the nodes they
    /// reference admitted too when `resolve_dependencies`; the first error
    /// it returns ends the iteration and is returned.
    pub fn ways<F>(&self, resolve_dependencies: bool, processor: F) -> (r: Result<ProcessingStats>)
        where
            F: FnMut(Way) -> Result<()>,
        requires
            forall|x: Way| call_requires(processor, (x,)),
        ensures
            r is Ok ==> way_stats(self.inner().bytes(), self.inner().file_index(), resolve_dependencies, r->Ok_0),
            r is Ok ==> ways_handed(self.inner().bytes(), self.inner().file_index(), resolve_dependencies, processor, r->Ok_0),
            r is Err ==> ways_error(self.inner().bytes(), self.inner().file_index(), resolve_dependencies, processor, r->Err_0),
            (forall|x: Way, o: Result<()>| call_ensures(processor, (x,), o) ==> o is Ok) ==> r is Ok,
    {
        let ghost p0 = processor;
        let mut handler = processor;
        let f = ElementFilter::ways_only(resolve_dependencies);
        let (elements, stats) = match self.collect_filtered(&f) {
            Ok(x) => x,
            Err(e) => return Err(e),
        };
        let ghost v = elements@;
        let ghost total = v.len();
        let mut rest = crate::blocks::decode::reversed(elements);
        while rest.len() > 0
            invariant
                handler == p0,
                p0 == processor,
                forall|x: Way| call_requires(handler, (x,)),
                collected(self.inner().bytes(), self.inner().file_index(), f, v, stats),
                f.include_ways && f.include_nodes == resolve_dependencies && !f.include_relations && !f.include_changesets && f.id_ranges@.len() == 0 && f.tag_filters.conditions().len() == 0 && f.bbox is None,
                total == v.len(),
                rest@.len() <= total,
                forall|i: int| 0 <= i < rest@.len() ==> #[trigger] rest@[i] == v[total - 1 - i],
                forall|i: int| 0 <= i < total - rest@.len() ==> ways_taken(p0, #[trigger] v[i]),
            decreases rest@.len(),
        {
            let ghost k = total - rest@.len();
            let e = rest.pop().unwrap();
            assert(e == v[k]);
            match e {
                OsmElement::Way(x) => {
                    let res = handler(x);
                    assert(call_ensures(p0, (x,), res));
                    match res {
                        Ok(()) => {
                            assert(ways_taken(p0, v[k]));
                        },
                        Err(err) => {
                            assert(call_ensures(p0, (x,), Err::<(), BlobError>(err)));
                            assert(ways_error_stop(p0, v, k, err));
                            assert(ways_error(self.inner().bytes(), self.inner().file_index(), resolve_dependencies, p0, err));
                            return Err(err);
                        },
                    }
                },
                _ => {
                    assert(ways_taken(p0, v[k]));
                },
            }
        }
        assert(stats_of_collection(self.inner().bytes(), self.inner().file_index(), f, stats));
        assert(way_stats(self.inner().bytes(), self.inner().file_index(), resolve_dependencies, stats));
        assert(ways_accepted(p0, v));
        assert(ways_handed(self.inner().bytes(), self.inner().file_index(), resolve_dependencies, p0, stats));
        Ok(stats)
    }

    /// Counts of nodes, ways, relations and changesets in the file.
    pub fn count_elements(&self) -> (r: Result<(u64, u64, u64, u64)>)
        ensures
            r is Ok,
            r matches Ok((nodes, ways, relations, changesets)) ==> exists|f: ElementFilter, v: Seq<OsmElement>, st: ProcessingStats|
                f.include_nodes && f.include_ways && f.include_relations && f.include_changesets
                    && f.id_ranges@.len() == 0 && f.tag_filters.conditions().len() == 0 && f.bbox is None
                    && #[trigger] collected(self.inner().bytes(), self.inner().file_index(), f, v, st) && nodes == count_kind(v, 0) && ways == count_kind(v, 1)
                    && relations == count_kind(v, 2) && changesets == count_kind(v, 3),
    {
        let mut f = ElementFilter::all();
        f.include_changesets = true;
        let (elements, stats) = match self.collect_filtered(&f) {
            Ok(x) => x,
            Err(e) => return Err(e),
        };
        assert(collected(self.inner().bytes(), self.inner().file_index(), f, elements@, stats));
        Ok((stats.nodes_processed, stats.ways_processed, stats.relations_processed, stats.changesets_processed))
    }
}

/// Statistics with every count at zero.
pub fn zero_stats() -> (r: ProcessingStats)
    ensures
        r == (ProcessingStats {
            blobs_processed: 0,
            elements_processed: 0,
            nodes_processed: 0,
            ways_processed: 0,
            relations_processed: 0,
            changesets_processed: 0,
            errors_encountered: 0,
        }),
{
    ProcessingStats {
        blobs_processed: 0,
        elements_processed: 0,
        nodes_processed: 0,
        ways_processed: 0,
        relations_processed: 0,
        changesets_processed: 0,
        errors_encountered: 0,
    }
}

/// Left fold of `s` from `id` with `c`.
pub open spec fn fold_with<T>(s: Seq<T>, id: T, c: spec_fn(T, T) -> T) -> T
    decreases s.len(),
{
    if s.len() == 0 {
        id
    } else {
        c(fold_with(s.drop_last(), id, c), s.last())
    }
}

/// The parts, one after another.
pub open spec fn flatten_parts<T>(parts: Seq<Seq<T>>) -> Seq<T>
    decreases parts.len(),
{
    if parts.len() == 0 {
        Seq::empty()
    } else {
        flatten_parts(parts.drop_last()) + parts.last()
    }
}

/// The fold of each part on its own.
pub open spec fn part_folds<T>(parts: Seq<Seq<T>>, id: T, c: spec_fn(T, T) -> T) -> Seq<T> {
    Seq::new(parts.len(), |i: int| fold_with(parts[i], id, c))
}

/// `c` is associative and `id` is its identity.
pub open spec fn is_monoid<T>(id: T, c: spec_fn(T, T) -> T) -> bool {
    &&& forall|a: T, b: T, d: T| #[trigger] c(c(a, b), d) == c(a, c(b, d))
    &&& forall|a: T| #[trigger] c(id, a) == a
    &&& forall|a: T| #[trigger] c(a, id) == a
}

/// Folding a concatenation combines the folds of its halves.
pub proof fn lemma_fold_concat<T>(x: Seq<T>, y: Seq<T>, id: T, c: spec_fn(T, T) -> T)
    requires
        is_monoid(id, c),
    ensures
        fold_with(x + y, id, c) == c(fold_with(x, id, c), fold_with(y, id, c)),
    decreases y.len(),
{
    if y.len() == 0 {
        assert(x + y =~= x);
    } else {
        assert((x + y).drop_last() =~= x + y.drop_last());
        lemma_fold_concat(x, y.drop_last(), id, c);
        assert((x + y).last() == y.last());
    }
}

/// Reducing blob by blob gives what one sequential fold gives: for an
/// associative combiner with an identity, folding every element in order
/// equals folding each blob's elements and then folding those results in
/// blob order.
pub proof fn lemma_blockwise_reduce<T>(parts: Seq<Seq<T>>, id: T, c: spec_fn(T, T) -> T)
    requires
        is_monoid(id, c),
    ensures
        fold_with(flatten_parts(parts), id, c) == fold_with(part_folds(parts, id, c), id, c),
    decreases parts.len(),
{
    if parts.len() > 0 {
        let init = parts.drop_last();
        lemma_blockwise_reduce(init, id, c);
        lemma_fold_concat(flatten_parts(init), parts.last(), id, c);
        assert(part_folds(parts, id, c).drop_last() =~= part_folds(init, id, c));
    }
}

/// With no id range, no element is dropped for its id: the filter keeps
/// exactly the elements of a wanted type whose tags (and, for nodes,
/// position) pass.
pub proof fn lemma_no_id_ranges_keep_every_id(f: ElementFilter, e: OsmElement, table: Seq<Seq<char>>)
    requires
        f.id_ranges@.len() == 0,
    ensures
        element_admitted(f, e, table) == match e {
            OsmElement::Node(n) => f.include_nodes && tags_pass(table, n.keys@, n.vals@, f.tag_filters.conditions())
                && bbox_passes(f.bbox, n),
            OsmElement::Way(w) => f.include_ways && tags_pass(table, w.keys@, w.vals@, f.tag_filters.conditions()),
            OsmElement::Relation(r) => f.include_relations && tags_pass(table, r.keys@, r.vals@, f.tag_filters.conditions()),
            OsmElement::ChangeSet(c) => f.include_changesets && tags_pass(table, c.keys@, c.vals@, f.tag_filters.conditions()),
        },
{
}

/// The single range `[x, x - 1]` is empty: it rejects every element and,
/// at blob level, every data blob whose id range is known.
pub proof fn lemma_inverted_range_rejects_all(f: ElementFilter, x: i64, e: OsmElement, table: Seq<Seq<char>>, entry: BlobIndex)
    requires
        x > i64::MIN,
        f.id_ranges@ == seq![(x, (x - 1) as i64)],
    ensures
        !element_admitted(f, e, table),
        entry.blob_type is OSMData && entry.id_range is Some ==> !blob_admitted(f, entry),
{
    assert(f.id_ranges@[0] == (x, (x - 1) as i64));
}

/// Reducing blob by blob gives what one fold over the collected elements
/// gives: for an associative combiner with an identity, the fold of a
/// collection equals the fold, in blob order, of the folds of each blob's
/// part, the part being what [`blob_elements_in`] yields for that blob.
pub proof fn lemma_collection_reduces_blockwise<T>(
    b: Seq<u8>,
    idx: FileIndex,
    f: ElementFilter,
    v: Seq<OsmElement>,
    st: ProcessingStats,
    m: spec_fn(OsmElement) -> T,
    id: T,
    c: spec_fn(T, T) -> T,
)
    requires
        collected(b, idx, f, v, st),
        is_monoid(id, c),
    ensures
        exists|parts: Seq<Seq<OsmElement>>, failed: Seq<bool>, limited: Seq<bool>|
            #[trigger] blob_parts(b, idx, f, parts, failed, limited) && fold_with(v.map_values(m), id, c) == fold_with(
                part_folds(parts.map_values(|p: Seq<OsmElement>| p.map_values(m)), id, c),
                id,
                c,
            ),
{
    let (parts, failed, limited) = choose|parts: Seq<Seq<OsmElement>>, failed: Seq<bool>, limited: Seq<bool>| {
        &&& parts.len() == idx.entries().len()
        &&& failed.len() == parts.len()
        &&& v == flatten_parts(parts)
        &&& limited.len() == parts.len()
        &&& st.errors_encountered == count_failed(failed) + count_failed(limited)
        &&& forall|i: int| 0 <= i < parts.len() ==> #[trigger] part_of_blob(b, idx, f, i, parts[i], failed[i], limited[i], before_len(parts, i))
    };
    let mp = parts.map_values(|p: Seq<OsmElement>| p.map_values(m));
    lemma_flatten_map(parts, m);
    lemma_blockwise_reduce(mp, id, c);
    assert(blob_parts(b, idx, f, parts, failed, limited));
}

/// One part per blob of the index, each what that blob contributes.
pub open spec fn blob_parts(
    b: Seq<u8>,
    idx: FileIndex,
    f: ElementFilter,
    parts: Seq<Seq<OsmElement>>,
    failed: Seq<bool>,
    limited: Seq<bool>,
) -> bool {
    &&& parts.len() == idx.entries().len()
    &&& failed.len() == parts.len()
    &&& limited.len() == parts.len()
    &&& forall|i: int| 0 <= i < parts.len() ==> #[trigger] part_of_blob(b, idx, f, i, parts[i], failed[i], limited[i], before_len(parts, i))
}

/// Mapping each element commutes with putting the parts together.
pub proof fn lemma_flatten_map<T>(parts: Seq<Seq<OsmElement>>, m: spec_fn(OsmElement) -> T)
    ensures
        flatten_parts(parts).map_values(m) == flatten_parts(parts.map_values(|p: Seq<OsmElement>| p.map_values(m))),
    decreases parts.len(),
{
    if parts.len() > 0 {
        lemma_flatten_map(parts.drop_last(), m);
        assert(parts.drop_last().map_values(|p: Seq<OsmElement>| p.map_values(m)) =~= parts.map_values(
            |p: Seq<OsmElement>| p.map_values(m),
        ).drop_last());
        assert((flatten_parts(parts.drop_last()) + parts.last()).map_values(m) =~= flatten_parts(parts.drop_last()).map_values(m)
            + parts.last().map_values(m));
    } else {
        assert(flatten_parts(parts).map_values(m) =~= Seq::<T>::empty());
    }
}

} // verus!
