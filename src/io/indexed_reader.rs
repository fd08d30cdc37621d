//! The blob index: one pass over a file's frames, and random or filtered
//! access to the blobs through it.

use vstd::prelude::*;
use vstd::utf8::decode_utf8;
use vstd::slice::slice_subrange;
use crate::blocks::header_block::HeaderBBox;
use crate::io::blob::{Blob, BlobError, BlobType, Result, blob_type_of};
use crate::io::filter::TagFilters;
use crate::io::frame::{FrameScan, frame_at, frame_read, read_frame_at, read_frame_head};

verus! {

/// Element counts of a blob, by type; all zero while unknown.
#[derive(Debug, Clone, Copy, PartialEq, Eq, Default)]
pub struct ElementCounts {
    pub nodes: u32,
    pub ways: u32,
    pub relations: u32,
    pub changesets: u32,
}

/// One entry of the index: where a frame starts, how long it is, what it
/// holds, and what is known of its elements.
#[derive(Debug, Clone, PartialEq, Eq)]
pub struct BlobIndex {
    /// Offset of the frame's length prefix in the file.
    pub offset: u64,
    /// Length of the whole frame: prefix, BlobHeader and blob.
    pub size: u32,
    pub blob_type: BlobType,
    /// Smallest and largest element id in the blob, when known.
    pub id_range: Option<(i64, i64)>,
    pub element_counts: ElementCounts,
}

/// A frame found while indexing: its offset, its size and its type name's span.
pub struct FrameEntry {
    pub offset: int,
    pub size: int,
    pub type_start: int,
    pub type_end: int,
}

/// The consecutive whole frames from `off` on, up to the first point where
/// none stands.
pub open spec fn frames_from(b: Seq<u8>, off: int) -> Seq<FrameEntry>
    decreases b.len() - off,
{
    match frame_at(b, off) {
        FrameScan::Frame { size, type_start, type_end, .. } => if 0 <= off && 0 < size && off
            + size <= b.len() {
            seq![FrameEntry { offset: off, size, type_start, type_end }] + frames_from(
                b,
                off + size,
            )
        } else {
            Seq::empty()
        },
        _ => Seq::empty(),
    }
}

/// Where the run of whole frames from `off` on ends.
pub open spec fn frames_end(b: Seq<u8>, off: int) -> int
    decreases b.len() - off,
{
    match frame_at(b, off) {
        FrameScan::Frame { size, .. } => if 0 <= off && 0 < size && off + size <= b.len() {
            frames_end(b, off + size)
        } else {
            off
        },
        _ => off,
    }
}

/// Sum of the sizes of frames.
pub open spec fn sizes_sum(s: Seq<FrameEntry>) -> int
    decreases s.len(),
{
    if s.len() == 0 {
        0
    } else {
        s[0].size + sizes_sum(s.drop_first())
    }
}

/// An index entry records a frame, with nothing yet known of its elements.
pub open spec fn entry_matches(b: Seq<u8>, f: FrameEntry, e: BlobIndex) -> bool {
    &&& e.offset == f.offset
    &&& e.size == f.size
    &&& blob_type_of(b.subrange(f.type_start, f.type_end), decode_utf8(b.subrange(f.type_start, f.type_end)), e.blob_type)
    &&& e.id_range is None
    &&& e.element_counts == ElementCounts { nodes: 0, ways: 0, relations: 0, changesets: 0 }
}

/// Position of the first header entry at or after `i`, if any.
pub open spec fn first_header_from(s: Seq<BlobIndex>, i: int) -> Option<int>
    decreases s.len() - i,
{
    if i < 0 || i >= s.len() {
        None
    } else if s[i].blob_type is OSMHeader {
        Some(i)
    } else {
        first_header_from(s, i + 1)
    }
}

/// The first header entry, if any.
pub open spec fn first_header_entry(s: Seq<BlobIndex>) -> Option<BlobIndex> {
    match first_header_from(s, 0) {
        Some(i) => Some(s[i]),
        None => None,
    }
}

/// What a caller wants: element types, id ranges (none: any id), tag
/// conditions, an optional bounding box, and whether ways and relations
/// bring the nodes they reference.
#[derive(Debug, Clone)]
pub struct ElementFilter {
    pub include_nodes: bool,
    pub include_ways: bool,
    pub include_relations: bool,
    pub include_changesets: bool,
    /// Inclusive id ranges; empty means every id.
    pub id_ranges: Vec<(i64, i64)>,
    /// Tag conditions; a key with `None` may have any value.
    pub tag_filters: TagFilters,
    /// Bounding box in nanodegrees for nodes.
    pub bbox: Option<HeaderBBox>,
    pub resolve_dependencies: bool,
}

impl Default for ElementFilter {
    fn default() -> (r: ElementFilter)
        ensures
            r.include_nodes && r.include_ways && r.include_relations && !r.include_changesets,
            r.id_ranges@.len() == 0,
            r.tag_filters.wf(),
            r.tag_filters.conditions().len() == 0,
            r.bbox is None,
            !r.resolve_dependencies,
    {
        ElementFilter {
            include_nodes: true,
            include_ways: true,
            include_relations: true,
            include_changesets: false,
            id_ranges: Vec::new(),
            tag_filters: TagFilters::new(),
            bbox: None,
            resolve_dependencies: false,
        }
    }
}

impl ElementFilter {
    /// Nodes, ways and relations, with no other condition.
    pub fn all() -> (r: ElementFilter)
        ensures
            r.include_nodes && r.include_ways && r.include_relations && !r.include_changesets,
            r.id_ranges@.len() == 0,
            r.tag_filters.wf(),
            r.tag_filters.conditions().len() == 0,
            r.bbox is None,
            !r.resolve_dependencies,
    {
        ElementFilter::default()
    }

    /// Nodes only.
    pub fn nodes_only() -> (r: ElementFilter)
        ensures
            r.include_nodes && !r.include_ways && !r.include_relations && !r.include_changesets,
            r.id_ranges@.len() == 0,
            r.tag_filters.wf(),
            r.tag_filters.conditions().len() == 0,
            r.bbox is None,
            !r.resolve_dependencies,
    {
        let mut f = ElementFilter::default();
        f.include_ways = false;
        f.include_relations = false;
        f
    }

    /// Ways only, with the nodes they reference when `resolve_dependencies`.
    pub fn ways_only(resolve_dependencies: bool) -> (r: ElementFilter)
        ensures
            r.include_nodes == resolve_dependencies,
            r.include_ways && !r.include_relations && !r.include_changesets,
            r.id_ranges@.len() == 0,
            r.tag_filters.wf(),
            r.tag_filters.conditions().len() == 0,
            r.bbox is None,
            r.resolve_dependencies == resolve_dependencies,
    {
        let mut f = ElementFilter::default();
        f.include_nodes = resolve_dependencies;
        f.include_relations = false;
        f.resolve_dependencies = resolve_dependencies;
        f
    }

    /// Adds the inclusive id range `[min_id, max_id]`.
    pub fn with_id_range(self, min_id: i64, max_id: i64) -> (r: ElementFilter)
        ensures
            r.id_ranges@ == self.id_ranges@.push((min_id, max_id)),
            r.include_nodes == self.include_nodes,
            r.include_ways == self.include_ways,
            r.include_relations == self.include_relations,
            r.include_changesets == self.include_changesets,
            r.tag_filters == self.tag_filters,
            r.bbox == self.bbox,
            r.resolve_dependencies == self.resolve_dependencies,
    {
        let mut f = self;
        f.id_ranges.push((min_id, max_id));
        f
    }

    /// Requires the tag `key`, with any value.
    pub fn with_tag_key(self, key: String) -> (r: ElementFilter)
        requires
            self.tag_filters.wf(),
            self.tag_filters.conditions().len() < usize::MAX,
        ensures
            r.tag_filters.wf(),
            (exists|i: int|
                0 <= i < self.tag_filters.conditions().len() && self.tag_filters.conditions()[i].0 == key@
                    && r.tag_filters.conditions() == self.tag_filters.conditions().update(i, (key@, None))) || (
            (forall|i: int| 0 <= i < self.tag_filters.conditions().len() ==> self.tag_filters.conditions()[i].0 != key@)
                && r.tag_filters.conditions() == self.tag_filters.conditions().push((key@, None))),
            r.id_ranges@ == self.id_ranges@,
            r.include_nodes == self.include_nodes,
            r.include_ways == self.include_ways,
            r.include_relations == self.include_relations,
            r.include_changesets == self.include_changesets,
            r.bbox == self.bbox,
            r.resolve_dependencies == self.resolve_dependencies,
    {
        let mut f = self;
        f.tag_filters.insert(key, None);
        f
    }

    /// Requires the tag `key = value`.
    pub fn with_tag(self, key: String, value: String) -> (r: ElementFilter)
        requires
            self.tag_filters.wf(),
            self.tag_filters.conditions().len() < usize::MAX,
        ensures
            r.tag_filters.wf(),
            (exists|i: int|
                0 <= i < self.tag_filters.conditions().len() && self.tag_filters.conditions()[i].0 == key@
                    && r.tag_filters.conditions() == self.tag_filters.conditions().update(i, (key@, Some(value@)))) || (
            (forall|i: int| 0 <= i < self.tag_filters.conditions().len() ==> self.tag_filters.conditions()[i].0 != key@)
                && r.tag_filters.conditions() == self.tag_filters.conditions().push((key@, Some(value@)))),
            r.id_ranges@ == self.id_ranges@,
            r.include_nodes == self.include_nodes,
            r.include_ways == self.include_ways,
            r.include_relations == self.include_relations,
            r.include_changesets == self.include_changesets,
            r.bbox == self.bbox,
            r.resolve_dependencies == self.resolve_dependencies,
    {
        let mut f = self;
        f.tag_filters.insert(key, Some(value));
        f
    }
}

/// Two inclusive id ranges share an id; an empty range shares none.
pub open spec fn ranges_overlap(a: (i64, i64), b: (i64, i64)) -> bool {
    a.0 <= a.1 && b.0 <= b.1 && a.0 <= b.1 && b.0 <= a.1
}

/// The blob's known id range leaves it possibly relevant to the filter.
pub open spec fn id_range_admits(f: ElementFilter, e: BlobIndex) -> bool {
    f.id_ranges@.len() == 0 || e.id_range is None || exists|i: int|
        0 <= i < f.id_ranges@.len() && ranges_overlap(f.id_ranges@[i], e.id_range->Some_0)
}

/// The blob's known counts leave it possibly relevant to the filter; all
/// zero counts are unknown counts.
pub open spec fn counts_admit(f: ElementFilter, c: ElementCounts) -> bool {
    (c.nodes == 0 && c.ways == 0 && c.relations == 0 && c.changesets == 0) || (f.include_nodes
        && c.nodes > 0) || (f.include_ways && c.ways > 0) || (f.include_relations && c.relations
        > 0) || (f.include_changesets && c.changesets > 0)
}

/// Pushdown: header blobs always pass, unknown blobs never, data blobs
/// unless their id range or their counts rule them out.
pub open spec fn blob_admitted(f: ElementFilter, e: BlobIndex) -> bool {
    match e.blob_type {
        BlobType::OSMHeader => true,
        BlobType::OSMData => id_range_admits(f, e) && counts_admit(f, e.element_counts),
        BlobType::Unknown(_) => false,
    }
}

/// Decides the pushdown of one blob.
pub fn admits_blob(f: &ElementFilter, e: &BlobIndex) -> (r: bool)
    ensures
        r == blob_admitted(*f, *e),
{
    match e.blob_type {
        BlobType::OSMHeader => true,
        BlobType::Unknown(_) => false,
        BlobType::OSMData => {
            let c = e.element_counts;
            let counts_ok = (c.nodes == 0 && c.ways == 0 && c.relations == 0 && c.changesets == 0)
                || (f.include_nodes && c.nodes > 0) || (f.include_ways && c.ways > 0) || (
            f.include_relations && c.relations > 0) || (f.include_changesets && c.changesets > 0);
            if !counts_ok {
                return false;
            }
            match e.id_range {
                None => true,
                Some(range) => {
                    if f.id_ranges.len() == 0 {
                        return true;
                    }
                    let mut i: usize = 0;
                    while i < f.id_ranges.len()
                        invariant
                            i <= f.id_ranges@.len(),
                            forall|j: int| 0 <= j < i ==> !ranges_overlap(f.id_ranges@[j], range),
                            counts_admit(*f, e.element_counts),
                            e.id_range == Some(range),
                            e.blob_type is OSMData,
                        decreases f.id_ranges@.len() - i,
                    {
                        let q = f.id_ranges[i];
                        if q.0 <= q.1 && range.0 <= range.1 && q.0 <= range.1 && range.0 <= q.1 {
                            assert(ranges_overlap(f.id_ranges@[i as int], range));
                            return true;
                        }
                        i = i + 1;
                    }
                    false
                },
            }
        },
    }
}

/// `narrow` asks for no more than `wide`: fewer types, ids within `wide`'s
/// ranges, at least `wide`'s tag conditions.
pub open spec fn filter_within(narrow: ElementFilter, wide: ElementFilter) -> bool {
    &&& (narrow.include_nodes ==> wide.include_nodes)
    &&& (narrow.include_ways ==> wide.include_ways)
    &&& (narrow.include_relations ==> wide.include_relations)
    &&& (narrow.include_changesets ==> wide.include_changesets)
    &&& (wide.id_ranges@.len() == 0 || (narrow.id_ranges@.len() > 0 && forall|i: int|
        0 <= i < narrow.id_ranges@.len() ==> exists|j: int|
            0 <= j < wide.id_ranges@.len() && range_within(#[trigger] narrow.id_ranges@[i], wide.id_ranges@[j])))
    &&& forall|j: int| 0 <= j < wide.tag_filters.conditions().len() ==> narrow.tag_filters.conditions().contains(wide.tag_filters.conditions()[j])
    &&& (wide.bbox matches Some(w) ==> narrow.bbox matches Some(n) && bbox_within(n, w))
}

/// Range `a` lies within range `b`, or is empty.
pub open spec fn range_within(a: (i64, i64), b: (i64, i64)) -> bool {
    a.0 > a.1 || (b.0 <= a.0 && a.1 <= b.1)
}

/// Box `a` lies within box `b`.
pub open spec fn bbox_within(a: HeaderBBox, b: HeaderBBox) -> bool {
    b.min_lon.0 <= a.min_lon.0 && a.max_lon.0 <= b.max_lon.0 && b.min_lat.0 <= a.min_lat.0
        && a.max_lat.0 <= b.max_lat.0
}

/// A narrower filter admits no blob that a wider one skips.
pub proof fn lemma_pushdown_monotone(narrow: ElementFilter, wide: ElementFilter, e: BlobIndex)
    requires
        filter_within(narrow, wide),
        blob_admitted(narrow, e),
    ensures
        blob_admitted(wide, e),
{
    if e.blob_type is OSMData && e.id_range is Some && wide.id_ranges@.len() > 0 {
        let i = choose|i: int|
            0 <= i < narrow.id_ranges@.len() && ranges_overlap(narrow.id_ranges@[i], e.id_range->Some_0);
        let j = choose|j: int|
            0 <= j < wide.id_ranges@.len() && range_within(narrow.id_ranges@[i], wide.id_ranges@[j]);
        assert(ranges_overlap(wide.id_ranges@[j], e.id_range->Some_0));
    }
}

/// The index of a file: its frames in file order, the first header frame,
/// and the error that stopped the scan early, if one did.
#[derive(Debug, Clone)]
pub struct FileIndex {
    blob_index: Vec<BlobIndex>,
    header_blob: Option<BlobIndex>,
    warning: Option<BlobError>,
    file_size: u64,
}

impl FileIndex {
    pub closed spec fn entries(&self) -> Seq<BlobIndex> {
        self.blob_index@
    }

    pub closed spec fn header(&self) -> Option<BlobIndex> {
        self.header_blob
    }

    pub closed spec fn stop_error(&self) -> Option<BlobError> {
        self.warning
    }

    pub closed spec fn size(&self) -> u64 {
        self.file_size
    }

    /// The index records `b`: one matching entry per whole frame from offset
    /// 0 on, and no stop error exactly when the frames reach the end of `b`.
    pub open spec fn indexes(&self, b: Seq<u8>) -> bool {
        &&& self.entries().len() == frames_from(b, 0).len()
        &&& forall|i: int| 0 <= i < self.entries().len() ==> entry_matches(b, #[trigger] frames_from(b, 0)[i], self.entries()[i])
        &&& (self.stop_error() is None <==> frame_at(b, frames_end(b, 0)) is End)
        &&& self.size() == b.len()
    }

    /// The index of `b`: one entry per whole frame from offset 0 on, in file
    /// order; the first header frame in its own slot; the scan stops at the
    /// end of the file, or with a recorded error at the first point where no
    /// whole frame stands.
    pub fn build(b: &[u8]) -> (r: FileIndex)
        ensures
            r.entries().len() == frames_from(b@, 0).len(),
            forall|i: int| 0 <= i < r.entries().len() ==> entry_matches(b@, #[trigger] frames_from(b@, 0)[i], r.entries()[i]),
            r.stop_error() is None <==> frame_at(b@, frames_end(b@, 0)) is End,
            r.stop_error() matches Some(e) ==> match frame_at(b@, frames_end(b@, 0)) {
                FrameScan::TooLarge(_) => e is HeaderTooLarge,
                _ => e is InvalidFormat,
            },
            r.header() == first_header_entry(r.entries()),
            r.size() == b@.len(),
            r.indexes(b@),
    {
        let n = b.len();
        let mut index: Vec<BlobIndex> = Vec::new();
        let mut header: Option<BlobIndex> = None;
        let mut warning: Option<BlobError> = None;
        let mut off: usize = 0;
        let mut done = false;
        let ghost mut prefix: Seq<FrameEntry> = Seq::empty();
        while !done
            invariant
                n == b@.len(),
                off <= n,
                frames_from(b@, 0) == prefix + frames_from(b@, off as int),
                frames_end(b@, 0) == frames_end(b@, off as int),
                index@.len() == prefix.len(),
                forall|i: int| 0 <= i < index@.len() ==> entry_matches(b@, #[trigger] prefix[i], index@[i]),
                header == first_header_entry(index@),
                done ==> frames_from(b@, off as int).len() == 0 && frames_end(b@, off as int) == off,
                done ==> (warning is None <==> frame_at(b@, off as int) is End),
                done ==> (warning matches Some(e) ==> match frame_at(b@, off as int) {
                    FrameScan::TooLarge(_) => e is HeaderTooLarge,
                    _ => e is InvalidFormat,
                }),
                !done ==> warning is None,
            decreases n - off, if done { 0int } else { 1int },
        {
            match read_frame_head(b, off) {
                Ok(None) => {
                    done = true;
                },
                Err(e) => {
                    warning = Some(e);
                    done = true;
                },
                Ok(Some(h)) => {
                    let ghost f = frame_at(b@, off as int);
                    assert(f is Frame);
                    let entry = BlobIndex {
                        offset: off as u64,
                        size: h.size,
                        blob_type: h.header.blob_type,
                        id_range: None,
                        element_counts: ElementCounts { nodes: 0, ways: 0, relations: 0, changesets: 0 },
                    };
                    let ghost fe = FrameEntry { offset: off as int, size: h.size as int, type_start: f->type_start, type_end: f->type_end };
                    let is_header = match entry.blob_type {
                        BlobType::OSMHeader => true,
                        _ => false,
                    };
                    let ghost old_index = index@;
                    if is_header && header.is_none() {
                        header = Some(BlobIndex {
                            offset: off as u64,
                            size: h.size,
                            blob_type: BlobType::OSMHeader,
                            id_range: None,
                            element_counts: ElementCounts { nodes: 0, ways: 0, relations: 0, changesets: 0 },
                        });
                    }
                    index.push(entry);
                    proof {
                        assert(frames_from(b@, off as int) == seq![fe] + frames_from(b@, off + h.size));
                        assert(prefix.push(fe) + frames_from(b@, off + h.size) =~= prefix + (seq![fe] + frames_from(b@, off + h.size)));
                        prefix = prefix.push(fe);
                        lemma_first_header_push(old_index, index@.last(), 0);
                        match first_header_from(old_index, 0) {
                            Some(k) => {
                                assert(index@[k] == old_index[k]);
                            },
                            None => {},
                        }
                    }
                    off = off + h.size as usize;
                },
            }
        }
        proof {
            assert(frames_from(b@, 0) =~= prefix);
        }
        FileIndex { blob_index: index, header_blob: header, warning, file_size: n as u64 }
    }
}

impl FileIndex {
    /// Number of indexed blobs.
    pub fn blob_count(&self) -> (r: usize)
        ensures
            r == self.entries().len(),
    {
        self.blob_index.len()
    }

    /// The entry at `index`, or `None` past the end.
    pub fn get_blob_index(&self, index: usize) -> (r: Option<&BlobIndex>)
        ensures
            index < self.entries().len() <==> r is Some,
            r matches Some(e) ==> *e == self.entries()[index as int],
    {
        if index < self.blob_index.len() {
            Some(&self.blob_index[index])
        } else {
            None
        }
    }

    /// The first header entry, if any.
    pub fn header_blob(&self) -> (r: Option<&BlobIndex>)
        ensures
            r is Some <==> self.header() is Some,
            r matches Some(e) ==> *e == self.header()->Some_0,
    {
        match &self.header_blob {
            Some(e) => Some(e),
            None => None,
        }
    }

    /// The error that stopped the scan before the end of the file, if any.
    pub fn warning(&self) -> (r: Option<&BlobError>)
        ensures
            r is Some <==> self.stop_error() is Some,
            r matches Some(e) ==> *e == self.stop_error()->Some_0,
    {
        match &self.warning {
            Some(e) => Some(e),
            None => None,
        }
    }

    /// Length of the indexed file in bytes.
    pub fn file_size(&self) -> (r: u64)
        ensures
            r == self.size(),
    {
        self.file_size
    }

    /// Counts of blobs by type and sums of the known element counts.
    pub fn statistics(&self) -> (r: IndexStatistics)
        ensures
            r.total_blobs == self.entries().len(),
            r.header_blobs == count_type(self.entries(), 0),
            r.data_blobs == count_type(self.entries(), 1),
            r.unknown_blobs == count_type(self.entries(), 2),
            r.total_nodes == sat_sum(self.entries(), 0),
            r.total_ways == sat_sum(self.entries(), 1),
            r.total_relations == sat_sum(self.entries(), 2),
            r.total_changesets == sat_sum(self.entries(), 3),
    {
        let mut stats = IndexStatistics {
            total_blobs: 0,
            header_blobs: 0,
            data_blobs: 0,
            unknown_blobs: 0,
            total_nodes: 0,
            total_ways: 0,
            total_relations: 0,
            total_changesets: 0,
        };
        let mut i: usize = 0;
        while i < self.blob_index.len()
            invariant
                i <= self.entries().len(),
                stats.total_blobs == i,
                stats.header_blobs == count_type(self.entries().take(i as int), 0),
                stats.data_blobs == count_type(self.entries().take(i as int), 1),
                stats.unknown_blobs == count_type(self.entries().take(i as int), 2),
                stats.total_nodes == sat_sum(self.entries().take(i as int), 0),
                stats.total_ways == sat_sum(self.entries().take(i as int), 1),
                stats.total_relations == sat_sum(self.entries().take(i as int), 2),
                stats.total_changesets == sat_sum(self.entries().take(i as int), 3),
            decreases self.entries().len() - i,
        {
            let e = &self.blob_index[i];
            proof {
                assert(self.entries().take(i + 1).drop_last() =~= self.entries().take(i as int));
                lemma_count_type_bound(self.entries().take(i as int), 0);
                lemma_count_type_bound(self.entries().take(i as int), 1);
                lemma_count_type_bound(self.entries().take(i as int), 2);
            }
            match e.blob_type {
                BlobType::OSMHeader => stats.header_blobs = stats.header_blobs + 1,
                BlobType::OSMData => stats.data_blobs = stats.data_blobs + 1,
                BlobType::Unknown(_) => stats.unknown_blobs = stats.unknown_blobs + 1,
            }
            stats.total_nodes = stats.total_nodes.saturating_add(e.element_counts.nodes as u64);
            stats.total_ways = stats.total_ways.saturating_add(e.element_counts.ways as u64);
            stats.total_relations = stats.total_relations.saturating_add(e.element_counts.relations as u64);
            stats.total_changesets = stats.total_changesets.saturating_add(e.element_counts.changesets as u64);
            stats.total_blobs = stats.total_blobs + 1;
            i = i + 1;
        }
        proof {
            assert(self.entries().take(i as int) =~= self.entries());
        }
        stats
    }

    /// Positions of the blobs that may hold an id in `[min_id, max_id]`:
    /// those whose id range is unknown or overlaps it, in index order.
    pub fn find_blobs_for_id_range(&self, min_id: i64, max_id: i64) -> (r: Vec<usize>)
        ensures
            r@ == positions_for_range(self.entries(), (min_id, max_id), self.entries().len() as int),
    {
        let mut out: Vec<usize> = Vec::new();
        let mut i: usize = 0;
        while i < self.blob_index.len()
            invariant
                i <= self.entries().len(),
                out@ == positions_for_range(self.entries(), (min_id, max_id), i as int),
            decreases self.entries().len() - i,
        {
            let keep = match self.blob_index[i].id_range {
                None => true,
                Some((lo, hi)) => lo <= max_id && hi >= min_id,
            };
            if keep {
                out.push(i);
            }
            i = i + 1;
        }
        out
    }
}

/// Number of entries of the given kind: 0 header, 1 data, 2 other.
pub open spec fn count_type(s: Seq<BlobIndex>, kind: int) -> int
    decreases s.len(),
{
    if s.len() == 0 {
        0
    } else {
        count_type(s.drop_last(), kind) + if type_kind(s.last().blob_type) == kind {
            1int
        } else {
            0int
        }
    }
}

/// A count of entries is at most their number.
pub proof fn lemma_count_type_bound(s: Seq<BlobIndex>, kind: int)
    ensures
        0 <= count_type(s, kind) <= s.len(),
    decreases s.len(),
{
    if s.len() > 0 {
        lemma_count_type_bound(s.drop_last(), kind);
    }
}

/// 0 for a header blob, 1 for a data blob, 2 for another.
pub open spec fn type_kind(t: BlobType) -> int {
    match t {
        BlobType::OSMHeader => 0,
        BlobType::OSMData => 1,
        BlobType::Unknown(_) => 2,
    }
}

/// One of an entry's element counts: 0 nodes, 1 ways, 2 relations,
/// 3 changesets.
pub open spec fn count_of(e: BlobIndex, kind: int) -> u64 {
    if kind == 0 {
        e.element_counts.nodes as u64
    } else if kind == 1 {
        e.element_counts.ways as u64
    } else if kind == 2 {
        e.element_counts.relations as u64
    } else {
        e.element_counts.changesets as u64
    }
}

/// Sum of one element count over the entries, saturating at `u64::MAX`.
pub open spec fn sat_sum(s: Seq<BlobIndex>, kind: int) -> u64
    decreases s.len(),
{
    if s.len() == 0 {
        0
    } else {
        sat_sum(s.drop_last(), kind).saturating_add(count_of(s.last(), kind))
    }
}

/// Positions below `n` whose id range is unknown or meets `range`
/// (compared bound to bound, as written).
pub open spec fn positions_for_range(s: Seq<BlobIndex>, range: (i64, i64), n: int) -> Seq<usize>
    decreases n,
{
    if n <= 0 {
        Seq::empty()
    } else {
        let rest = positions_for_range(s, range, n - 1);
        let keep = match s[n - 1].id_range {
            None => true,
            Some((lo, hi)) => lo <= range.1 && hi >= range.0,
        };
        if keep {
            rest.push((n - 1) as usize)
        } else {
            rest
        }
    }
}

/// Statistics of an indexed file.
#[derive(Debug, Clone, Copy, Default)]
pub struct IndexStatistics {
    pub total_blobs: u64,
    pub header_blobs: u64,
    pub data_blobs: u64,
    pub unknown_blobs: u64,
    pub total_nodes: u64,
    pub total_ways: u64,
    pub total_relations: u64,
    pub total_changesets: u64,
}

/// Reads the blob of the frame at `off` of `b`; an offset past the end of
/// `b` is refused.
pub fn read_blob_in(b: &[u8], off: u64) -> (r: Result<Option<Blob>>)
    ensures
        off > b@.len() ==> r is Err && r->Err_0 is OutOfRange,
        off <= b@.len() ==> frame_read(b@, off as int, r),
{
    if off > b.len() as u64 {
        return Err(BlobError::OutOfRange("offset past the end of the file".to_owned()));
    }
    match read_frame_at(b, off as usize) {
        Ok(Some((blob, _))) => Ok(Some(blob)),
        Ok(None) => Ok(None),
        Err(e) => Err(e),
    }
}

/// A random-access reader over a file held in memory, with its blob index.
pub struct IndexedReader {
    data: Vec<u8>,
    index: FileIndex,
}

impl IndexedReader {
    /// The file's bytes.
    pub closed spec fn bytes(&self) -> Seq<u8> {
        self.data@
    }

    /// The file's index.
    pub closed spec fn file_index(&self) -> FileIndex {
        self.index
    }

    /// Builds the index of `data` in one pass. A malformed or truncated
    /// frame ends the index there and is kept as a warning; the reader is
    /// always made.
    pub fn new(data: Vec<u8>) -> (r: Result<IndexedReader>)
        ensures
            r is Ok,
            r->Ok_0.bytes() == data@,
            r->Ok_0.file_index().indexes(data@),
            r->Ok_0.file_index().header() == first_header_entry(r->Ok_0.file_index().entries()),
    {
        let index = FileIndex::build(data.as_slice());
        Ok(IndexedReader { data, index })
    }

    /// The file's bytes, borrowed.
    pub fn data(&self) -> (r: &[u8])
        ensures
            r@ == self.bytes(),
    {
        self.data.as_slice()
    }

    /// The index built at construction.
    pub fn index(&self) -> (r: &FileIndex)
        ensures
            *r == self.file_index(),
    {
        &self.index
    }

    /// The first header entry, if any.
    pub fn header_blob(&self) -> (r: Option<&BlobIndex>)
        ensures
            r is Some <==> self.file_index().header() is Some,
            r matches Some(e) ==> *e == self.file_index().header()->Some_0,
    {
        self.index.header_blob()
    }

    /// Number of indexed blobs.
    pub fn blob_count(&self) -> (r: usize)
        ensures
            r == self.file_index().entries().len(),
    {
        self.index.blob_count()
    }

    /// The entry at `index`, or `None` past the end.
    pub fn get_blob_index(&self, index: usize) -> (r: Option<&BlobIndex>)
        ensures
            index < self.file_index().entries().len() <==> r is Some,
            r matches Some(e) ==> *e == self.file_index().entries()[index as int],
    {
        self.index.get_blob_index(index)
    }

    /// Reads the blob at entry `index`; an index past the end is refused.
    pub fn read_blob_by_index(&self, index: usize) -> (r: Result<Option<Blob>>)
        ensures
            index >= self.file_index().entries().len() ==> r is Err && r->Err_0 is OutOfRange,
            index < self.file_index().entries().len() ==> {
                let off = self.file_index().entries()[index as int].offset;
                (off > self.bytes().len() ==> r is Err && r->Err_0 is OutOfRange)
                && (off <= self.bytes().len() ==> frame_read(self.bytes(), off as int, r))
            },
    {
        match self.index.get_blob_index(index) {
            None => Err(BlobError::OutOfRange("blob index past the end of the index".to_owned())),
            Some(e) => read_blob_in(self.data.as_slice(), e.offset),
        }
    }

    /// Reads the blob of the frame at `offset`; an offset past the end of
    /// the file is refused.
    pub fn read_blob_at_offset(&self, offset: u64) -> (r: Result<Option<Blob>>)
        ensures
            offset > self.bytes().len() ==> r is Err && r->Err_0 is OutOfRange,
            offset <= self.bytes().len() ==> frame_read(self.bytes(), offset as int, r),
    {
        read_blob_in(self.data.as_slice(), offset)
    }

    /// The bytes `[offset, offset + len)` of the file; a range past its end
    /// is refused.
    pub fn raw_slice(&self, offset: usize, len: usize) -> (r: Result<&[u8]>)
        ensures
            offset + len <= self.bytes().len() <==> r is Ok,
            r matches Ok(s) ==> s@ == self.bytes().subrange(offset as int, offset + len),
            r matches Err(e) ==> e is InvalidFormat,
    {
        raw_slice_in(self.data.as_slice(), offset, len)
    }

    /// Length of the file in bytes.
    pub fn file_size(&self) -> (r: u64)
        ensures
            r == self.bytes().len(),
    {
        self.data.len() as u64
    }

    /// The error that ended indexing before the end of the file, if any.
    pub fn warning(&self) -> (r: Option<&BlobError>)
        ensures
            r is Some <==> self.file_index().stop_error() is Some,
            r matches Some(e) ==> *e == self.file_index().stop_error()->Some_0,
    {
        self.index.warning()
    }

    /// An iterator over the blobs that `filter` admits, in file order.
    pub fn stream_filtered<'a>(&'a self, filter: &'a ElementFilter) -> (r: FilteredBlobIterator<'a>)
        ensures
            r.source() == *self,
            r.spec_filter() == *filter,
            r.position() == 0,
    {
        FilteredBlobIterator::new(self, filter)
    }

    /// Counts of blobs by type and sums of the known element counts.
    pub fn statistics(&self) -> (r: IndexStatistics)
        ensures
            r.total_blobs == self.file_index().entries().len(),
            r.header_blobs == count_type(self.file_index().entries(), 0),
            r.data_blobs == count_type(self.file_index().entries(), 1),
            r.unknown_blobs == count_type(self.file_index().entries(), 2),
            r.total_nodes == sat_sum(self.file_index().entries(), 0),
            r.total_ways == sat_sum(self.file_index().entries(), 1),
            r.total_relations == sat_sum(self.file_index().entries(), 2),
            r.total_changesets == sat_sum(self.file_index().entries(), 3),
    {
        self.index.statistics()
    }

    /// Positions of the blobs that may hold an id in `[min_id, max_id]`.
    pub fn find_blobs_for_id_range(&self, min_id: i64, max_id: i64) -> (r: Vec<usize>)
        ensures
            r@ == positions_for_range(
                self.file_index().entries(),
                (min_id, max_id),
                self.file_index().entries().len() as int,
            ),
    {
        self.index.find_blobs_for_id_range(min_id, max_id)
    }
}

/// Position of the first entry at or after `from` that the filter admits.
pub open spec fn next_admitted(s: Seq<BlobIndex>, f: ElementFilter, from: int) -> Option<int>
    decreases s.len() - from,
{
    if from < 0 || from >= s.len() {
        None
    } else if blob_admitted(f, s[from]) {
        Some(from)
    } else {
        next_admitted(s, f, from + 1)
    }
}

/// A blob read as an iterator item: a frame's blob, or the error; an
/// absent frame is an error too.
pub open spec fn item_matches(ro: Result<Option<Blob>>, r: Result<Blob>) -> bool {
    match ro {
        Ok(Some(b)) => r == Ok::<Blob, BlobError>(b),
        Ok(None) => r is Err && r->Err_0 is InvalidFormat,
        Err(e) => r == Err::<Blob, BlobError>(e),
    }
}

fn item_of(ro: Result<Option<Blob>>) -> (r: Result<Blob>)
    ensures
        item_matches(ro, r),
{
    match ro {
        Ok(Some(b)) => Ok(b),
        Ok(None) => Err(BlobError::InvalidFormat("no frame at an indexed offset".to_owned())),
        Err(e) => Err(e),
    }
}

/// Walks the index in file order and reads each blob that its filter admits.
pub struct FilteredBlobIterator<'a> {
    reader: &'a IndexedReader,
    filter: &'a ElementFilter,
    current_index: usize,
}

impl<'a> FilteredBlobIterator<'a> {
    /// The next index entry to consider.
    pub closed spec fn position(&self) -> usize {
        self.current_index
    }

    /// The reader walked.
    pub closed spec fn source(&self) -> IndexedReader {
        *self.reader
    }

    /// The filter applied.
    pub closed spec fn spec_filter(&self) -> ElementFilter {
        *self.filter
    }

    fn new(reader: &'a IndexedReader, filter: &'a ElementFilter) -> (r: FilteredBlobIterator<'a>)
        ensures
            r.source() == *reader,
            r.spec_filter() == *filter,
            r.position() == 0,
    {
        FilteredBlobIterator { reader, filter, current_index: 0 }
    }

    /// Reads the next admitted blob, or `None` once the index is exhausted.
    pub fn next(&mut self) -> (r: Option<Result<Blob>>)
        ensures
            final(self).source() == old(self).source(),
            final(self).spec_filter() == old(self).spec_filter(),
            match next_admitted(old(self).source().file_index().entries(), old(self).spec_filter(), old(self).position() as int) {
                None => r is None,
                Some(k) => {
                    let off = old(self).source().file_index().entries()[k].offset;
                    &&& r is Some
                    &&& final(self).position() == k + 1
                    &&& (off > old(self).source().bytes().len() ==> r->Some_0 is Err)
                    &&& (off <= old(self).source().bytes().len() ==> exists|ro: Result<Option<Blob>>|
                        frame_read(old(self).source().bytes(), off as int, ro) && #[trigger] item_matches(ro, r->Some_0))
                },
            },
    {
        let n = self.reader.blob_count();
        while self.current_index < n
            invariant
                n == self.reader.file_index().entries().len(),
                self.reader == old(self).reader,
                self.filter == old(self).filter,
                *self.reader == old(self).source(),
                old(self).position() <= self.current_index,
                next_admitted(self.reader.file_index().entries(), *self.filter, old(self).position() as int)
                    == next_admitted(self.reader.file_index().entries(), *self.filter, self.current_index as int),
            decreases n - self.current_index,
        {
            let i = self.current_index;
            let e = self.reader.get_blob_index(i).unwrap();
            self.current_index = i + 1;
            if admits_blob(self.filter, e) {
                let ro = self.reader.read_blob_by_index(i);
                let item = item_of(ro);
                return Some(item);
            }
        }
        None
    }
}

/// The bytes `[offset, offset + len)` of `b`; a range past its end is
/// refused.
pub fn raw_slice_in(b: &[u8], offset: usize, len: usize) -> (r: Result<&[u8]>)
    ensures
        offset + len <= b@.len() <==> r is Ok,
        r matches Ok(s) ==> s@ == b@.subrange(offset as int, offset + len),
        r matches Err(e) ==> e is InvalidFormat,
{
    if offset > b.len() || len > b.len() - offset {
        return Err(BlobError::InvalidFormat("range past the end of the file".to_owned()));
    }
    Ok(slice_subrange(b, offset, offset + len))
}

/// Walks a file's index in file order and reads, from the file's bytes,
/// each blob that a filter admits; the bytes are borrowed, as from a
/// mapping.
pub struct IndexFilteredIterator<'a> {
    bytes: &'a [u8],
    index: &'a FileIndex,
    filter: &'a ElementFilter,
    current_index: usize,
}

impl<'a> IndexFilteredIterator<'a> {
    /// The next index entry to consider.
    pub closed spec fn position(&self) -> usize {
        self.current_index
    }

    /// The file's bytes.
    pub closed spec fn source_bytes(&self) -> Seq<u8> {
        self.bytes@
    }

    /// The file's index.
    pub closed spec fn source_index(&self) -> FileIndex {
        *self.index
    }

    /// The filter applied.
    pub closed spec fn spec_filter(&self) -> ElementFilter {
        *self.filter
    }

    /// Starts before the first index entry.
    pub fn new(bytes: &'a [u8], index: &'a FileIndex, filter: &'a ElementFilter) -> (r: IndexFilteredIterator<'a>)
        ensures
            r.source_bytes() == bytes@,
            r.source_index() == *index,
            r.spec_filter() == *filter,
            r.position() == 0,
    {
        IndexFilteredIterator { bytes, index, filter, current_index: 0 }
    }

    /// Reads the next admitted blob, or `None` once the index is exhausted.
    pub fn next(&mut self) -> (r: Option<Result<Blob>>)
        ensures
            final(self).source_bytes() == old(self).source_bytes(),
            final(self).source_index() == old(self).source_index(),
            final(self).spec_filter() == old(self).spec_filter(),
            match next_admitted(old(self).source_index().entries(), old(self).spec_filter(), old(self).position() as int) {
                None => r is None,
                Some(k) => {
                    let off = old(self).source_index().entries()[k].offset;
                    &&& r is Some
                    &&& final(self).position() == k + 1
                    &&& (off > old(self).source_bytes().len() ==> r->Some_0 is Err)
                    &&& (off <= old(self).source_bytes().len() ==> exists|ro: Result<Option<Blob>>|
                        frame_read(old(self).source_bytes(), off as int, ro) && #[trigger] item_matches(ro, r->Some_0))
                },
            },
    {
        let n = self.index.blob_count();
        while self.current_index < n
            invariant
                n == self.index.entries().len(),
                self.bytes == old(self).bytes,
                self.index == old(self).index,
                self.filter == old(self).filter,
                old(self).position() <= self.current_index,
                next_admitted(self.index.entries(), *self.filter, old(self).position() as int)
                    == next_admitted(self.index.entries(), *self.filter, self.current_index as int),
            decreases n - self.current_index,
        {
            let i = self.current_index;
            let e = self.index.get_blob_index(i).unwrap();
            self.current_index = i + 1;
            if admits_blob(self.filter, e) {
                let ro = read_blob_in(self.bytes, e.offset);
                let item = item_of(ro);
                return Some(item);
            }
        }
        None
    }
}

/// Appending an entry keeps an earlier first header, or makes the new entry
/// the first one.
pub proof fn lemma_first_header_push(s: Seq<BlobIndex>, e: BlobIndex, i: int)
    requires
        0 <= i <= s.len(),
    ensures
        first_header_from(s.push(e), i) == (match first_header_from(s, i) {
            Some(k) => Some(k),
            None => if e.blob_type is OSMHeader {
                Some(s.len() as int)
            } else {
                None
            },
        }),
        first_header_from(s, i) matches Some(k) ==> i <= k < s.len(),
    decreases s.len() - i,
{
    if i < s.len() {
        assert(s.push(e)[i] == s[i]);
        lemma_first_header_push(s, e, i + 1);
    } else {
        assert(s.push(e)[i] == e);
        assert(first_header_from(s.push(e), i + 1) == None::<int>);
    }
}

/// Sum of the sizes of index entries.
pub open spec fn index_sizes_sum(s: Seq<BlobIndex>) -> int
    decreases s.len(),
{
    if s.len() == 0 {
        0
    } else {
        s[0].size + index_sizes_sum(s.drop_first())
    }
}

/// The frames from `off` on follow one another without gap or overlap, and
/// their sizes add up to where they end.
pub proof fn lemma_frames_contiguous(b: Seq<u8>, off: int)
    ensures
        sizes_sum(frames_from(b, off)) == frames_end(b, off) - off,
        frames_from(b, off).len() > 0 ==> frames_from(b, off)[0].offset == off,
        forall|i: int|
            0 <= i < frames_from(b, off).len() - 1 ==> #[trigger] frames_from(b, off)[i + 1].offset
                == frames_from(b, off)[i].offset + frames_from(b, off)[i].size,
    decreases b.len() - off,
{
    match frame_at(b, off) {
        FrameScan::Frame { size, .. } => if 0 <= off && 0 < size && off + size <= b.len() {
            lemma_frames_contiguous(b, off + size);
            let s = frames_from(b, off);
            let t = frames_from(b, off + size);
            assert(s.drop_first() =~= t);
            assert forall|i: int| 0 <= i < s.len() - 1 implies #[trigger] s[i + 1].offset == s[i].offset
                + s[i].size by {
                if i > 0 {
                    assert(s[i + 1] == t[i]);
                    assert(s[i] == t[i - 1]);
                }
            }
        },
        _ => {},
    }
}

/// Two sequences of sizes that agree entry by entry have the same sum.
proof fn lemma_sizes_agree(f: Seq<FrameEntry>, s: Seq<BlobIndex>)
    requires
        f.len() == s.len(),
        forall|i: int| 0 <= i < f.len() ==> f[i].size == s[i].size,
    ensures
        sizes_sum(f) == index_sizes_sum(s),
    decreases f.len(),
{
    if f.len() > 0 {
        lemma_sizes_agree(f.drop_first(), s.drop_first());
    }
}

/// An index whose scan reached the end of the file covers it exactly: the
/// first entry starts at 0, each entry starts where the previous one ends,
/// and the sizes add up to the file's length.
pub proof fn lemma_index_covers_file(b: Seq<u8>, idx: FileIndex)
    requires
        idx.indexes(b),
        idx.stop_error() is None,
    ensures
        index_sizes_sum(idx.entries()) == b.len(),
        idx.entries().len() > 0 ==> idx.entries()[0].offset == 0,
        forall|i: int|
            0 <= i < idx.entries().len() - 1 ==> #[trigger] idx.entries()[i + 1].offset
                == idx.entries()[i].offset + idx.entries()[i].size,
{
    let f = frames_from(b, 0);
    let s = idx.entries();
    lemma_frames_contiguous(b, 0);
    assert forall|i: int| 0 <= i < f.len() implies f[i].size == s[i].size by {
        assert(entry_matches(b, f[i], s[i]));
    }
    lemma_sizes_agree(f, s);
    if s.len() > 0 {
        assert(entry_matches(b, f[0], s[0]));
    }
    assert forall|i: int| 0 <= i < s.len() - 1 implies #[trigger] s[i + 1].offset == s[i].offset + s[i].size by {
        assert(entry_matches(b, f[i], s[i]));
        assert(entry_matches(b, f[i + 1], s[i + 1]));
        assert(f[i + 1].offset == f[i].offset + f[i].size);
    }
}

} // verus!
