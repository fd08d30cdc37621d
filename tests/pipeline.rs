use bytes::Bytes;
use osm_pbf::blocks::decode::{coordinate, decode_block, decode_dense, dense_tags, CoordFrame};
use osm_pbf::blocks::delta::{delta_decode, delta_encode};
use osm_pbf::blocks::header_block::HeaderBlock;
use osm_pbf::blocks::primitives::{DenseNodes, Node, PrimitiveBlock, PrimitiveGroup};
use osm_pbf::blocks::string_table::StringTable;
use osm_pbf::io::blob::{Blob, BlobData, BlobError, BlobType};
use osm_pbf::io::frame::read_frame_at;
use osm_pbf::io::indexed_reader::{admits_blob, BlobIndex, ElementCounts, ElementFilter, IndexedReader};
use osm_pbf::io::reader::{blob_block, element_matches, OsmElement, Reader};

fn varint(mut v: u64, out: &mut Vec<u8>) {
    while v >= 128 {
        out.push((v as u8 & 0x7f) | 0x80);
        v >>= 7;
    }
    out.push(v as u8);
}

fn key(field: u64, wire: u64, out: &mut Vec<u8>) {
    varint(field * 8 + wire, out);
}

fn varint_field(field: u64, v: u64, out: &mut Vec<u8>) {
    key(field, 0, out);
    varint(v, out);
}

fn bytes_field(field: u64, data: &[u8], out: &mut Vec<u8>) {
    key(field, 2, out);
    varint(data.len() as u64, out);
    out.extend_from_slice(data);
}

fn zz(v: i64) -> u64 {
    ((v << 1) ^ (v >> 63)) as u64
}

fn packed(field: u64, vals: &[u64], out: &mut Vec<u8>) {
    let mut body = Vec::new();
    for v in vals {
        varint(*v, &mut body);
    }
    bytes_field(field, &body, out);
}

fn frame(kind_name: &str, blob: &[u8]) -> Vec<u8> {
    let mut header = Vec::new();
    bytes_field(1, kind_name.as_bytes(), &mut header);
    varint_field(3, blob.len() as u64, &mut header);
    let mut out = (header.len() as u32).to_be_bytes().to_vec();
    out.extend_from_slice(&header);
    out.extend_from_slice(blob);
    out
}

fn raw_blob(payload: &[u8]) -> Vec<u8> {
    let mut blob = Vec::new();
    bytes_field(1, payload, &mut blob);
    varint_field(2, payload.len() as u64, &mut blob);
    blob
}

fn deltas(xs: &[i64]) -> Vec<u64> {
    let mut prev = 0i64;
    let mut out = Vec::new();
    for x in xs {
        out.push(zz(x - prev));
        prev = *x;
    }
    out
}

/// A PrimitiveBlock with one group of dense nodes.
fn dense_block(strings: &[&str], ids: &[i64], lats: &[i64], lons: &[i64], keys_vals: &[u64]) -> Vec<u8> {
    let mut table = Vec::new();
    for s in strings {
        bytes_field(1, s.as_bytes(), &mut table);
    }
    let mut dense = Vec::new();
    packed(1, &deltas(ids), &mut dense);
    packed(8, &deltas(lats), &mut dense);
    packed(9, &deltas(lons), &mut dense);
    if keys_vals.is_empty() {
        packed(10, &vec![0u64; ids.len()], &mut dense);
    } else {
        packed(10, keys_vals, &mut dense);
    }
    let mut group = Vec::new();
    bytes_field(2, &dense, &mut group);
    let mut block = Vec::new();
    bytes_field(1, &table, &mut block);
    bytes_field(2, &group, &mut block);
    varint_field(17, 100, &mut block);
    block
}

fn header_frame() -> Vec<u8> {
    let mut hb = Vec::new();
    bytes_field(4, b"OsmSchema-V0.6", &mut hb);
    frame("OSMHeader", &raw_blob(&hb))
}

fn node_of(e: &OsmElement) -> &Node {
    match e {
        OsmElement::Node(n) => n,
        _ => panic!("expected a node"),
    }
}

#[test]
fn single_dense_node_round_trip() {
    let block = dense_block(&[""], &[42], &[4_500_000], &[900_000], &[]);
    let mut file = header_frame();
    file.extend(frame("OSMData", &raw_blob(&block)));
    let reader = Reader::new(file).unwrap();
    let (elements, stats) = reader.collect_filtered(&ElementFilter::all()).unwrap();
    assert_eq!(elements.len(), 1);
    let n = node_of(&elements[0]);
    assert_eq!(n.id, 42);
    assert_eq!(n.lat, 450_000_000);
    assert_eq!(n.lon, 90_000_000);
    assert!(n.keys.is_empty());
    assert_eq!(stats.nodes_processed, 1);
    assert_eq!(stats.blobs_processed, 2);
    assert_eq!(stats.errors_encountered, 0);
}

#[test]
fn delta_unpack_running_sums() {
    assert_eq!(delta_decode(&[1000, 5, -3, 2]).unwrap(), vec![1000, 1005, 1002, 1004]);
    assert_eq!(delta_decode(&[]).unwrap(), Vec::<i64>::new());
}

#[test]
fn delta_overflow_is_a_decode_error() {
    assert!(matches!(delta_decode(&[i64::MAX, 1]), Err(BlobError::DecodeError(_))));
    assert!(matches!(delta_encode(&[i64::MIN, i64::MAX]), Err(BlobError::DecodeError(_))));
}

#[test]
fn delta_decode_then_encode_is_identity() {
    let d = vec![7, -3, 0, 12, -100];
    let x = delta_decode(&d).unwrap();
    assert_eq!(x, vec![7, 4, 4, 16, -84]);
    assert_eq!(delta_encode(&x).unwrap(), d);
}

#[test]
fn dense_tag_walk_three_nodes() {
    let tags = dense_tags(&[1, 2, 3, 4, 0, 0, 5, 6, 0], 3, 7).unwrap();
    assert_eq!(tags, vec![vec![(1, 2), (3, 4)], vec![], vec![(5, 6)]]);
}

#[test]
fn dense_tags_without_final_terminator() {
    assert!(matches!(dense_tags(&[1, 2, 3, 4, 0, 5, 6], 2, 7), Err(BlobError::DecodeError(_))));
}

#[test]
fn dense_tags_index_outside_table() {
    assert!(matches!(dense_tags(&[1, 9, 0], 1, 3), Err(BlobError::DecodeError(_))));
}

#[test]
fn empty_tag_stream_lacks_terminators() {
    assert!(matches!(dense_tags(&[], 2, 1), Err(BlobError::DecodeError(_))));
    assert_eq!(dense_tags(&[], 0, 1).unwrap(), Vec::<Vec<(u32, u32)>>::new());
    assert_eq!(dense_tags(&[0, 0], 2, 1).unwrap(), vec![Vec::<(u32, u32)>::new(), vec![]]);
}

#[test]
fn oversized_header_length_is_refused() {
    let mut file = 70_000u32.to_be_bytes().to_vec();
    file.extend(vec![0u8; 16]);
    match read_frame_at(&file, 0) {
        Err(BlobError::HeaderTooLarge { size, max }) => {
            assert_eq!(size, 70_000);
            assert_eq!(max, 65_536);
        },
        other => panic!("unexpected {:?}", other),
    }
    let reader = IndexedReader::new(file).unwrap();
    assert_eq!(reader.blob_count(), 0);
    assert!(matches!(reader.warning(), Some(BlobError::HeaderTooLarge { size: 70_000, max: 65_536 })));
}

#[test]
fn blockwise_sum_of_node_ids() {
    let mut file = header_frame();
    for chunk in 0..4i64 {
        let ids: Vec<i64> = (chunk * 250 + 1..=chunk * 250 + 250).collect();
        let zeros = vec![0i64; ids.len()];
        file.extend(frame("OSMData", &raw_blob(&dense_block(&[""], &ids, &zeros, &zeros, &[]))));
    }
    let reader = Reader::new(file).unwrap();
    let filter = ElementFilter::nodes_only();
    let mut partials = Vec::new();
    for i in 0..reader.indexed().blob_count() {
        let elements = reader.blob_elements(i, &filter).unwrap();
        partials.push(elements.iter().map(|e| node_of(e).id).fold(0i64, |a, b| a + b));
    }
    assert_eq!(partials.iter().fold(0i64, |a, b| a + b), 500_500);
    let (all, _) = reader.collect_filtered(&filter).unwrap();
    assert_eq!(all.iter().map(|e| node_of(e).id).sum::<i64>(), 500_500);
}

fn data_entry(offset: u64, id_range: Option<(i64, i64)>) -> BlobIndex {
    BlobIndex { offset, size: 10, blob_type: BlobType::OSMData, id_range, element_counts: ElementCounts::default() }
}

#[test]
fn id_range_pushdown_skips_disjoint_blobs() {
    let a = data_entry(0, Some((1, 100)));
    let b = data_entry(10, Some((200, 300)));
    let f = ElementFilter::all().with_id_range(150, 175);
    assert!(!admits_blob(&f, &a));
    assert!(!admits_blob(&f, &b));
    let g = ElementFilter::all().with_id_range(50, 60);
    assert!(admits_blob(&g, &a));
    assert!(!admits_blob(&g, &b));
}

#[test]
fn counts_pushdown_and_header_blobs() {
    let mut e = data_entry(0, None);
    e.element_counts = ElementCounts { nodes: 0, ways: 5, relations: 0, changesets: 0 };
    assert!(!admits_blob(&ElementFilter::nodes_only(), &e));
    assert!(admits_blob(&ElementFilter::ways_only(false), &e));
    let h = BlobIndex { blob_type: BlobType::OSMHeader, ..data_entry(0, Some((1, 2))) };
    assert!(admits_blob(&ElementFilter::nodes_only().with_id_range(5, 4), &h));
    let u = BlobIndex { blob_type: BlobType::Unknown("Custom".to_string()), ..data_entry(0, None) };
    assert!(!admits_blob(&ElementFilter::all(), &u));
}

#[test]
fn empty_and_inverted_id_ranges() {
    let table = StringTable::new();
    let node = OsmElement::Node(Node::new(7, 0, 0));
    assert!(element_matches(&ElementFilter::all(), &node, &table));
    assert!(!element_matches(&ElementFilter::all().with_id_range(7, 6), &node, &table));
    assert!(element_matches(&ElementFilter::all().with_id_range(7, 7), &node, &table));
    assert!(!element_matches(&ElementFilter::all().with_id_range(8, 9), &node, &table));
}

#[test]
fn narrower_filter_keeps_a_subset() {
    let mut table = StringTable::new();
    let highway = table.add_string("highway".to_string()) as u32;
    let primary = table.add_string("primary".to_string()) as u32;
    let mut tagged = Node::new(10, 0, 0);
    tagged.add_tag(highway, primary);
    let elements = vec![
        OsmElement::Node(tagged),
        OsmElement::Node(Node::new(20, 0, 0)),
        OsmElement::Node(Node::new(500, 0, 0)),
    ];
    let wide = ElementFilter::nodes_only().with_id_range(0, 100);
    let narrow = ElementFilter::nodes_only().with_id_range(0, 50).with_tag("highway".to_string(), "primary".to_string());
    let kept_wide: Vec<bool> = elements.iter().map(|e| element_matches(&wide, e, &table)).collect();
    let kept_narrow: Vec<bool> = elements.iter().map(|e| element_matches(&narrow, e, &table)).collect();
    assert_eq!(kept_wide, vec![true, true, false]);
    assert_eq!(kept_narrow, vec![true, false, false]);
    let other = ElementFilter::nodes_only().with_tag("highway".to_string(), "secondary".to_string());
    assert!(!element_matches(&other, &elements[0], &table));
    let any = ElementFilter::nodes_only().with_tag_key("highway".to_string());
    assert!(element_matches(&any, &elements[0], &table));
}

#[test]
fn index_covers_the_whole_file() {
    let mut file = header_frame();
    file.extend(frame("OSMData", &raw_blob(&dense_block(&[""], &[1, 2], &[0, 0], &[0, 0], &[]))));
    file.extend(frame("Custom", &raw_blob(b"xyz")));
    let len = file.len() as u64;
    let reader = IndexedReader::new(file).unwrap();
    assert!(reader.warning().is_none());
    assert_eq!(reader.blob_count(), 3);
    let mut sum = 0u64;
    for i in 0..reader.blob_count() {
        let e = reader.get_blob_index(i).unwrap();
        assert_eq!(e.offset, sum);
        sum += e.size as u64;
    }
    assert_eq!(sum, len);
    assert_eq!(reader.get_blob_index(2).unwrap().blob_type, BlobType::Unknown("Custom".to_string()));
    let stats = reader.statistics();
    assert_eq!((stats.total_blobs, stats.header_blobs, stats.data_blobs, stats.unknown_blobs), (3, 1, 1, 1));
}

#[test]
fn truncated_frame_stops_the_index_with_a_warning() {
    let mut file = header_frame();
    let data = frame("OSMData", &raw_blob(b"abc"));
    file.extend_from_slice(&data[..data.len() - 2]);
    let reader = IndexedReader::new(file).unwrap();
    assert_eq!(reader.blob_count(), 1);
    assert!(matches!(reader.warning(), Some(BlobError::InvalidFormat(_))));
}

#[test]
fn empty_file_gives_empty_index() {
    let reader = IndexedReader::new(Vec::new()).unwrap();
    assert_eq!(reader.blob_count(), 0);
    assert!(reader.header_blob().is_none());
    assert!(reader.warning().is_none());
    let r = Reader::new(Vec::new()).unwrap();
    let (elements, stats) = r.collect_filtered(&ElementFilter::all()).unwrap();
    assert!(elements.is_empty());
    assert_eq!(stats.blobs_processed, 0);
}

#[test]
fn single_header_blob_statistics() {
    let reader = IndexedReader::new(header_frame()).unwrap();
    let stats = reader.statistics();
    assert_eq!(stats.header_blobs, 1);
    assert_eq!(stats.data_blobs, 0);
    assert_eq!(reader.header_blob().unwrap().offset, 0);
}

#[test]
fn oversized_raw_size_is_refused_before_decompression() {
    let mut blob = Vec::new();
    varint_field(2, 33_554_433, &mut blob);
    bytes_field(3, b"not really zlib", &mut blob);
    let file = frame("OSMData", &blob);
    let reader = IndexedReader::new(file).unwrap();
    match reader.read_blob_by_index(0) {
        Err(BlobError::MessageTooLarge { size, max }) => {
            assert_eq!(size, 33_554_433);
            assert_eq!(max, 33_554_432);
        },
        other => panic!("unexpected {:?}", other),
    }
}

#[test]
fn compressed_data_blob_is_unknown_compression() {
    let mut blob = Vec::new();
    varint_field(2, 10, &mut blob);
    bytes_field(3, b"zz", &mut blob);
    let reader = IndexedReader::new(frame("OSMData", &blob)).unwrap();
    let b = reader.read_blob_by_index(0).unwrap().unwrap();
    assert!(b.is_compressed());
    assert_eq!(b.raw_size(), 10);
    assert!(matches!(blob_block(&b), Err(BlobError::UnknownCompression(_))));
    let r = Reader::new(frame("OSMData", &blob)).unwrap();
    let (_, stats) = r.collect_filtered(&ElementFilter::all()).unwrap();
    assert_eq!(stats.errors_encountered, 1);
}

#[test]
fn out_of_range_reads() {
    let reader = IndexedReader::new(header_frame()).unwrap();
    assert!(matches!(reader.read_blob_by_index(5), Err(BlobError::OutOfRange(_))));
    assert!(matches!(reader.read_blob_at_offset(10_000), Err(BlobError::OutOfRange(_))));
    assert!(matches!(reader.raw_slice(0, 10_000), Err(BlobError::InvalidFormat(_))));
    assert_eq!(reader.raw_slice(0, 4).unwrap(), &header_frame()[0..4]);
}

#[test]
fn raw_blob_payload_is_copied_out() {
    let reader = IndexedReader::new(frame("OSMData", &raw_blob(b"hello"))).unwrap();
    let b = reader.read_blob_at_offset(0).unwrap().unwrap();
    match &b.data {
        BlobData::Raw(bytes) => assert_eq!(bytes.as_ref(), b"hello"),
        other => panic!("unexpected {:?}", other),
    }
    assert_eq!(b.blob_type(), &BlobType::OSMData);
    assert!(matches!(blob_block(&b), Err(BlobError::InvalidFormat(_))));
}

#[test]
fn blob_kind_names_are_read_from_the_header() {
    let reader = IndexedReader::new(frame("Custom", &raw_blob(b""))).unwrap();
    assert_eq!(reader.get_blob_index(0).unwrap().blob_type, BlobType::Unknown("Custom".to_string()));
    let bad = {
        let mut header = Vec::new();
        bytes_field(1, &[0xff, 0xfe], &mut header);
        varint_field(3, 0, &mut header);
        let mut out = (header.len() as u32).to_be_bytes().to_vec();
        out.extend_from_slice(&header);
        out
    };
    let reader = IndexedReader::new(bad).unwrap();
    assert_eq!(reader.blob_count(), 0);
    assert!(matches!(reader.warning(), Some(BlobError::InvalidFormat(_))));
}

#[test]
fn coordinates_follow_the_block_frame() {
    assert_eq!(coordinate(4_500_000, 100, 0).unwrap(), 450_000_000);
    assert_eq!(coordinate(450_000_000, 100, 500_000_000).unwrap(), 45_500_000_000);
    assert_eq!(coordinate(-3, 50, 7).unwrap(), -143);
    assert!(matches!(coordinate(i64::MAX, 2, 0), Err(BlobError::DecodeError(_))));
    assert_eq!(coordinate(i64::MAX / 2, 2, 1).unwrap(), i64::MAX);
}

#[test]
fn dense_nodes_decode_with_offsets_and_tags() {
    let dense = DenseNodes {
        id: vec![10, 1, 1],
        denseinfo: None,
        lat: vec![100, -50, 0],
        lon: vec![7, 0, 3],
        keys_vals: vec![1, 2, 0, 0, 2, 1, 0],
    };
    let f = CoordFrame { granularity: 10, lat_offset: 1000, lon_offset: -5 };
    let nodes = decode_dense(&dense, f, 3).unwrap();
    assert_eq!(nodes.iter().map(|n| n.id).collect::<Vec<_>>(), vec![10, 11, 12]);
    assert_eq!(nodes.iter().map(|n| n.lat).collect::<Vec<_>>(), vec![2000, 1500, 1500]);
    assert_eq!(nodes.iter().map(|n| n.lon).collect::<Vec<_>>(), vec![65, 65, 95]);
    assert_eq!(nodes[0].keys, vec![1]);
    assert_eq!(nodes[0].vals, vec![2]);
    assert!(nodes[1].keys.is_empty());
    assert_eq!(nodes[2].keys, vec![2]);
    let short = DenseNodes { lat: vec![1], ..dense.clone() };
    assert!(matches!(decode_dense(&short, f, 3), Err(BlobError::DecodeError(_))));
}

#[test]
fn groups_emit_dense_nodes_first() {
    let mut block = PrimitiveBlock::default();
    let mut group = PrimitiveGroup::default();
    group.nodes.push(Node::new(5, 1, 2));
    group.dense = Some(DenseNodes { id: vec![3], denseinfo: None, lat: vec![4], lon: vec![6], keys_vals: vec![0] });
    block.primitivegroup.push(group);
    let elements = decode_block(&block).unwrap();
    assert_eq!(elements.len(), 2);
    assert_eq!(node_of(&elements[0]).id, 3);
    assert_eq!(node_of(&elements[0]).lat, 400);
    assert_eq!(node_of(&elements[1]).id, 5);
    assert_eq!(node_of(&elements[1]).lon, 200);
}

#[test]
fn unsupported_required_feature() {
    let mut header = HeaderBlock::default();
    header.required_features.push("OsmSchema-V0.6".to_string());
    header.required_features.push("DenseNodes".to_string());
    assert!(header.check_required_features().is_ok());
    header.required_features.push("HistoricalInformation".to_string());
    assert_eq!(
        header.check_required_features(),
        Err(BlobError::UnsupportedFeature("HistoricalInformation".to_string()))
    );
}

#[test]
fn string_table_lookups_are_total() {
    let mut t = StringTable::new();
    t.add_string("a".to_string());
    for i in 0..t.len() {
        assert!(t.get_string(i).is_some());
    }
    assert_eq!(t.get_string(0), Some(""));
    assert_eq!(t.get_string(t.len()), None);
}

#[test]
fn blob_with_two_payloads_is_malformed() {
    let mut blob = Vec::new();
    bytes_field(1, b"raw", &mut blob);
    bytes_field(3, b"zlib", &mut blob);
    varint_field(2, 4, &mut blob);
    let reader = IndexedReader::new(frame("OSMData", &blob)).unwrap();
    assert!(matches!(reader.read_blob_by_index(0), Err(BlobError::InvalidFormat(_))));
}

#[test]
fn raw_blob_constructor_checks_size() {
    let b = Blob::new_raw(BlobType::OSMData, Bytes::from(vec![1u8, 2, 3]), 9).unwrap();
    assert_eq!(b.compressed_size(), 3);
    assert_eq!(b.offset(), 9);
}

fn header_message(features: &[&str]) -> Vec<u8> {
    let mut bbox = Vec::new();
    varint_field(1, zz(-1_000_000_000), &mut bbox);
    varint_field(2, zz(2_000_000_000), &mut bbox);
    varint_field(3, zz(500_000_000), &mut bbox);
    varint_field(4, zz(-500_000_000), &mut bbox);
    let mut hb = Vec::new();
    bytes_field(1, &bbox, &mut hb);
    for f in features {
        bytes_field(4, f.as_bytes(), &mut hb);
    }
    bytes_field(5, b"Has_Metadata", &mut hb);
    bytes_field(16, b"osmium", &mut hb);
    varint_field(32, 1_609_459_200, &mut hb);
    varint_field(33, 1234, &mut hb);
    bytes_field(34, b"https://example.com/replication/", &mut hb);
    hb
}

#[test]
fn header_block_fields_are_read() {
    let hb = header_message(&["OsmSchema-V0.6", "DenseNodes"]);
    let h = osm_pbf::blocks::block_codec::read_header_block(&hb, 0, hb.len()).unwrap();
    assert_eq!(h.required_features, vec!["OsmSchema-V0.6".to_string(), "DenseNodes".to_string()]);
    assert_eq!(h.optional_features, vec!["Has_Metadata".to_string()]);
    assert_eq!(h.writing_program, "osmium");
    assert_eq!(h.source, "");
    assert_eq!(h.osmosis_replication_timestamp.unwrap().as_secs(), 1_609_459_200);
    assert_eq!(h.osmosis_replication_sequence_number.unwrap().as_seq(), 1234);
    assert_eq!(h.osmosis_replication_base_url, Some("https://example.com/replication/"));
    let bbox = h.bbox.unwrap();
    assert_eq!((bbox.min_lon.0, bbox.max_lon.0, bbox.min_lat.0, bbox.max_lat.0), (-1_000_000_000, 2_000_000_000, -500_000_000, 500_000_000));
}

#[test]
fn header_scan_refuses_unknown_required_feature() {
    let good = frame("OSMHeader", &raw_blob(&header_message(&["OsmSchema-V0.6", "DenseNodes"])));
    assert!(IndexedReader::new(good).unwrap().check_header().is_ok());
    let bad = frame("OSMHeader", &raw_blob(&header_message(&["OsmSchema-V0.6", "HistoricalInformation"])));
    assert_eq!(
        IndexedReader::new(bad).unwrap().check_header(),
        Err(BlobError::UnsupportedFeature("HistoricalInformation".to_string()))
    );
    assert!(IndexedReader::new(Vec::new()).unwrap().check_header().is_ok());
}

#[test]
fn sparse_ways_and_relations_decode_from_wire() {
    let mut table = Vec::new();
    for s in ["", "highway", "primary", "outer"] {
        bytes_field(1, s.as_bytes(), &mut table);
    }
    let mut way = Vec::new();
    varint_field(1, 77, &mut way);
    packed(2, &[1], &mut way);
    packed(3, &[2], &mut way);
    packed(8, &deltas(&[100, 101, 99]), &mut way);
    let mut rel = Vec::new();
    varint_field(1, 88, &mut rel);
    packed(8, &[3, 3], &mut rel);
    packed(9, &deltas(&[77, 5]), &mut rel);
    packed(10, &[1, 0], &mut rel);
    let mut group = Vec::new();
    bytes_field(3, &way, &mut group);
    bytes_field(4, &rel, &mut group);
    let mut block = Vec::new();
    bytes_field(1, &table, &mut block);
    bytes_field(2, &group, &mut block);
    let reader = Reader::new(frame("OSMData", &raw_blob(&block))).unwrap();
    let (elements, stats) = reader.collect_filtered(&ElementFilter::all()).unwrap();
    assert_eq!(stats.ways_processed, 1);
    assert_eq!(stats.relations_processed, 1);
    match &elements[0] {
        OsmElement::Way(w) => {
            assert_eq!(w.id, 77);
            assert_eq!(w.refs, vec![100, 101, 99]);
            assert_eq!((w.keys.clone(), w.vals.clone()), (vec![1], vec![2]));
        },
        other => panic!("unexpected {:?}", other),
    }
    match &elements[1] {
        OsmElement::Relation(r) => {
            assert_eq!(r.id, 88);
            assert_eq!(r.memids, vec![77, 5]);
            assert_eq!(r.roles_sid, vec![3, 3]);
            assert_eq!(r.types, vec![osm_pbf::MemberType::Way, osm_pbf::MemberType::Node]);
        },
        other => panic!("unexpected {:?}", other),
    }
    let tagged = ElementFilter::all().with_tag("highway".to_string(), "primary".to_string());
    let (only_way, _) = reader.collect_filtered(&tagged).unwrap();
    assert_eq!(only_way.len(), 1);
}

#[test]
fn for_each_stops_at_the_first_error() {
    let ids: Vec<i64> = (1..=5).collect();
    let zeros = vec![0i64; 5];
    let reader = Reader::new(frame("OSMData", &raw_blob(&dense_block(&[""], &ids, &zeros, &zeros, &[])))).unwrap();
    let mut seen = Vec::new();
    let r = reader.for_each(|e| {
        let id = node_of(&e).id;
        seen.push(id);
        if id == 3 {
            Err(BlobError::InvalidFormat("stop".to_string()))
        } else {
            Ok(())
        }
    });
    assert!(r.is_err());
    assert_eq!(seen, vec![1, 2, 3]);
    let mut count = 0;
    reader.nodes(|_| {
        count += 1;
        Ok(())
    }).unwrap();
    assert_eq!(count, 5);
    assert_eq!(reader.count_elements().unwrap(), (5, 0, 0, 0));
}

#[test]
fn dense_metadata_is_expanded() {
    let mut info = Vec::new();
    packed(1, &[1, 1], &mut info);
    packed(2, &deltas(&[1000, 1500]), &mut info);
    packed(3, &deltas(&[7, 7]), &mut info);
    packed(4, &deltas(&[3, 4]), &mut info);
    packed(5, &deltas(&[1, 1]), &mut info);
    let mut dense = Vec::new();
    packed(1, &deltas(&[1, 2]), &mut dense);
    bytes_field(5, &info, &mut dense);
    packed(8, &deltas(&[0, 0]), &mut dense);
    packed(9, &deltas(&[0, 0]), &mut dense);
    packed(10, &[0, 0], &mut dense);
    let mut group = Vec::new();
    bytes_field(2, &dense, &mut group);
    let mut table = Vec::new();
    bytes_field(1, b"", &mut table);
    bytes_field(1, b"alice", &mut table);
    let mut block = Vec::new();
    bytes_field(1, &table, &mut block);
    bytes_field(2, &group, &mut block);
    let reader = Reader::new(frame("OSMData", &raw_blob(&block))).unwrap();
    let (elements, _) = reader.collect_filtered(&ElementFilter::all()).unwrap();
    let second = node_of(&elements[1]).info.unwrap();
    assert_eq!(second.version, 2);
    assert_eq!(second.timestamp, 1500);
    assert_eq!(second.changeset, 7);
    assert_eq!(second.uid, 4);
    assert_eq!(second.user_sid, 1);
    assert!(second.visible);
}

#[test]
fn borrowed_bytes_iterate_like_the_owned_reader() {
    let mut file = header_frame();
    file.extend(frame("OSMData", &raw_blob(&dense_block(&[""], &[4, 5], &[0, 0], &[0, 0], &[]))));
    file.extend(frame("Custom", &raw_blob(b"x")));
    let index = osm_pbf::FileIndex::build(&file);
    let filter = ElementFilter::all();
    let mut it = osm_pbf::io::indexed_reader::IndexFilteredIterator::new(&file, &index, &filter);
    let first = it.next().unwrap().unwrap();
    assert_eq!(first.blob_type(), &BlobType::OSMHeader);
    let second = it.next().unwrap().unwrap();
    assert_eq!(second.blob_type(), &BlobType::OSMData);
    assert!(it.next().is_none());
    let (elements, stats) = osm_pbf::io::reader::collect_filtered_in(&file, &index, &filter).unwrap();
    assert_eq!(elements.iter().map(|e| node_of(e).id).collect::<Vec<_>>(), vec![4, 5]);
    assert_eq!(stats.nodes_processed, 2);
    assert_eq!(osm_pbf::io::indexed_reader::raw_slice_in(&file, 0, 4).unwrap(), &file[0..4]);
    assert!(osm_pbf::io::indexed_reader::raw_slice_in(&file, file.len(), 1).is_err());
}

#[test]
fn ways_processor_sees_only_ways() {
    let reader = Reader::new(frame("OSMData", &raw_blob(&dense_block(&[""], &[1], &[0], &[0], &[])))).unwrap();
    let mut calls = 0;
    let r = reader.ways(false, |_| {
        calls += 1;
        Ok(())
    });
    assert!(r.is_ok());
    assert_eq!(calls, 0);
    let r = reader.nodes(|_| Err(BlobError::InvalidFormat("no".to_string())));
    assert_eq!(r.unwrap_err(), BlobError::InvalidFormat("no".to_string()));
}

#[test]
fn for_each_on_an_empty_file_calls_nothing() {
    let reader = Reader::new(Vec::new()).unwrap();
    let mut calls = 0;
    let stats = reader
        .for_each(|_| {
            calls += 1;
            Err(BlobError::InvalidFormat("never".to_string()))
        })
        .unwrap();
    assert_eq!(calls, 0);
    assert_eq!(stats, osm_pbf::ProcessingStats::default());
}

#[test]
fn blob_header_index_data_is_kept() {
    let blob = raw_blob(b"abc");
    let mut header = Vec::new();
    bytes_field(1, b"OSMData", &mut header);
    bytes_field(2, b"idx", &mut header);
    varint_field(3, blob.len() as u64, &mut header);
    let mut file = (header.len() as u32).to_be_bytes().to_vec();
    file.extend_from_slice(&header);
    file.extend_from_slice(&blob);
    let reader = IndexedReader::new(file).unwrap();
    let b = reader.read_blob_by_index(0).unwrap().unwrap();
    assert_eq!(b.header.indexdata.unwrap().as_ref(), b"idx");
}
