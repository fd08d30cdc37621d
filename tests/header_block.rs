use osm_pbf::blocks::header_block::{HeaderBBox, HeaderBlock, OsmosisReplicationTimestamp, OsmosisSequenceNumber};
use osm_pbf::blocks::nano_degree::NanoDegree;
use std::mem;
use std::time::Instant;

#[test]
fn construct_header_bbox() {
    let bbox = HeaderBBox {
        min_lon: NanoDegree(0),
        max_lon: NanoDegree(100),
        min_lat: NanoDegree(-50),
        max_lat: NanoDegree(50),
    };
    assert_eq!(bbox.min_lon, NanoDegree(0));
    assert_eq!(bbox.max_lon, NanoDegree(100));
    assert_eq!(bbox.min_lat, NanoDegree(-50));
    assert_eq!(bbox.max_lat, NanoDegree(50));
}

#[test]
fn test_osmosis_replication_timestamp_creation() {
    // Valid timestamps
    assert!(OsmosisReplicationTimestamp::new(0).is_some());
    assert!(OsmosisReplicationTimestamp::new(1609459200).is_some()); // 2021-01-01
    assert!(OsmosisReplicationTimestamp::new(i64::MAX).is_some());
    
    // Invalid timestamps
    assert!(OsmosisReplicationTimestamp::new(-1).is_none());
    assert!(OsmosisReplicationTimestamp::new(-1000).is_none());
}

#[test]
fn test_osmosis_replication_timestamp_as_secs() {
    let timestamp = OsmosisReplicationTimestamp::new(1609459200).unwrap();
    assert_eq!(timestamp.as_secs(), 1609459200);
}

#[test]
fn test_osmosis_sequence_number_creation() {
    // Valid sequence numbers
    assert!(OsmosisSequenceNumber::new(0).is_some());
    assert!(OsmosisSequenceNumber::new(12345).is_some());
    assert!(OsmosisSequenceNumber::new(i64::MAX).is_some());
    
    // Invalid sequence numbers
    assert!(OsmosisSequenceNumber::new(-1).is_none());
    assert!(OsmosisSequenceNumber::new(-1000).is_none());
}

#[test]
fn test_osmosis_sequence_number_as_seq() {
    let seq = OsmosisSequenceNumber::new(98765).unwrap();
    assert_eq!(seq.as_seq(), 98765);
}

#[test]
fn test_header_block_default() {
    let header = HeaderBlock::default();
    assert!(header.required_features.is_empty());
    assert!(header.optional_features.is_empty());
    assert_eq!(header.writing_program, "");
    assert_eq!(header.source, "");
    assert!(header.osmosis_replication_timestamp.is_none());
    assert!(header.osmosis_replication_sequence_number.is_none());
    assert!(header.osmosis_replication_base_url.is_none());
}

#[test]
fn test_header_block_with_features() {
    let mut header = HeaderBlock::default();
    header.required_features.push("OsmSchema-V0.6".into());
    header.optional_features.push("DenseNodes".into());
    header.writing_program = "osm2pbf";
    header.source = "OpenStreetMap contributors";

    assert_eq!(header.required_features.len(), 1);
    assert_eq!(header.optional_features.len(), 1);
    assert_eq!(header.writing_program, "osm2pbf");
    assert_eq!(header.source, "OpenStreetMap contributors");
}

#[test]
fn test_header_block_with_replication_info() {
    let mut header = HeaderBlock::default();
    header.osmosis_replication_timestamp = OsmosisReplicationTimestamp::new(1609459200);
    header.osmosis_replication_sequence_number = OsmosisSequenceNumber::new(1234);
    header.osmosis_replication_base_url = Some("https://planet.openstreetmap.org/replication/minute/");

    assert!(header.osmosis_replication_timestamp.is_some());
    assert!(header.osmosis_replication_sequence_number.is_some());
    assert!(header.osmosis_replication_base_url.is_some());
    
    assert_eq!(header.osmosis_replication_timestamp.unwrap().as_secs(), 1609459200);
    assert_eq!(header.osmosis_replication_sequence_number.unwrap().as_seq(), 1234);
    assert_eq!(header.osmosis_replication_base_url.unwrap(), "https://planet.openstreetmap.org/replication/minute/");
}

#[test]
fn test_performance_memory_layout_optimization() {
    
    /// Performance test: Ensure optimal memory layout
    let header_size = mem::size_of::<HeaderBlock>();
    let bbox_size = mem::size_of::<HeaderBBox>();
    let timestamp_size = mem::size_of::<OsmosisReplicationTimestamp>();
    let sequence_size = mem::size_of::<OsmosisSequenceNumber>();
    
    // Memory efficiency assertions
    assert!(header_size <= 200, "HeaderBlock size is {} bytes, should be ≤ 200", header_size);
    assert!(bbox_size <= 32, "HeaderBBox size is {} bytes, should be ≤ 32", bbox_size);
    assert_eq!(timestamp_size, 8, "OsmosisReplicationTimestamp should be exactly 8 bytes");
    assert_eq!(sequence_size, 8, "OsmosisSequenceNumber should be exactly 8 bytes");
    
    /// Performance test: Memory alignment
    assert_eq!(mem::align_of::<HeaderBBox>(), 8, "HeaderBBox should be 8-byte aligned");
    assert_eq!(mem::align_of::<OsmosisReplicationTimestamp>(), 8, "Timestamp should be 8-byte aligned");
    assert_eq!(mem::align_of::<OsmosisSequenceNumber>(), 8, "Sequence number should be 8-byte aligned");
}

#[test]
fn test_osmosis_timestamp_edge_cases() {
    // Test boundary values
    assert!(OsmosisReplicationTimestamp::new(0).is_some());
    assert!(OsmosisReplicationTimestamp::new(i64::MAX).is_some());
    assert!(OsmosisReplicationTimestamp::new(-1).is_none());
    
    // Test Unix epoch boundaries
    let epoch = OsmosisReplicationTimestamp::new(0).unwrap();
    assert_eq!(epoch.as_secs(), 0);
    
    // Test year 2038 problem boundary (32-bit signed int)
    let y2038 = OsmosisReplicationTimestamp::new(2147483647).unwrap();
    assert_eq!(y2038.as_secs(), 2147483647);
}

#[test]
fn test_sequence_number_edge_cases() {
    // Test boundary values
    assert!(OsmosisSequenceNumber::new(0).is_some());
    assert!(OsmosisSequenceNumber::new(i64::MAX).is_some());
    assert!(OsmosisSequenceNumber::new(-1).is_none());
    
    // Test typical replication sequence ranges
    let seq_low = OsmosisSequenceNumber::new(1).unwrap();
    assert_eq!(seq_low.as_seq(), 1);
    
    let seq_high = OsmosisSequenceNumber::new(999999999).unwrap();
    assert_eq!(seq_high.as_seq(), 999999999);
}

#[test]
fn test_performance_header_block_creation() {
    
    let start = Instant::now();
    let mut headers = Vec::with_capacity(100_000);
    
    /// Performance target: Create 100k headers in under 50ms
    for i in 0..100_000 {
        let mut header = HeaderBlock::default();
        header.required_features.push(format!("Feature-{}", i).into());
        header.osmosis_replication_sequence_number = OsmosisSequenceNumber::new(i as i64);
        headers.push(header);
    }
    
    let duration = start.elapsed();
    assert!(duration.as_millis() < 50, "Creating 100k headers took {:?}, expected < 50ms", duration);
    assert_eq!(headers.len(), 100_000);
    
    /// Performance target: Memory usage optimization
    let memory_per_header = std::mem::size_of::<HeaderBlock>();
    assert!(memory_per_header < 200, "HeaderBlock size is {} bytes, should be < 200", memory_per_header);
}

#[test]
fn test_performance_timestamp_validation() {
    
    /// Performance test: Timestamp validation should be extremely fast
    let timestamps = (0..1_000_000i64).collect::<Vec<_>>();
    
    let start = Instant::now();
    let valid_timestamps: Vec<_> = timestamps
        .iter()
        .filter_map(|&ts| OsmosisReplicationTimestamp::new(ts))
        .collect();
    let duration = start.elapsed();
    
    assert!(duration.as_millis() < 30, "Validating 1M timestamps took {:?}, expected < 30ms", duration);
    assert_eq!(valid_timestamps.len(), 1_000_000);
    
    /// Performance test: Invalid timestamp rejection
    let invalid_start = Instant::now();
    let invalid_timestamps: Vec<_> = (-1_000_000..0i64)
        .filter_map(|ts| OsmosisReplicationTimestamp::new(ts))
        .collect();
    let invalid_duration = invalid_start.elapsed();
    
    assert!(invalid_duration.as_millis() < 20, "Rejecting 1M invalid timestamps took {:?}, expected < 20ms", invalid_duration);
    assert_eq!(invalid_timestamps.len(), 0);
}

#[test]
fn test_performance_sequence_number_validation() {
    
    /// Performance test: Sequence number validation with large ranges
    let start = Instant::now();
    let mut valid_count = 0;
    let mut invalid_count = 0;
    
    for i in -500_000..500_000i64 {
        match OsmosisSequenceNumber::new(i) {
            Some(_) => valid_count += 1,
            None => invalid_count += 1,
        }
    }
    
    let duration = start.elapsed();
    assert!(duration.as_millis() < 50, "Validating 1M sequence numbers took {:?}, expected < 50ms", duration);
    assert_eq!(valid_count, 500_000);
    assert_eq!(invalid_count, 500_000);
}

#[test]
fn test_performance_batch_operations() {
    
    /// Performance test: Batch processing of headers for planet-scale data
    let start = Instant::now();
    let batch_size = 100_000;
    let mut total_features = 0;
    
    for batch in 0..10 {
        let mut headers = Vec::with_capacity(batch_size);
        
        for i in 0..batch_size {
            let mut header = HeaderBlock::default();
            header.required_features.push(format!("Batch-{}-Feature-{}", batch, i).into());
            
            if i % 1000 == 0 {
                header.osmosis_replication_timestamp = OsmosisReplicationTimestamp::new(i as i64);
            }
            
            total_features += header.required_features.len();
            headers.push(header);
        }
    }
    
    let duration = start.elapsed();
    assert!(duration.as_millis() < 500, "Processing 1M headers in batches took {:?}, expected < 500ms", duration);
    assert_eq!(total_features, 1_000_000);
}
