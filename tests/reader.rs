use osm_pbf::blocks::primitives::Node;
use osm_pbf::io::reader::{OsmElement, ParallelConfig, ProcessingStats, Reader};

#[test]
fn test_reader_creation() {
    let empty_data = Vec::new();
    let reader = Reader::new(empty_data);
    assert!(reader.is_ok());
}

#[test]
fn test_parallel_config() {
    let config = ParallelConfig::default();
    assert!(config.num_threads.is_none());
    assert_eq!(config.chunk_size, 100);
    assert!(!config.preserve_order);
}

#[test]
fn test_processing_stats() {
    let stats = ProcessingStats::default();
    assert_eq!(stats.blobs_processed, 0);
    assert_eq!(stats.elements_processed, 0);
}

#[test]
fn test_osm_element_types() {
    let node = Node {
        id: 1,
        keys: vec![],
        vals: vec![],
        info: None,
        lat: 0,
        lon: 0,
    };
    
    let element = OsmElement::Node(node);
    assert!(matches!(element, OsmElement::Node(_)));
}
