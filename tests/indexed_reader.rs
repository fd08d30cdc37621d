use osm_pbf::io::indexed_reader::{ElementCounts, ElementFilter, IndexedReader};

#[test]
fn test_element_filter_creation() {
    let filter = ElementFilter::nodes_only();
    assert!(filter.include_nodes);
    assert!(!filter.include_ways);
    assert!(!filter.include_relations);
    
    let filter = ElementFilter::ways_only(true);
    assert!(filter.include_nodes); // Dependencies resolved
    assert!(filter.include_ways);
    assert!(!filter.include_relations);
    assert!(filter.resolve_dependencies);
}

#[test]
fn test_element_filter_with_tags() {
    let filter = ElementFilter::all()
        .with_tag_key("highway".to_string())
        .with_tag("name".to_string(), "Main Street".to_string());
    
    assert_eq!(filter.tag_filters.get("highway"), Some(&None));
    assert_eq!(filter.tag_filters.get("name"), Some(&Some("Main Street".to_string())));
}

#[test]
fn test_indexed_reader_empty() {
    let empty_data = Vec::new();
    let reader = IndexedReader::new(empty_data).unwrap();
    
    assert_eq!(reader.blob_count(), 0);
    assert!(reader.header_blob().is_none());
}

#[test]
fn test_element_counts() {
    let counts = ElementCounts {
        nodes: 100,
        ways: 50,
        relations: 10,
        changesets: 5,
    };
    
    assert_eq!(counts.nodes, 100);
    assert_eq!(counts.ways, 50);
}
