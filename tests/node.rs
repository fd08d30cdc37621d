use osm_pbf::blocks::primitives::Node;
use std::time::Instant;

#[test]
fn test_node_creation() {
    let node = Node::new(123, 450_000_000, 90_000_000); // 45°N, 9°E
    
    assert_eq!(node.id, 123);
    assert_eq!(node.lat, 450_000_000);
    assert_eq!(node.lon, 90_000_000);
    assert!(node.keys.is_empty());
    assert!(node.vals.is_empty());
    assert!(node.info.is_none());
    assert!(!node.has_tags());
}

#[test]
fn test_add_tags() {
    let mut node = Node::new(1, 0, 0);
    
    node.add_tag(1, 2); // highway -> primary
    node.add_tag(3, 4); // name -> "Main Street"
    
    assert_eq!(node.tag_count(), 2);
    assert!(node.has_tags());
    assert_eq!(node.get_tag(0), Some((1, 2)));
    assert_eq!(node.get_tag(1), Some((3, 4)));
    assert_eq!(node.get_tag(2), None);
}

#[test]
fn test_clear_tags() {
    let mut node = Node::new(1, 0, 0);
    node.add_tag(1, 2);
    node.add_tag(3, 4);
    
    assert!(node.has_tags());
    node.clear_tags();
    assert!(!node.has_tags());
    assert_eq!(node.tag_count(), 0);
}

#[test]
fn node_test_clone_and_equality() {
    let mut node1 = Node::new(1, 100, 200);
    node1.add_tag(1, 2);
    
    let node2 = node1.clone();
    assert_eq!(node1, node2);
    
    let node3 = Node::new(2, 100, 200);
    assert_ne!(node1, node3);
}

#[test]
fn test_performance_tag_operations() {
    
    let start = Instant::now();
    let mut node = Node::new(1, 0, 0);
    
    // Add 1000 tags
    for i in 0..1000 {
        node.add_tag(i as u32, (i + 1000) as u32);
    }
    
    let duration = start.elapsed();
    assert!(duration.as_millis() < 10); // Should be very fast
    assert_eq!(node.tag_count(), 1000);
    
    // Test tag access performance
    let access_start = Instant::now();
    for i in 0..1000 {
        let tag = node.get_tag(i).unwrap();
        assert_eq!(tag.0, i as u32);
        assert_eq!(tag.1, (i + 1000) as u32);
    }
    let access_duration = access_start.elapsed();
    assert!(access_duration.as_millis() < 5);
}

#[test]
fn test_empty_tag_arrays() {
    let node = Node::new(1, 0, 0);
    
    assert_eq!(node.keys.len(), 0);
    assert_eq!(node.vals.len(), 0);
    assert_eq!(node.tag_count(), 0);
    assert!(!node.has_tags());
}

#[test]
fn test_large_node_ids() {
    let large_id = i64::MAX;
    let node = Node::new(large_id, 0, 0);
    assert_eq!(node.id, large_id);
    
    let negative_id = i64::MIN;
    let node_neg = Node::new(negative_id, 0, 0);
    assert_eq!(node_neg.id, negative_id);
}

#[test]
fn test_memory_efficiency() {
    let node = Node::new(1, 0, 0);
    
    // Check that empty vectors don't waste too much space
    assert_eq!(node.keys.len(), 0);
    assert_eq!(node.vals.len(), 0);
    
    // The struct should be reasonably sized
    let size = std::mem::size_of::<Node>();
    assert!(size > 0);
    assert!(size < 1024); // Should be reasonably compact
}
