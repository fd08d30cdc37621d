use osm_pbf::blocks::nano_degree::NanoDegree;
use std::collections::HashSet;

#[test]
fn test_nano_degree_creation() {
    let nd = NanoDegree::new(900_000_000); // 90 degrees
    assert_eq!(nd.0, 900_000_000);
    assert_eq!(nd.raw(), 900_000_000);
}

#[test]
fn test_is_valid_latitude() {
    let valid_lat = NanoDegree::new(900_000_000); // 90 degrees
    assert!(valid_lat.is_valid_latitude());
    
    let valid_lat = NanoDegree::new(-900_000_000); // -90 degrees
    assert!(valid_lat.is_valid_latitude());
    
    let invalid_lat = NanoDegree::new(1_000_000_000); // 100 degrees
    assert!(!invalid_lat.is_valid_latitude());
}

#[test]
fn test_is_valid_longitude() {
    let valid_lon = NanoDegree::new(1_800_000_000); // 180 degrees
    assert!(valid_lon.is_valid_longitude());
    
    let valid_lon = NanoDegree::new(-1_800_000_000); // -180 degrees
    assert!(valid_lon.is_valid_longitude());
    
    let valid_lon = NanoDegree::new(0); // 0 degrees
    assert!(valid_lon.is_valid_longitude());
}

#[test]
fn test_equality_and_hashing() {
    
    let nd1 = NanoDegree::new(123_456_789);
    let nd2 = NanoDegree::new(123_456_789);
    let nd3 = NanoDegree::new(987_654_321);
    
    assert_eq!(nd1, nd2);
    assert_ne!(nd1, nd3);
    
    let mut set = HashSet::new();
    set.insert(nd1);
    set.insert(nd2); // Should not add duplicate
    set.insert(nd3);
    
    assert_eq!(set.len(), 2);
}
