use osm_pbf::blocks::string_table::StringTable;
use std::collections::HashMap;
use std::time::Instant;

#[test]
fn test_new_string_table() {
    let st = StringTable::new();
    assert_eq!(st.len(), 1);
    assert_eq!(st.get_string(0), Some(""));
    assert!(st.is_empty());
}

#[test]
fn test_default_string_table() {
    let st = StringTable::default();
    assert_eq!(st.len(), 1);
    assert_eq!(st.get_string(0), Some(""));
    assert!(st.is_empty());
}

#[test]
fn test_add_and_get_string() {
    let mut st = StringTable::new();
    let index = st.add_string("test".to_string());
    assert_eq!(index, 1);
    assert_eq!(st.get_string(1), Some("test"));
    assert_eq!(st.len(), 2);
    assert!(!st.is_empty());
}

#[test]
fn test_get_string_or_empty() {
    let mut st = StringTable::new();
    st.add_string("test".to_string());
    
    assert_eq!(st.get_string_or_empty(0), "");
    assert_eq!(st.get_string_or_empty(1), "test");
    assert_eq!(st.get_string_or_empty(999), "");
}

#[test]
fn test_multiple_strings() {
    let mut st = StringTable::new();
    
    let idx1 = st.add_string("highway".to_string());
    let idx2 = st.add_string("primary".to_string());
    let idx3 = st.add_string("name".to_string());
    let idx4 = st.add_string("Main Street".to_string());
    
    assert_eq!(idx1, 1);
    assert_eq!(idx2, 2);
    assert_eq!(idx3, 3);
    assert_eq!(idx4, 4);
    
    assert_eq!(st.get_string(1), Some("highway"));
    assert_eq!(st.get_string(2), Some("primary"));
    assert_eq!(st.get_string(3), Some("name"));
    assert_eq!(st.get_string(4), Some("Main Street"));
    
    assert_eq!(st.len(), 5);
}

#[test]
fn test_unicode_strings() {
    let mut st = StringTable::new();
    
    let unicode_strings = vec![
        "√ëo√±o".to_string(),
        "ÊµãËØï".to_string(),
        "üè†üõ£Ô∏è".to_string(),
        "–ú–æ—Å–∫–≤–∞".to_string(),
        "üá∫üá∏".to_string(),
    ];
    
    let mut indices = Vec::new();
    for s in &unicode_strings {
        indices.push(st.add_string(s.clone()));
    }
    
    for (i, expected) in unicode_strings.iter().enumerate() {
        assert_eq!(st.get_string(indices[i]), Some(expected.as_str()));
    }
}

#[test]
fn test_empty_and_whitespace_strings() {
    let mut st = StringTable::new();
    
    let idx1 = st.add_string("".to_string());
    let idx2 = st.add_string(" ".to_string());
    let idx3 = st.add_string("\t".to_string());
    let idx4 = st.add_string("\n".to_string());
    let idx5 = st.add_string("   spaces   ".to_string());
    
    assert_eq!(st.get_string(idx1), Some(""));
    assert_eq!(st.get_string(idx2), Some(" "));
    assert_eq!(st.get_string(idx3), Some("\t"));
    assert_eq!(st.get_string(idx4), Some("\n"));
    assert_eq!(st.get_string(idx5), Some("   spaces   "));
}

#[test]
fn test_very_long_strings() {
    let mut st = StringTable::new();
    
    let long_string = "a".repeat(10000);
    let idx = st.add_string(long_string.clone());
    
    assert_eq!(st.get_string(idx), Some(long_string.as_str()));
}

#[test]
fn test_out_of_bounds_access() {
    let mut st = StringTable::new();
    st.add_string("test".to_string());
    
    assert_eq!(st.get_string(999), None);
    assert_eq!(st.get_string_or_empty(999), "");
}

#[test]
fn string_table_test_clone_and_equality() {
    let mut st1 = StringTable::new();
    st1.add_string("test".to_string());
    
    let st2 = st1.clone();
    assert_eq!(st1, st2);
    
    let mut st3 = StringTable::new();
    st3.add_string("different".to_string());
    assert_ne!(st1, st3);
}

#[test]
fn test_performance_large_string_table() {
    
    let start = Instant::now();
    let mut st = StringTable::new();
    
    // Add 10,000 strings
    for i in 0..10_000 {
        st.add_string(format!("string_{}", i));
    }
    
    let duration = start.elapsed();
    assert!(duration.as_millis() < 100); // Should be fast
    assert_eq!(st.len(), 10_001); // +1 for empty string at index 0
    
    // Test random access performance
    let access_start = Instant::now();
    for i in 1..=10_000 {
        let s = st.get_string(i).unwrap();
        assert!(s.starts_with("string_"));
    }
    let access_duration = access_start.elapsed();
    assert!(access_duration.as_millis() < 50); // Random access should be very fast
}

#[test]
fn test_performance_string_deduplication_simulation() {
    
    // Simulate common OSM tag deduplication scenario
    let common_keys = vec!["highway", "name", "surface", "maxspeed", "oneway"];
    let common_values = vec!["primary", "secondary", "residential", "footway", "yes", "no"];
    
    let start = Instant::now();
    let mut st = StringTable::new();
    let mut key_indices = HashMap::new();
    let mut value_indices = HashMap::new();
    
    // Add common keys and values
    for key in &common_keys {
        let idx = st.add_string(key.to_string());
        key_indices.insert(key.to_string(), idx);
    }
    
    for value in &common_values {
        let idx = st.add_string(value.to_string());
        value_indices.insert(value.to_string(), idx);
    }
    
    let duration = start.elapsed();
    assert!(duration.as_micros() < 1000); // Should be very fast
    
    // Verify all keys and values are accessible
    for key in &common_keys {
        let idx = key_indices[*key];
        assert_eq!(st.get_string(idx), Some(*key));
    }
    
    for value in &common_values {
        let idx = value_indices[*value];
        assert_eq!(st.get_string(idx), Some(*value));
    }
}

#[test]
fn test_memory_efficiency_indicators() {
    let mut st = StringTable::new();
    
    // Add some strings
    let strings = vec![
        "highway", "primary", "name", "Main Street",
        "surface", "asphalt", "maxspeed", "50",
    ];
    
    for s in strings {
        st.add_string(s.to_string());
    }
    
    // The string table should maintain proper indexing
    assert_eq!(st.len(), 9); // 8 strings + 1 empty at index 0
    
    // All strings should be accessible by their index
    for i in 0..st.len() {
        assert!(st.get_string(i).is_some());
    }
}

#[test]
fn test_edge_case_index_zero() {
    let st = StringTable::new();
    
    // Index 0 should always be empty string
    assert_eq!(st.get_string(0), Some(""));
    assert_eq!(st.get_string_or_empty(0), "");
    
    // Even after adding strings, index 0 should remain empty
    let mut st = StringTable::new();
    st.add_string("test".to_string());
    assert_eq!(st.get_string(0), Some(""));
}

#[test]
fn test_string_table_capacity_growth() {
    let mut st = StringTable::new();
    let initial_capacity = st.s.capacity();
    
    // Add strings until capacity grows
    for i in 0..100 {
        st.add_string(format!("string_{}", i));
    }
    
    assert!(st.s.capacity() >= initial_capacity);
    assert_eq!(st.len(), 101); // 100 strings + 1 empty
}
