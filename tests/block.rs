use osm_pbf::blocks::primitives::{PrimitiveBlock, PrimitiveGroup};
use osm_pbf::blocks::string_table::StringTable;
use std::time::Instant;

#[test]
fn test_primitive_block_default() {
    let block = PrimitiveBlock::default();
    
    assert_eq!(block.granularity, PrimitiveBlock::DEFAULT_GRANULARITY);
    assert_eq!(block.date_granularity, PrimitiveBlock::DEFAULT_DATE_GRANULARITY);
    assert_eq!(block.lat_offset, 0);
    assert_eq!(block.lon_offset, 0);
    assert!(block.primitivegroup.is_empty());
    assert!(block.stringtable.is_empty());
}

#[test]
fn test_default_values() {
    assert_eq!(PrimitiveBlock::default_granularity(), 100);
    assert_eq!(PrimitiveBlock::default_date_granularity(), 1000);
    assert_eq!(PrimitiveBlock::DEFAULT_GRANULARITY, 100);
    assert_eq!(PrimitiveBlock::DEFAULT_DATE_GRANULARITY, 1000);
}

#[test]
fn test_primitive_block_creation() {
    let mut block = PrimitiveBlock::default();
    
    // Modify some values
    block.granularity = 50;
    block.date_granularity = 500;
    block.lat_offset = 1000000;
    block.lon_offset = -2000000;
    
    assert_eq!(block.granularity, 50);
    assert_eq!(block.date_granularity, 500);
    assert_eq!(block.lat_offset, 1000000);
    assert_eq!(block.lon_offset, -2000000);
}

#[test]
fn test_primitive_block_with_string_table() {
    let mut block = PrimitiveBlock::default();
    
    // Add some strings to the string table
    let highway_idx = block.stringtable.add_string("highway".to_string());
    let primary_idx = block.stringtable.add_string("primary".to_string());
    
    assert_eq!(highway_idx, 1);
    assert_eq!(primary_idx, 2);
    assert_eq!(block.stringtable.get_string(highway_idx), Some("highway"));
    assert_eq!(block.stringtable.get_string(primary_idx), Some("primary"));
}

#[test]
fn block_test_clone_and_equality() {
    let mut block1 = PrimitiveBlock::default();
    block1.granularity = 150;
    block1.stringtable.add_string("test".to_string());
    
    let block2 = block1.clone();
    assert_eq!(block1, block2);
    
    let mut block3 = PrimitiveBlock::default();
    block3.granularity = 200;
    assert_ne!(block1, block3);
}

#[test]
fn test_performance_coordinate_calculations() {
    
    let block = PrimitiveBlock {
        stringtable: StringTable::default(),
        primitivegroup: Vec::new(),
        granularity: 100,
        lat_offset: 0,
        lon_offset: 0,
        date_granularity: 1000,
    };
    
    let start = Instant::now();
    let mut sum = 0i64;
    
    // Simulate coordinate transformations for 100k points
    for i in 0..100_000 {
        let raw_coord = i * 1000;
        let actual_coord = (raw_coord as i64) * (block.granularity as i64) + block.lat_offset;
        sum += actual_coord;
    }
    
    let duration = start.elapsed();
    assert!(duration.as_millis() < 50); // Should be very fast
    assert!(sum > 0); // Ensure calculation happened
}

#[test]
fn test_large_primitive_groups() {
    let mut block = PrimitiveBlock::default();
    
    // Reserve space for many primitive groups
    block.primitivegroup.reserve(1000);
    
    // Add primitive groups (empty for this test)
    for _ in 0..1000 {
        block.primitivegroup.push(PrimitiveGroup::default());
    }
    
    assert_eq!(block.primitivegroup.len(), 1000);
    assert!(block.primitivegroup.capacity() >= 1000);
}

#[test]
fn test_extreme_offset_values() {
    let block = PrimitiveBlock {
        stringtable: StringTable::default(),
        primitivegroup: Vec::new(),
        granularity: 1,
        lat_offset: i64::MAX / 2,
        lon_offset: i64::MIN / 2,
        date_granularity: 1,
    };
    
    // Test that extreme values don't cause overflow in typical operations
    assert_eq!(block.lat_offset, i64::MAX / 2);
    assert_eq!(block.lon_offset, i64::MIN / 2);
}

#[test]
fn test_granularity_edge_cases() {
    // Test minimum granularity
    let mut block = PrimitiveBlock::default();
    block.granularity = 1;
    assert_eq!(block.granularity, 1);
    
    // Test typical high-precision granularity
    block.granularity = 1000;
    assert_eq!(block.granularity, 1000);
    
    // Test date granularity edge cases
    block.date_granularity = 1; // 1ms precision
    assert_eq!(block.date_granularity, 1);
    
    block.date_granularity = 60000; // 1 minute precision
    assert_eq!(block.date_granularity, 60000);
}

#[test]
fn test_memory_layout() {
    let block = PrimitiveBlock::default();
    
    // Verify the structure has the expected size characteristics
    assert!(std::mem::size_of::<PrimitiveBlock>() > 0);
    assert!(std::mem::align_of::<PrimitiveBlock>() > 0);
    
    // The block should have predictable memory layout
    let size = std::mem::size_of::<PrimitiveBlock>();
    assert!(size > std::mem::size_of::<StringTable>());
}
