use osm_pbf::blocks::header_block::{HeaderBlock, OsmosisReplicationTimestamp, OsmosisSequenceNumber};
use std::time::Instant;

#[test]
fn memory_efficient_header_processing() {
/// Given: Resource-constrained deployment requirements
let batch_size = 100_000;
let max_memory_overhead_percent = 20.0;

/// When: Processing headers with diverse feature combinations
let processing_start = Instant::now();
let mut total_memory_used = 0;

for batch in 0..10 {
    let headers: Vec<HeaderBlock> = (0..batch_size)
        .map(|i| {
            let mut header = HeaderBlock::default();
            
            // Simulate real-world feature distribution
            match i % 4 {
                0 => {
                    header.required_features = vec!["OsmSchema-V0.6".into()];
                    header.writing_program = "osmosis";
                }
                1 => {
                    header.required_features = vec!["OsmSchema-V0.6".into(), "DenseNodes".into()];
                    header.optional_features = vec!["HistoricalInformation".into()];
                    header.writing_program = "osm2pgsql";
                }
                2 => {
                    header.required_features = vec!["OsmSchema-V0.6".into(), "Ways".into(), "Relations".into()];
                    header.source = "Regional Extract";
                    header.osmosis_replication_timestamp = OsmosisReplicationTimestamp::new(batch as i64 * 1000 + i as i64);
                }
                _ => {
                    header.required_features = vec!["OsmSchema-V0.6".into(), "DenseNodes".into(), "Ways".into(), "Relations".into()];
                    header.optional_features = vec!["HistoricalInformation".into(), "LocationsOnWays".into()];
                    header.osmosis_replication_sequence_number = OsmosisSequenceNumber::new(i as i64);
                    header.osmosis_replication_base_url = Some("https://example.com/replication/");
                }
            }
            
            header
        })
        .collect();
    
    total_memory_used += headers.len() * std::mem::size_of::<HeaderBlock>();
    
    // Simulate processing work to prevent optimization
    let _feature_count: usize = headers.iter()
        .map(|h| h.required_features.len() + h.optional_features.len())
        .sum();
}

let processing_duration = processing_start.elapsed();

/// Then: Memory usage should be predictable and efficient
let theoretical_memory = 10 * batch_size * std::mem::size_of::<HeaderBlock>();
let overhead_percent = ((total_memory_used as f64 - theoretical_memory as f64) / theoretical_memory as f64) * 100.0;

assert!(
    overhead_percent < max_memory_overhead_percent,
    "Memory overhead too high: {:.2}% > {:.2}%",
    overhead_percent,
    max_memory_overhead_percent
);

/// Then: Processing should complete within reasonable time bounds
assert!(
    processing_duration.as_millis() < 1000,
    "Memory-efficient processing took too long: {}ms",
    processing_duration.as_millis()
);
}
