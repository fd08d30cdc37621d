use bytes::Bytes;
use osm_pbf::io::blob::{Blob, BlobError, BlobType, MAX_BLOB_MESSAGE_SIZE};
use std::str::FromStr;

#[test]
fn test_blob_type_conversion() {
    assert_eq!(BlobType::from_str("OSMHeader").unwrap(), BlobType::OSMHeader);
    assert_eq!(BlobType::from_str("OSMData").unwrap(), BlobType::OSMData);
    assert_eq!(BlobType::from_str("Custom").unwrap(), BlobType::Unknown("Custom".to_string()));
    
    assert_eq!(BlobType::OSMHeader.as_str(), "OSMHeader");
    assert_eq!(BlobType::OSMData.as_str(), "OSMData");
    assert_eq!(BlobType::Unknown("Custom".to_string()).as_str(), "Custom");
}

#[test]
fn test_blob_creation() {
    let data = Bytes::from("Hello, OSM!");
    let blob = Blob::new_raw(BlobType::OSMData, data.clone(), 1024).unwrap();
    
    assert_eq!(blob.blob_type(), &BlobType::OSMData);
    assert_eq!(blob.offset(), 1024);
    assert_eq!(blob.compressed_size(), data.len() as u32);
    assert_eq!(blob.raw_size(), data.len() as u32);
    assert!(!blob.is_compressed());
}

#[test]
fn test_blob_size_validation() {
    // Test that oversized blobs are rejected
    let large_data = Bytes::from(vec![0u8; MAX_BLOB_MESSAGE_SIZE + 1]);
    let result = Blob::new_raw(BlobType::OSMData, large_data, 0);
    
    assert!(result.is_err());
    match result.unwrap_err() {
        BlobError::MessageTooLarge { size, max } => {
            assert_eq!(size, MAX_BLOB_MESSAGE_SIZE + 1);
            assert_eq!(max, MAX_BLOB_MESSAGE_SIZE);
        }
        _ => panic!("Expected MessageTooLarge error"),
    }
}

#[test]
fn test_compressed_blob() {
    let compressed = Bytes::from("compressed data");
    let raw_size = 1000;
    let blob = Blob::new_zlib(BlobType::OSMHeader, compressed.clone(), raw_size, 2048).unwrap();
    
    assert_eq!(blob.blob_type(), &BlobType::OSMHeader);
    assert_eq!(blob.offset(), 2048);
    assert_eq!(blob.compressed_size(), compressed.len() as u32);
    assert_eq!(blob.raw_size(), raw_size);
    assert!(blob.is_compressed());
}
