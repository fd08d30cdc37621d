use vstd::prelude::*;
use crate::blocks::nano_degree::NanoDegree;
use crate::io::blob::BlobError;

verus! {

/// The file's header: required and optional features, the writing program,
/// the source, replication state and an optional bounding box.
#[derive(Debug, Clone, PartialEq, Eq, Hash, Default)]
pub struct HeaderBlock<'a> {
    pub required_features: Vec<String>,
    pub optional_features: Vec<String>,
    pub writing_program: &'a str,
    pub source: &'a str,
    /// Replication timestamp, in seconds since the epoch.
    pub osmosis_replication_timestamp: Option<OsmosisReplicationTimestamp>,
    /// Replication sequence number.
    pub osmosis_replication_sequence_number: Option<OsmosisSequenceNumber>,
    /// Replication base URL.
    pub osmosis_replication_base_url: Option<&'a str>,
    /// Bounding box of the file's content.
    pub bbox: Option<HeaderBBox>,
}

/// A bounding box in nanodegrees, not scaled by any granularity.
#[derive(Debug, Clone, Copy, PartialEq, Eq, Hash)]
pub struct HeaderBBox {
    pub min_lon: NanoDegree,
    pub max_lon: NanoDegree,
    pub min_lat: NanoDegree,
    pub max_lat: NanoDegree,
}

/// Replication timestamp, in seconds since the epoch; never negative.
#[derive(Debug, Clone, Copy, PartialEq, Eq, Hash)]
pub struct OsmosisReplicationTimestamp(i64);

impl OsmosisReplicationTimestamp {
    /// The seconds held.
    pub closed spec fn spec_secs(&self) -> i64 {
        self.0
    }

    /// A timestamp, or `None` for a negative value.
    pub fn new(secs: i64) -> (r: Option<OsmosisReplicationTimestamp>)
        ensures
            secs >= 0 <==> r is Some,
            r matches Some(t) ==> t.spec_secs() == secs,
    {
        if secs >= 0 {
            Some(OsmosisReplicationTimestamp(secs))
        } else {
            None
        }
    }

    /// Seconds since the epoch.
    pub fn as_secs(&self) -> (r: i64)
        ensures
            r == self.spec_secs(),
    {
        self.0
    }
}

/// Replication sequence number; never negative.
#[derive(Debug, Clone, Copy, PartialEq, Eq, Hash)]
pub struct OsmosisSequenceNumber(i64);

impl OsmosisSequenceNumber {
    /// The number held.
    pub closed spec fn spec_seq(&self) -> i64 {
        self.0
    }

    /// A sequence number, or `None` for a negative value.
    pub fn new(seq: i64) -> (r: Option<OsmosisSequenceNumber>)
        ensures
            seq >= 0 <==> r is Some,
            r matches Some(t) ==> t.spec_seq() == seq,
    {
        if seq >= 0 {
            Some(OsmosisSequenceNumber(seq))
        } else {
            None
        }
    }

    /// The sequence number.
    pub fn as_seq(&self) -> (r: i64)
        ensures
            r == self.spec_seq(),
    {
        self.0
    }
}

/// The features this reader implements.
pub open spec fn is_supported_feature(f: Seq<char>) -> bool {
    f == "OsmSchema-V0.6"@ || f == "DenseNodes"@
}

impl<'a> HeaderBlock<'a> {
    /// Refuses a header that requires a feature this reader lacks, naming
    /// the first such feature.
    pub fn check_required_features(&self) -> (r: Result<(), BlobError>)
        ensures
            r is Ok <==> forall|i: int|
                0 <= i < self.required_features@.len() ==> is_supported_feature(
                    self.required_features@[i]@,
                ),
            r matches Err(e) ==> exists|i: int|
                0 <= i < self.required_features@.len() && !is_supported_feature(
                    self.required_features@[i]@,
                ) && e == BlobError::UnsupportedFeature(self.required_features@[i]),
    {
        let schema = String::from_str("OsmSchema-V0.6");
        let dense = String::from_str("DenseNodes");
        let mut i: usize = 0;
        while i < self.required_features.len()
            invariant
                i <= self.required_features@.len(),
                schema@ == "OsmSchema-V0.6"@,
                dense@ == "DenseNodes"@,
                forall|j: int| 0 <= j < i ==> is_supported_feature(self.required_features@[j]@),
            decreases self.required_features@.len() - i,
        {
            let f = &self.required_features[i];
            if !(*f == schema || *f == dense) {
                return Err(BlobError::UnsupportedFeature(f.clone()));
            }
            i = i + 1;
        }
        Ok(())
    }
}

} // verus!
