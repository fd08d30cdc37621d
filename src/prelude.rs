//! The items most callers need, in one import.

pub use crate::blocks::header_block::{HeaderBBox, HeaderBlock, OsmosisReplicationTimestamp, OsmosisSequenceNumber};
pub use crate::blocks::nano_degree::NanoDegree;
pub use crate::blocks::primitives::{
    ChangeSet, DenseInfo, DenseNodes, Info, MemberType, Node, PrimitiveBlock, PrimitiveGroup, Relation, Way,
};
pub use crate::blocks::string_table::StringTable;
pub use crate::io::blob::{Blob, BlobData, BlobError, BlobHeader, BlobType, Result};
pub use crate::io::indexed_reader::{BlobIndex, ElementCounts, ElementFilter, IndexStatistics, IndexedReader};
pub use crate::io::reader::{OsmElement, ParallelConfig, ProcessingStats, Reader};
