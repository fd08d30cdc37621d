//! Reader for the OpenStreetMap PBF container: blob framing, the blob index,
//! block decoding and element filtering, with their contracts proved.

pub mod blocks;
pub mod io;
pub mod prelude;

pub use blocks::header_block::{HeaderBBox, HeaderBlock, OsmosisReplicationTimestamp, OsmosisSequenceNumber};
pub use blocks::nano_degree::NanoDegree;
pub use blocks::primitives::{
    ChangeSet, DenseInfo, DenseNodes, Info, MemberType, Node, PrimitiveBlock, PrimitiveGroup, Relation, Way,
};
pub use blocks::string_table::StringTable;
pub use io::blob::{Blob, BlobData, BlobError, BlobHeader, BlobType};
pub use io::filter::TagFilters;
pub use io::indexed_reader::{
    BlobIndex, ElementCounts, ElementFilter, FileIndex, FilteredBlobIterator, IndexStatistics, IndexedReader,
};
pub use io::reader::{OsmElement, ParallelConfig, ProcessingStats, Reader};
