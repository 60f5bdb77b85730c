//! Reading, verifying and consistency checking of block archives of a
//! sharded chain.

pub mod archive_data;
pub mod archive_package;
pub mod block_id;
pub mod edges;
pub mod package_entry_id;
pub mod text;
mod trusted;

pub use archive_package::{
    read_package_header, ArchivePackageEntryView, ArchivePackageError, ArchivePackageViewReader,
};
pub use block_id::{BlockId, ShardIdent};
pub use package_entry_id::{GetFileName, PackageEntryId, PackageEntryIdError};
pub use archive_data::{
    deserialize_block, deserialize_block_proof, ArchiveData, ArchiveDataEntry, ArchiveDataError,
};
pub use edges::shard_edges;
