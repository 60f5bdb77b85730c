use ever_archive::package_entry_id::GetFileName;
use ever_archive::{ArchiveData, ArchiveDataError, ArchivePackageError, BlockId, PackageEntryId, PackageEntryIdError, ShardIdent};
use sha2::Digest;

const MAGIC: [u8; 4] = [0x01, 0xdd, 0x8f, 0xae];

fn entry(name: &str, data: &[u8]) -> Vec<u8> {
    let mut out = vec![0x8b, 0x1e];
    out.extend_from_slice(&(name.len() as u16).to_le_bytes());
    out.extend_from_slice(&(data.len() as u32).to_le_bytes());
    out.extend_from_slice(name.as_bytes());
    out.extend_from_slice(data);
    out
}

fn shard(wc: i32) -> ShardIdent {
    ShardIdent::new(wc, 0x8000_0000_0000_0000).unwrap()
}

#[test]
fn empty_container_assembles_to_empty_store() {
    let data = ArchiveData::new(&MAGIC).unwrap();
    assert!(data.mc_block_ids().is_empty());
    assert!(data.blocks().is_empty());
    assert_eq!(data.check(), Err(ArchiveDataError::EmptyArchive));
}

#[test]
fn bad_header_fails_assembly() {
    assert_eq!(
        ArchiveData::new(&[1, 2]).err(),
        Some(ArchiveDataError::InvalidPackage(ArchivePackageError::UnexpectedArchiveEof))
    );
}

#[test]
fn bad_filename_fails_assembly() {
    let mut buf = MAGIC.to_vec();
    buf.extend(entry("readme.txt", b"hello"));
    assert_eq!(
        ArchiveData::new(&buf).err(),
        Some(ArchiveDataError::InvalidPackageEntryId(PackageEntryIdError::InvalidFileName))
    );
}

#[test]
fn mismatching_block_fails_assembly() {
    let bytes = b"not the block".to_vec();
    let id = BlockId { shard: shard(-1), seqno: 1, root_hash: [0; 32], file_hash: [0; 32] };
    let mut buf = MAGIC.to_vec();
    buf.extend(entry(&PackageEntryId::Block(id).filename(), &bytes));
    assert_eq!(ArchiveData::new(&buf).err(), Some(ArchiveDataError::InvalidFileHash));
    let hashed = BlockId { file_hash: sha2::Sha256::digest(&bytes).into(), ..id };
    let mut buf = MAGIC.to_vec();
    buf.extend(entry(&PackageEntryId::Block(hashed).filename(), &bytes));
    assert_eq!(ArchiveData::new(&buf).err(), Some(ArchiveDataError::InvalidBlockData));
}

#[test]
fn inapplicable_proof_entries_are_passed_over() {
    let shard_id = BlockId { shard: shard(0), seqno: 4, root_hash: [0; 32], file_hash: [0; 32] };
    let mc_id = BlockId { shard: shard(-1), ..shard_id };
    let mut buf = MAGIC.to_vec();
    buf.extend(entry(&PackageEntryId::Proof(shard_id).filename(), b"garbage"));
    buf.extend(entry(&PackageEntryId::ProofLink(mc_id).filename(), b"garbage"));
    let data = ArchiveData::new(&buf).unwrap();
    assert!(data.blocks().is_empty());
    assert!(data.mc_block_ids().is_empty());
}

#[test]
fn undecodable_proof_fails_assembly() {
    let mc_id = BlockId { shard: shard(-1), seqno: 4, root_hash: [0; 32], file_hash: [0; 32] };
    let mut buf = MAGIC.to_vec();
    buf.extend(entry(&PackageEntryId::Proof(mc_id).filename(), b"garbage"));
    assert_eq!(ArchiveData::new(&buf).err(), Some(ArchiveDataError::InvalidBlockProof));
}

#[test]
fn truncated_entry_fails_assembly() {
    let mut buf = MAGIC.to_vec();
    let mut e = entry("block_", b"abc");
    e.pop();
    buf.extend(e);
    assert_eq!(
        ArchiveData::new(&buf).err(),
        Some(ArchiveDataError::InvalidPackage(ArchivePackageError::UnexpectedEntryEof))
    );
}
