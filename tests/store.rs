use everscale_types::cell::{CellBuilder, HashBytes};
use ever_archive::{
    deserialize_block, deserialize_block_proof, ArchiveData, ArchiveDataEntry, ArchiveDataError,
    BlockId, ShardIdent,
};
use sha2::Digest;

const FULL: u64 = 0x8000_0000_0000_0000;

fn id(shard: ShardIdent, seqno: u32) -> BlockId {
    BlockId { shard, seqno, root_hash: [0; 32], file_hash: [0; 32] }
}

fn mc() -> ShardIdent {
    ShardIdent::new(-1, FULL).unwrap()
}

fn base() -> ShardIdent {
    ShardIdent::new(0, FULL).unwrap()
}

/// A store with the given masterchain seqnos and shard blocks, as
/// assembly would make it.
fn store(mc_seqnos: &[u32], shard_blocks: &[(ShardIdent, u32)]) -> ArchiveData<'static> {
    let mut data = ArchiveData::empty();
    for &s in mc_seqnos {
        data.insert_block_id(id(mc(), s));
        data.insert_mc_block_id(id(mc(), s));
    }
    for &(shard, s) in shard_blocks {
        data.insert_block_id(id(shard, s));
    }
    data
}

fn sha256(data: &[u8]) -> [u8; 32] {
    sha2::Sha256::digest(data).into()
}

#[test]
fn empty_store_is_empty_archive() {
    assert_eq!(store(&[], &[]).check(), Err(ArchiveDataError::EmptyArchive));
}

#[test]
fn contiguous_masterchain_passes() {
    assert_eq!(store(&[10, 11, 12, 13], &[]).check(), Ok(()));
}

#[test]
fn masterchain_gap_fails() {
    assert_eq!(
        store(&[10, 11, 13], &[]).check(),
        Err(ArchiveDataError::InconsistentMasterchainBlocks)
    );
}

#[test]
fn duplicate_masterchain_seqno_is_counted_once() {
    let data = store(&[10, 11, 11, 13], &[]);
    assert_eq!(data.mc_block_ids().len(), 3);
    assert_eq!(data.check(), Err(ArchiveDataError::InconsistentMasterchainBlocks));
    let data = store(&[10, 11, 11, 12, 13], &[]);
    assert_eq!(data.mc_block_ids().len(), 4);
    assert_eq!(data.blocks().len(), 4);
    assert_eq!(data.check(), Ok(()));
}

#[test]
fn masterchain_index_is_ordered() {
    let data = store(&[13, 10, 12, 11], &[]);
    let seqnos: Vec<u32> = data.mc_block_ids().iter().map(|b| b.seqno).collect();
    assert_eq!(seqnos, vec![10, 11, 12, 13]);
    assert_eq!(data.lowest_mc_id().map(|b| b.seqno), Some(10));
    assert_eq!(data.highest_mc_id().map(|b| b.seqno), Some(13));
    assert_eq!(data.check(), Ok(()));
}

#[test]
fn masterchain_replacement_keeps_latest_id() {
    let mut data = ArchiveData::empty();
    data.insert_mc_block_id(id(mc(), 5));
    let other = BlockId { root_hash: [9; 32], ..id(mc(), 5) };
    data.insert_mc_block_id(other);
    assert_eq!(data.mc_block_ids().len(), 1);
    assert_eq!(data.lowest_mc_id(), Some(&other));
}

#[test]
fn shard_split_passes() {
    let (s0, s1) = base().split().unwrap();
    let data = store(&[1], &[(base(), 100), (s0, 101), (s0, 102), (s1, 101)]);
    assert_eq!(data.check(), Ok(()));
}

#[test]
fn shard_split_gap_resolved_in_parent() {
    let (s0, _) = base().split().unwrap();
    let data = store(&[1], &[(base(), 100), (s0, 99), (s0, 101)]);
    assert_eq!(data.check(), Ok(()));
    let data = store(&[1], &[(s0, 99), (s0, 101)]);
    assert_eq!(
        data.check(),
        Err(ArchiveDataError::InconsistentShardchainBlock { shard_ident: s0, seqno: 101 })
    );
}

#[test]
fn shard_merge_passes() {
    let (s0, s1) = base().split().unwrap();
    let data = store(&[1], &[(s0, 49), (s0, 50), (s1, 51), (s1, 52), (base(), 53)]);
    assert_eq!(data.check(), Ok(()));
}

#[test]
fn shard_merge_gap_resolved_in_child() {
    let (s0, s1) = base().split().unwrap();
    let data = store(&[1], &[(s0, 50), (s1, 52), (base(), 40), (base(), 53)]);
    assert_eq!(data.check(), Ok(()));
    let data = store(&[1], &[(s0, 50), (s1, 51), (base(), 40), (base(), 53)]);
    assert_eq!(
        data.check(),
        Err(ArchiveDataError::InconsistentShardchainBlock { shard_ident: base(), seqno: 53 })
    );
}

#[test]
fn unexplained_gap_names_shard_and_seqno() {
    let data = store(&[1], &[(base(), 5), (base(), 7)]);
    assert_eq!(
        data.check(),
        Err(ArchiveDataError::InconsistentShardchainBlock { shard_ident: base(), seqno: 7 })
    );
}

#[test]
fn single_block_shard_passes() {
    assert_eq!(store(&[1], &[(base(), 77)]).check(), Ok(()));
}

#[test]
fn masterchain_gap_is_reported_before_shard_gaps() {
    let data = store(&[1, 3], &[(base(), 5), (base(), 7)]);
    assert_eq!(data.check(), Err(ArchiveDataError::InconsistentMasterchainBlocks));
}

#[test]
fn empty_record_has_no_data() {
    let entry = ArchiveDataEntry::default();
    assert_eq!(entry.get_data().err(), Some(ArchiveDataError::BlockDataNotFound));
    let data = store(&[1], &[]);
    let rec = data.get(&id(mc(), 1)).unwrap();
    assert_eq!(rec.get_data().err(), Some(ArchiveDataError::BlockDataNotFound));
    assert!(data.get(&id(mc(), 2)).is_none());
}

#[test]
fn mutated_block_bytes_fail_file_hash() {
    let bytes = b"raw block bytes".to_vec();
    let block_id = BlockId { file_hash: sha256(&bytes), ..id(base(), 3) };
    let mut mutated = bytes.clone();
    mutated[4] ^= 0x01;
    assert_eq!(deserialize_block(&block_id, &mutated).err(), Some(ArchiveDataError::InvalidFileHash));
    // The unmutated bytes pass the hash check and fail only as a bag of cells.
    assert_eq!(deserialize_block(&block_id, &bytes).err(), Some(ArchiveDataError::InvalidBlockData));
}

fn small_boc() -> (Vec<u8>, [u8; 32]) {
    let mut b = CellBuilder::new();
    b.store_u32(0xdead_beef).unwrap();
    let cell = b.build().unwrap();
    let root = cell.repr_hash().0;
    (everscale_types::boc::Boc::encode(&cell), root)
}

#[test]
fn block_root_hash_is_checked() {
    let (boc, root) = small_boc();
    let good = BlockId { root_hash: root, file_hash: sha256(&boc), ..id(base(), 3) };
    // Hashes match; the cell is no block.
    assert_eq!(deserialize_block(&good, &boc).err(), Some(ArchiveDataError::InvalidBlockData));
    let bad_root = BlockId { root_hash: [7; 32], ..good };
    assert_eq!(deserialize_block(&bad_root, &boc).err(), Some(ArchiveDataError::InvalidRootHash));
}

fn outside_id(b: &BlockId) -> everscale_types::models::BlockId {
    everscale_types::models::BlockId {
        shard: everscale_types::models::ShardIdent::new(b.shard.workchain(), b.shard.prefix()).unwrap(),
        seqno: b.seqno,
        root_hash: HashBytes(b.root_hash),
        file_hash: HashBytes(b.file_hash),
    }
}

fn proof_link_boc(target: &BlockId) -> Vec<u8> {
    let proof = everscale_types::models::BlockProof {
        proof_for: outside_id(target),
        root: CellBuilder::new().build().unwrap(),
        signatures: None,
    };
    everscale_types::boc::Boc::encode(CellBuilder::build_from(proof).unwrap())
}

#[test]
fn proof_link_is_accepted_for_its_block() {
    let target = BlockId { root_hash: [3; 32], file_hash: [4; 32], ..id(base(), 9) };
    let boc = proof_link_boc(&target);
    assert!(deserialize_block_proof(&target, &boc, true).is_ok());
}

#[test]
fn proof_for_another_block_is_rejected() {
    let target = BlockId { root_hash: [3; 32], file_hash: [4; 32], ..id(base(), 9) };
    let boc = proof_link_boc(&target);
    let other = BlockId { seqno: 10, ..target };
    assert_eq!(
        deserialize_block_proof(&other, &boc, true).err(),
        Some(ArchiveDataError::ProofForAnotherBlock)
    );
}

#[test]
fn proof_link_where_full_proof_is_asked_is_rejected() {
    let target = BlockId { root_hash: [3; 32], file_hash: [4; 32], ..id(mc(), 9) };
    let boc = proof_link_boc(&target);
    assert_eq!(
        deserialize_block_proof(&target, &boc, false).err(),
        Some(ArchiveDataError::ProofForNonMasterchainBlock)
    );
}

#[test]
fn undecodable_proof_is_invalid() {
    let target = id(base(), 9);
    assert_eq!(
        deserialize_block_proof(&target, b"nope", true).err(),
        Some(ArchiveDataError::InvalidBlockProof)
    );
    let (boc, _) = small_boc();
    assert_eq!(
        deserialize_block_proof(&target, &boc, true).err(),
        Some(ArchiveDataError::InvalidBlockProof)
    );
}

#[test]
fn shard_edges_pick_first_and_last_of_each_shard() {
    let (s0, s1) = base().split().unwrap();
    let tops = vec![id(s0, 10), id(s1, 20), id(mc(), 5)];
    let early = BlockId { root_hash: [1; 32], ..id(s0, 8) };
    let early_twin = BlockId { root_hash: [2; 32], ..id(s0, 8) };
    let ids = vec![id(s0, 12), early, early_twin, id(s1, 21), id(base(), 1), id(mc(), 4), id(mc(), 6)];
    assert_eq!(
        ever_archive::shard_edges(&tops, &ids, true),
        vec![early, id(s1, 20), id(mc(), 4)]
    );
    assert_eq!(
        ever_archive::shard_edges(&tops, &ids, false),
        vec![id(s0, 12), id(s1, 21), id(mc(), 6)]
    );
    assert!(ever_archive::shard_edges(&vec![], &ids, true).is_empty());
    assert_eq!(ever_archive::shard_edges(&tops, &vec![], false), tops);
}

#[test]
fn records_are_ordered_by_shard_then_seqno() {
    let (s0, s1) = base().split().unwrap();
    let data = store(&[2, 1], &[(s1, 5), (base(), 9), (s0, 7), (s0, 3), (s1, 5)]);
    let order: Vec<(i32, u64, u32)> = data
        .blocks()
        .iter()
        .map(|(b, _)| (b.shard.workchain(), b.shard.prefix(), b.seqno))
        .collect();
    let mut sorted = order.clone();
    sorted.sort();
    assert_eq!(order, sorted);
    assert_eq!(order.len(), 6);
    assert_eq!(order[0], (-1, FULL, 1));
    assert_eq!(order[2], (0, s0.prefix(), 3));
}
