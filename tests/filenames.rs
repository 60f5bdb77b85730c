use ever_archive::package_entry_id::GetFileName;
use ever_archive::{BlockId, PackageEntryId, PackageEntryIdError, ShardIdent};

const ROOT: &str = "0102030405060708090A0B0C0D0E0F101112131415161718191A1B1C1D1E1F20";
const FILE: &str = "A1A2A3A4A5A6A7A8A9AAABACADAEAFB0B1B2B3B4B5B6B7B8B9BABBBCBDBEBFC0";

fn sample_id() -> BlockId {
    let mut root = [0u8; 32];
    let mut file = [0u8; 32];
    for i in 0..32 {
        root[i] = i as u8 + 1;
        file[i] = 0xa1 + i as u8;
    }
    BlockId {
        shard: ShardIdent::new(0, 0x8000_0000_0000_0000).unwrap(),
        seqno: 1234,
        root_hash: root,
        file_hash: file,
    }
}

fn parse(name: &str) -> Result<PackageEntryId<BlockId>, PackageEntryIdError> {
    PackageEntryId::from_filename(name)
}

#[test]
fn block_id_filename_is_exact() {
    assert_eq!(sample_id().filename(), format!("(0,8000000000000000,1234):{ROOT}:{FILE}"));
}

#[test]
fn entry_filenames_carry_kind_prefixes() {
    let id = sample_id();
    let tail = id.filename();
    assert_eq!(PackageEntryId::Block(id).filename(), format!("block_{tail}"));
    assert_eq!(PackageEntryId::Proof(id).filename(), format!("proof_{tail}"));
    assert_eq!(PackageEntryId::ProofLink(id).filename(), format!("prooflink_{tail}"));
    assert_eq!(PackageEntryId::Block(id).filename_prefix(), "block_");
    assert_eq!(PackageEntryId::ProofLink(id).filename_prefix(), "prooflink_");
}

#[test]
fn masterchain_filename_has_negative_workchain() {
    let id = BlockId {
        shard: ShardIdent::new(-1, 0x8000_0000_0000_0000).unwrap(),
        seqno: 0,
        root_hash: [0; 32],
        file_hash: [0xff; 32],
    };
    let zeros = "0".repeat(64);
    let effs = "F".repeat(64);
    assert_eq!(id.filename(), format!("(-1,8000000000000000,0):{zeros}:{effs}"));
}

#[test]
fn round_trip_every_kind_and_boundary_hashes() {
    let shards = [
        ShardIdent::new(-1, 0x8000_0000_0000_0000).unwrap(),
        ShardIdent::new(0, 0x8000_0000_0000_0000).unwrap(),
        ShardIdent::new(0, 0x0000_0000_0000_0008).unwrap(),
        ShardIdent::new(i32::MIN, 0xe000_0000_0000_0000).unwrap(),
        ShardIdent::new(i32::MAX, 0x2000_0000_0000_0000).unwrap(),
    ];
    for shard in shards {
        for seqno in [0u32, 1, 4_294_967_295] {
            for (root_hash, file_hash) in [([0u8; 32], [0u8; 32]), ([0xff; 32], [0xff; 32]), sample_hashes()] {
                let id = BlockId { shard, seqno, root_hash, file_hash };
                for entry in [PackageEntryId::Block(id), PackageEntryId::Proof(id), PackageEntryId::ProofLink(id)] {
                    let name = entry.filename();
                    assert_eq!(parse(&name), Ok(entry), "{name}");
                }
            }
        }
    }
}

fn sample_hashes() -> ([u8; 32], [u8; 32]) {
    let id = sample_id();
    (id.root_hash, id.file_hash)
}

#[test]
fn lower_case_hashes_and_plus_signs_are_read() {
    let name = format!(
        "block_(+0,8000000000000000,+7):{}:{}",
        ROOT.to_lowercase(),
        FILE.to_lowercase()
    );
    let id = sample_id();
    assert_eq!(parse(&name), Ok(PackageEntryId::Block(BlockId { seqno: 7, ..id })));
}

#[test]
fn unknown_prefix_is_invalid_filename() {
    assert_eq!(parse(&format!("blocks_(0,8000000000000000,1):{ROOT}:{FILE}")), Err(PackageEntryIdError::InvalidFileName));
    assert_eq!(parse(&format!("(0,8000000000000000,1):{ROOT}:{FILE}")), Err(PackageEntryIdError::InvalidFileName));
}

#[test]
fn missing_paren_is_invalid_filename() {
    assert_eq!(parse("block_0,8000000000000000,1"), Err(PackageEntryIdError::InvalidFileName));
    assert_eq!(parse(""), Err(PackageEntryIdError::InvalidFileName));
}

#[test]
fn workchain_errors() {
    assert_eq!(parse(&format!("block_(x,8000000000000000,1):{ROOT}:{FILE}")), Err(PackageEntryIdError::InvalidWorkchainId));
    assert_eq!(parse(&format!("block_(,8000000000000000,1):{ROOT}:{FILE}")), Err(PackageEntryIdError::InvalidWorkchainId));
    assert_eq!(parse(&format!("block_(2147483648,8000000000000000,1):{ROOT}:{FILE}")), Err(PackageEntryIdError::InvalidWorkchainId));
}

#[test]
fn shard_prefix_errors() {
    assert_eq!(parse(&format!("block_(0:{ROOT}:{FILE}")), Err(PackageEntryIdError::ShardPrefixNotFound));
    assert_eq!(parse(&format!("block_(0):{ROOT}:{FILE}")), Err(PackageEntryIdError::InvalidWorkchainId));
    assert_eq!(parse(&format!("block_(0,8000000000000000):{ROOT}:{FILE}")), Err(PackageEntryIdError::InvalidShardPrefix));
    assert_eq!(parse(&format!("block_(0,80000000g0000000,1):{ROOT}:{FILE}")), Err(PackageEntryIdError::InvalidShardPrefix));
    assert_eq!(parse(&format!("block_(0,18000000000000000,1):{ROOT}:{FILE}")), Err(PackageEntryIdError::InvalidShardPrefix));
}

#[test]
fn illegal_shard_is_invalid_shard_ident() {
    assert_eq!(parse(&format!("block_(0,0000000000000000,1):{ROOT}:{FILE}")), Err(PackageEntryIdError::InvalidShardIdent));
    assert_eq!(parse(&format!("block_(-1,4000000000000000,1):{ROOT}:{FILE}")), Err(PackageEntryIdError::InvalidShardIdent));
}

#[test]
fn seqno_errors() {
    assert_eq!(parse(&format!("block_(0,8000000000000000,:{ROOT}:{FILE}")), Err(PackageEntryIdError::SeqnoNotFound));
    assert_eq!(parse(&format!("block_(0,8000000000000000,):{ROOT}:{FILE}")), Err(PackageEntryIdError::InvalidSeqno));
    assert_eq!(parse(&format!("block_(0,8000000000000000,1:{ROOT}:{FILE}")), Err(PackageEntryIdError::SeqnoNotFound));
    assert_eq!(parse(&format!("block_(0,8000000000000000,-1):{ROOT}:{FILE}")), Err(PackageEntryIdError::InvalidSeqno));
    assert_eq!(parse(&format!("block_(0,8000000000000000,4294967296):{ROOT}:{FILE}")), Err(PackageEntryIdError::InvalidSeqno));
}

#[test]
fn root_hash_errors() {
    assert_eq!(parse("block_(0,8000000000000000,1)"), Err(PackageEntryIdError::RootHashNotFound));
    assert_eq!(parse(&format!("block_(0,8000000000000000,1):{}:{FILE}", &ROOT[..62])), Err(PackageEntryIdError::InvalidRootHash));
    assert_eq!(parse(&format!("block_(0,8000000000000000,1):{}Z:{FILE}", &ROOT[..63])), Err(PackageEntryIdError::InvalidRootHash));
}

#[test]
fn file_hash_errors() {
    assert_eq!(parse(&format!("block_(0,8000000000000000,1):{ROOT}")), Err(PackageEntryIdError::FileHashNotFound));
    assert_eq!(parse(&format!("block_(0,8000000000000000,1):{ROOT}:{FILE}00")), Err(PackageEntryIdError::InvalidFileHash));
    assert_eq!(parse(&format!("block_(0,8000000000000000,1):{ROOT}:")), Err(PackageEntryIdError::InvalidFileHash));
}

#[test]
fn extra_pieces_are_not_read() {
    let id = sample_id();
    assert_eq!(
        parse(&format!("proof_(0,8000000000000000,1234):{ROOT}:{FILE}:tail")),
        Ok(PackageEntryId::Proof(id))
    );
}
