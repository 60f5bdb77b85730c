//! Assembly of a container's entries into a store of verified records, and
//! the check that the store is a gap-free slice of the chain.

use everscale_types::models::{Block, BlockProof};
use vstd::prelude::*;

use vstd::string::StringSliceAdditionalSpecFns;
use vstd::utf8::{decode_utf8, encode_utf8_decode_utf8};

use crate::archive_package::{
    entry_data_start, entry_end, entry_name_start, entry_result, header_result,
    ArchivePackageError, ArchivePackageViewReader,
};
use crate::block_id::{
    hashes_sized, id_lt, lemma_id_order, lemma_view_sized, BlockId, BlockIdView, ShardIdent,
};
use crate::package_entry_id::{entry_id_of_text, PackageEntryId, PackageEntryIdError};
use crate::trusted::{
    boc_loads_block, boc_proof_view, boc_root_hash, decode_block_boc, decode_proof_boc,
    sha256_digest, sha256_of,
};

verus! {

#[derive(Debug, Clone, Copy, PartialEq, Eq, Structural)]
pub enum ArchiveDataError {
    InvalidPackage(ArchivePackageError),
    InvalidPackageEntryId(PackageEntryIdError),
    EmptyArchive,
    InconsistentMasterchainBlocks,
    InconsistentShardchainBlock { shard_ident: ShardIdent, seqno: u32 },
    BlockDataNotFound,
    BlockProofNotFound,
    InvalidFileHash,
    InvalidRootHash,
    InvalidBlockData,
    InvalidBlockProof,
    ProofForAnotherBlock,
    ProofForNonMasterchainBlock,
}

/// What decoding a block file gives for the identifier it is filed under:
/// the file hash must be the digest of the bytes, the bytes must decode,
/// their root hash must be the identifier's, and the root must load as a
/// block.
pub open spec fn block_check(id: BlockIdView, data: Seq<u8>) -> Result<(), ArchiveDataError> {
    if sha256_of(data) != id.file_hash {
        Err(ArchiveDataError::InvalidFileHash)
    } else {
        match boc_root_hash(data) {
            None => Err(ArchiveDataError::InvalidBlockData),
            Some(h) => if h != id.root_hash {
                Err(ArchiveDataError::InvalidRootHash)
            } else if !boc_loads_block(data) {
                Err(ArchiveDataError::InvalidBlockData)
            } else {
                Ok(())
            },
        }
    }
}

/// Whether a proof of the given shape may stand where a full proof
/// (`is_link == false`) or a proof link is asked for: a full proof carries
/// signatures and is for a masterchain block; a proof link carries none.
pub open spec fn proof_shape_fits(id: BlockIdView, is_link: bool, signed: bool) -> bool {
    if is_link {
        !signed
    } else {
        signed && id.shard.is_masterchain_spec()
    }
}

/// What decoding a proof file gives for the identifier it is filed under.
pub open spec fn proof_check(id: BlockIdView, data: Seq<u8>, is_link: bool) -> Result<
    (),
    ArchiveDataError,
> {
    match boc_proof_view(data) {
        None => Err(ArchiveDataError::InvalidBlockProof),
        Some((target, signed)) => if target@ != id {
            Err(ArchiveDataError::ProofForAnotherBlock)
        } else if !proof_shape_fits(id, is_link, signed) {
            Err(ArchiveDataError::ProofForNonMasterchainBlock)
        } else {
            Ok(())
        },
    }
}

/// Decodes a block file filed under `id`, checking its hashes.
pub fn deserialize_block(id: &BlockId, data: &[u8]) -> (r: Result<Block, ArchiveDataError>)
    ensures
        r is Ok <==> block_check(id@, data@) is Ok,
        r matches Err(e) ==> block_check(id@, data@) == Err::<(), ArchiveDataError>(e),
{
    let file_hash = sha256_digest(data);
    if !crate::block_id::same_hash(&file_hash, &id.file_hash) {
        return Err(ArchiveDataError::InvalidFileHash);
    }
    let (root_hash, block) = match decode_block_boc(data) {
        Some(decoded) => decoded,
        None => return Err(ArchiveDataError::InvalidBlockData),
    };
    if !crate::block_id::same_hash(&root_hash, &id.root_hash) {
        return Err(ArchiveDataError::InvalidRootHash);
    }
    match block {
        Some(block) => Ok(block),
        None => Err(ArchiveDataError::InvalidBlockData),
    }
}

/// Decodes a proof file filed under `id`; `is_link` tells whether a proof
/// link is expected rather than a full proof.
pub fn deserialize_block_proof(id: &BlockId, data: &[u8], is_link: bool) -> (r: Result<
    BlockProof,
    ArchiveDataError,
>)
    ensures
        r is Ok <==> proof_check(id@, data@, is_link) is Ok,
        r matches Err(e) ==> proof_check(id@, data@, is_link) == Err::<(), ArchiveDataError>(e),
{
    let (proof, target, signed) = match decode_proof_boc(data) {
        Some(decoded) => decoded,
        None => return Err(ArchiveDataError::InvalidBlockProof),
    };
    if !target.same(id) {
        return Err(ArchiveDataError::ProofForAnotherBlock);
    }
    let fits = if is_link {
        !signed
    } else {
        signed && id.is_masterchain()
    };
    if !fits {
        return Err(ArchiveDataError::ProofForNonMasterchainBlock);
    }
    Ok(proof)
}

/// One record of the store: the decoded block and the decoded proof of one
/// identifier, each with the bytes it was decoded from.
pub struct ArchiveDataEntry<'a> {
    pub block: Option<(Block, &'a [u8])>,
    pub proof: Option<(BlockProof, &'a [u8])>,
}

impl<'a> ArchiveDataEntry<'a> {
    /// The bytes of the block side and of the proof side, where present.
    pub open spec fn sides(&self) -> (Option<Seq<u8>>, Option<Seq<u8>>) {
        (
            match self.block {
                Some(b) => Some(b.1@),
                None => None,
            },
            match self.proof {
                Some(p) => Some(p.1@),
                None => None,
            },
        )
    }
}

impl<'a> Default for ArchiveDataEntry<'a> {
    fn default() -> (r: Self)
        ensures
            r.block is None,
            r.proof is None,
    {
        ArchiveDataEntry { block: None, proof: None }
    }
}

impl<'a> ArchiveDataEntry<'a> {
    /// Both sides of a complete record, or which one is missing.
    pub fn get_data(&self) -> (r: Result<
        ((&Block, &[u8]), (&BlockProof, &[u8])),
        ArchiveDataError,
    >)
        ensures
            r is Ok <==> self.block is Some && self.proof is Some,
            r matches Ok(v) ==> self.block == Some((*v.0.0, v.0.1)) && self.proof == Some(
                (*v.1.0, v.1.1),
            ),
            r matches Err(e) ==> (self.block is None ==> e == ArchiveDataError::BlockDataNotFound)
                && (self.block is Some ==> e == ArchiveDataError::BlockProofNotFound),
    {
        let block = match &self.block {
            Some((block, data)) => (block, *data),
            None => return Err(ArchiveDataError::BlockDataNotFound),
        };
        let side = &self.proof;
        let proof = match side {
            Some((proof, data)) => (proof, *data),
            None => return Err(ArchiveDataError::BlockProofNotFound),
        };
        Ok((block, proof))
    }
}

/// A record as the store's view holds it: the identifier, and the bytes of
/// its block and of its proof where they were read.
pub type RecordView = (BlockIdView, Option<Seq<u8>>, Option<Seq<u8>>);

/// The masterchain index ordered by strictly increasing seqno.
pub open spec fn seqnos_increasing(mc: Seq<BlockIdView>) -> bool {
    forall|i: int, j: int| 0 <= i < j < mc.len() ==> mc[i].seqno < mc[j].seqno
}

/// The records ordered by strictly increasing identifier, so that no
/// identifier has two records.
pub open spec fn ids_increasing(recs: Seq<RecordView>) -> bool {
    forall|i: int, j: int| 0 <= i < j < recs.len() ==> id_lt(recs[i].0, recs[j].0)
}

/// Every identifier of the records has 32-byte hashes.
pub open spec fn ids_sized(recs: Seq<RecordView>) -> bool {
    forall|i: int| 0 <= i < recs.len() ==> hashes_sized(#[trigger] recs[i].0)
}

/// Where a seqno belongs in the masterchain index: before the first entry
/// whose seqno is not smaller.
pub open spec fn mc_slot(mc: Seq<BlockIdView>, seqno: u32) -> nat
    decreases mc.len(),
{
    if mc.len() == 0 {
        0
    } else if mc[0].seqno >= seqno {
        0
    } else {
        1 + mc_slot(mc.drop_first(), seqno)
    }
}

/// The masterchain index with `id` registered under its seqno, replacing
/// the identifier that was there.
pub open spec fn mc_insert(mc: Seq<BlockIdView>, id: BlockIdView) -> Seq<BlockIdView> {
    let k = mc_slot(mc, id.seqno) as int;
    if k < mc.len() && mc[k].seqno == id.seqno {
        mc.update(k, id)
    } else {
        mc.insert(k, id)
    }
}

/// Where the record of `id` belongs: before the first record whose
/// identifier does not come before `id`.
pub open spec fn record_slot(recs: Seq<RecordView>, id: BlockIdView) -> nat
    decreases recs.len(),
{
    if recs.len() == 0 {
        0
    } else if !id_lt(recs[0].0, id) {
        0
    } else {
        1 + record_slot(recs.drop_first(), id)
    }
}

/// Whether `id` has a record.
pub open spec fn has_record(recs: Seq<RecordView>, id: BlockIdView) -> bool {
    let k = record_slot(recs, id) as int;
    k < recs.len() && recs[k].0 == id
}

/// The records with the block side of `id` set to `data`, creating the
/// record in its place where there is none.
pub open spec fn with_block(recs: Seq<RecordView>, id: BlockIdView, data: Seq<u8>) -> Seq<RecordView> {
    let k = record_slot(recs, id) as int;
    if has_record(recs, id) {
        recs.update(k, (id, Some(data), recs[k].2))
    } else {
        recs.insert(k, (id, Some(data), None))
    }
}

/// The records with the proof side of `id` set to `data`, creating the
/// record in its place where there is none.
pub open spec fn with_proof(recs: Seq<RecordView>, id: BlockIdView, data: Seq<u8>) -> Seq<RecordView> {
    let k = record_slot(recs, id) as int;
    if has_record(recs, id) {
        recs.update(k, (id, recs[k].1, Some(data)))
    } else {
        recs.insert(k, (id, None, Some(data)))
    }
}

/// The records with an empty record for `id` where there is none.
pub open spec fn with_record(recs: Seq<RecordView>, id: BlockIdView) -> Seq<RecordView> {
    if has_record(recs, id) {
        recs
    } else {
        recs.insert(record_slot(recs, id) as int, (id, None, None))
    }
}

/// What `mc_slot` is, read off a scan.
pub proof fn lemma_mc_slot(mc: Seq<BlockIdView>, seqno: u32)
    ensures
        mc_slot(mc, seqno) <= mc.len(),
        forall|j: int| 0 <= j < mc_slot(mc, seqno) ==> mc[j].seqno < seqno,
        mc_slot(mc, seqno) < mc.len() ==> mc[mc_slot(mc, seqno) as int].seqno >= seqno,
    decreases mc.len(),
{
    if mc.len() > 0 && mc[0].seqno < seqno {
        lemma_mc_slot(mc.drop_first(), seqno);
        assert forall|j: int| 0 <= j < mc_slot(mc, seqno) implies mc[j].seqno < seqno by {
            if j > 0 {
                assert(mc[j] == mc.drop_first()[j - 1]);
            }
        }
    }
}

/// What `record_slot` is, read off a scan.
pub proof fn lemma_record_slot(recs: Seq<RecordView>, id: BlockIdView)
    ensures
        record_slot(recs, id) <= recs.len(),
        forall|j: int| 0 <= j < record_slot(recs, id) ==> id_lt(recs[j].0, id),
        record_slot(recs, id) < recs.len() ==> !id_lt(recs[record_slot(recs, id) as int].0, id),
    decreases recs.len(),
{
    if recs.len() > 0 && id_lt(recs[0].0, id) {
        lemma_record_slot(recs.drop_first(), id);
        assert forall|j: int| 0 <= j < record_slot(recs, id) implies id_lt(recs[j].0, id) by {
            if j > 0 {
                assert(recs[j] == recs.drop_first()[j - 1]);
            }
        }
    }
}

/// Registering a masterchain identifier keeps the index ordered and free
/// of duplicate seqnos: a seqno already present is replaced, not added.
pub proof fn lemma_mc_insert(mc: Seq<BlockIdView>, id: BlockIdView)
    requires
        seqnos_increasing(mc),
    ensures
        seqnos_increasing(mc_insert(mc, id)),
        mc_has_seqno(mc, id.seqno as int) ==> mc_insert(mc, id).len() == mc.len(),
        !mc_has_seqno(mc, id.seqno as int) ==> mc_insert(mc, id).len() == mc.len() + 1,
        exists|i: int| 0 <= i < mc_insert(mc, id).len() && #[trigger] mc_insert(mc, id)[i] == id,
{
    lemma_mc_slot(mc, id.seqno);
    let k = mc_slot(mc, id.seqno) as int;
    let r = mc_insert(mc, id);
    if k < mc.len() && mc[k].seqno == id.seqno {
        assert(r[k] == id);
    } else {
        assert(r[k] == id);
        assert forall|i: int| 0 <= i < mc.len() implies mc[i].seqno != id.seqno by {
            if i >= k {
                assert(k < mc.len());
                if i > k {
                    assert(mc[k].seqno < mc[i].seqno);
                }
            }
        }
        assert forall|i: int, j: int| 0 <= i < j < r.len() implies r[i].seqno < r[j].seqno by {
            if j < k {
            } else if j == k {
            } else if i < k {
                assert(r[j] == mc[j - 1]);
                assert(mc[j - 1].seqno >= mc[k].seqno);
            } else if i == k {
                assert(r[j] == mc[j - 1]);
                assert(mc[j - 1].seqno >= mc[k].seqno);
            } else {
                assert(r[i] == mc[i - 1]);
                assert(r[j] == mc[j - 1]);
            }
        }
    }
}

/// Adding a record, or a side to one, keeps the records ordered by
/// identifier: an identifier already present gets no second record.
pub proof fn lemma_with_sides(recs: Seq<RecordView>, id: BlockIdView, data: Seq<u8>)
    requires
        ids_increasing(recs),
        ids_sized(recs),
        hashes_sized(id),
    ensures
        ids_increasing(with_block(recs, id, data)) && ids_sized(with_block(recs, id, data)),
        ids_increasing(with_proof(recs, id, data)) && ids_sized(with_proof(recs, id, data)),
        ids_increasing(with_record(recs, id)) && ids_sized(with_record(recs, id)),
        has_record(recs, id) ==> with_record(recs, id).len() == recs.len(),
        !has_record(recs, id) ==> with_record(recs, id).len() == recs.len() + 1,
        with_block(recs, id, data).len() == with_record(recs, id).len(),
        with_proof(recs, id, data).len() == with_record(recs, id).len(),
{
    lemma_record_slot(recs, id);
    if !has_record(recs, id) {
        lemma_inserted_in_order(recs, id, (id, Some(data), None));
        lemma_inserted_in_order(recs, id, (id, None, Some(data)));
        lemma_inserted_in_order(recs, id, (id, None, None));
    }
}

/// Inserting a record for a new identifier at its slot keeps the order.
proof fn lemma_inserted_in_order(recs: Seq<RecordView>, id: BlockIdView, x: RecordView)
    requires
        ids_increasing(recs),
        ids_sized(recs),
        hashes_sized(id),
        x.0 == id,
        !has_record(recs, id),
    ensures
        ids_increasing(recs.insert(record_slot(recs, id) as int, x)),
        ids_sized(recs.insert(record_slot(recs, id) as int, x)),
{
    lemma_record_slot(recs, id);
    let k = record_slot(recs, id) as int;
    let r = recs.insert(k, x);
    if k < recs.len() {
        lemma_id_order(id, recs[k].0, recs[k].0);
    }
    assert forall|i: int, j: int| 0 <= i < j < r.len() implies id_lt(r[i].0, r[j].0) by {
        if j < k {
        } else if j == k {
        } else if i < k {
            assert(r[j] == recs[j - 1]);
        } else if i == k {
            assert(r[j] == recs[j - 1]);
            if j - 1 > k {
                lemma_id_order(id, recs[k].0, recs[j - 1].0);
            }
        } else {
            assert(r[i] == recs[i - 1]);
            assert(r[j] == recs[j - 1]);
        }
    }
    assert forall|i: int| 0 <= i < r.len() implies hashes_sized(#[trigger] r[i].0) by {
        if i > k {
            assert(r[i] == recs[i - 1]);
        }
    }
}

/// Whether some record of `shard` has the given seqno.
pub open spec fn in_shard(recs: Seq<RecordView>, shard: ShardIdent, seqno: int) -> bool {
    exists|i: int|
        0 <= i < recs.len() && (#[trigger] recs[i].0).shard == shard && recs[i].0.seqno == seqno
}

/// Whether some record of `shard` has a smaller seqno.
pub open spec fn has_earlier(recs: Seq<RecordView>, shard: ShardIdent, seqno: int) -> bool {
    exists|i: int|
        0 <= i < recs.len() && (#[trigger] recs[i].0).shard == shard && recs[i].0.seqno < seqno
}

/// Whether `prev` stands in a shard next to `shard` on the shard tree: in
/// one of its children (they merged into it) or in its parent (it split
/// off from there).
pub open spec fn found_elsewhere(recs: Seq<RecordView>, shard: ShardIdent, prev: int) -> bool {
    ||| (shard.spec_split() matches Some((l, r)) && (in_shard(recs, l, prev) || in_shard(
        recs,
        r,
        prev,
    )))
    ||| (shard.spec_merge() matches Some(p) && in_shard(recs, p, prev))
}

/// A block of `shard` at `seqno`, not its first, whose predecessor is
/// neither in `shard` nor in a neighbouring shard.
pub open spec fn unexplained_gap(recs: Seq<RecordView>, shard: ShardIdent, seqno: int) -> bool {
    &&& in_shard(recs, shard, seqno)
    &&& has_earlier(recs, shard, seqno)
    &&& !in_shard(recs, shard, seqno - 1)
    &&& !found_elsewhere(recs, shard, seqno - 1)
}

/// The record at `k` is the first, in record order, whose block has an
/// unexplained gap before it.
pub open spec fn first_gap_at(recs: Seq<RecordView>, k: int) -> bool {
    &&& 0 <= k < recs.len()
    &&& unexplained_gap(recs, recs[k].0.shard, recs[k].0.seqno as int)
    &&& forall|j: int|
        0 <= j < k ==> !unexplained_gap(recs, (#[trigger] recs[j].0).shard, recs[j].0.seqno as int)
}

/// The masterchain index has as many entries as its lowest and highest
/// seqnos span.
pub open spec fn mc_contiguous(mc: Seq<BlockIdView>) -> bool {
    mc[mc.len() - 1].seqno - mc[0].seqno + 1 == mc.len()
}

/// Whether some entry of the index has seqno `q`.
pub open spec fn mc_has_seqno(mc: Seq<BlockIdView>, q: int) -> bool {
    exists|i: int| 0 <= i < mc.len() && #[trigger] mc[i].seqno == q
}

/// In an index ordered by seqno, seqnos climb at least as fast as positions.
proof fn lemma_seqno_spread(mc: Seq<BlockIdView>, i: int, j: int)
    requires
        seqnos_increasing(mc),
        0 <= i <= j < mc.len(),
    ensures
        mc[j].seqno - mc[i].seqno >= j - i,
    decreases j - i,
{
    if i < j {
        lemma_seqno_spread(mc, i, j - 1);
    }
}

/// For an index ordered by seqno, the count check is exact: the count
/// equals the span of seqnos exactly when every seqno from the lowest to
/// the highest is present.
pub proof fn lemma_mc_contiguous(mc: Seq<BlockIdView>)
    requires
        seqnos_increasing(mc),
        mc.len() > 0,
    ensures
        mc_contiguous(mc) <==> forall|q: int|
            mc[0].seqno <= q <= mc[mc.len() - 1].seqno ==> #[trigger] mc_has_seqno(mc, q),
{
    let n = mc.len() as int;
    if mc_contiguous(mc) {
        assert forall|k: int| 0 <= k < n implies #[trigger] mc[k].seqno == mc[0].seqno + k by {
            lemma_seqno_spread(mc, 0, k);
            lemma_seqno_spread(mc, k, n - 1);
        }
        assert forall|q: int| mc[0].seqno <= q <= mc[n - 1].seqno implies #[trigger] mc_has_seqno(
            mc,
            q,
        ) by {
            assert(mc[q - mc[0].seqno].seqno == q);
        }
    } else {
        lemma_seqno_spread(mc, 0, n - 1);
        if forall|q: int| mc[0].seqno <= q <= mc[n - 1].seqno ==> #[trigger] mc_has_seqno(mc, q) {
            assert(exists|k: int| #[trigger] step_gap(mc, k)) by {
                if !exists|k: int| #[trigger] step_gap(mc, k) {
                    assert forall|k: int| 0 <= k < n implies #[trigger] mc[k].seqno == mc[0].seqno
                        + k by {
                        lemma_steps(mc, k);
                    }
                }
            }
            let k = choose|k: int| #[trigger] step_gap(mc, k);
            let q = mc[k].seqno + 1;
            assert(mc_has_seqno(mc, q));
            let i = choose|i: int| 0 <= i < n && #[trigger] mc[i].seqno == q;
            if i <= k {
                lemma_seqno_spread(mc, i, k);
            } else {
                lemma_seqno_spread(mc, k + 1, i);
            }
        }
    }
}

/// Between positions `k` and `k + 1` the seqno jumps by more than one.
spec fn step_gap(mc: Seq<BlockIdView>, k: int) -> bool {
    0 <= k < mc.len() - 1 && mc[k + 1].seqno > mc[k].seqno + 1
}

/// With every step of one, the seqno at position `k` is the first plus `k`.
proof fn lemma_steps(mc: Seq<BlockIdView>, k: int)
    requires
        0 <= k < mc.len(),
        forall|j: int| !#[trigger] step_gap(mc, j),
        seqnos_increasing(mc),
    ensures
        mc[k].seqno == mc[0].seqno + k,
    decreases k,
{
    if k > 0 {
        lemma_steps(mc, k - 1);
        assert(!step_gap(mc, k - 1));
        assert(mc[k - 1].seqno < mc[k].seqno);
    }
}

/// The records of one container: a masterchain index from seqno to
/// identifier, ordered by seqno, and one record per identifier, ordered by
/// identifier (shard, then seqno, then hashes).
pub struct ArchiveData<'a> {
    mc_block_ids: Vec<BlockId>,
    blocks: Vec<(BlockId, ArchiveDataEntry<'a>)>,
}

impl<'a> ArchiveData<'a> {
    /// The largest number of masterchain blocks that one archive spans.
    pub const MAX_MC_BLOCK_COUNT: usize = 100;

    /// The masterchain index, ordered by seqno.
    pub closed spec fn mc_index(&self) -> Seq<BlockIdView> {
        self.mc_block_ids@.map_values(|b: BlockId| b@)
    }

    /// The records, ordered by identifier.
    pub closed spec fn records(&self) -> Seq<RecordView> {
        self.blocks@.map_values(
            |e: (BlockId, ArchiveDataEntry<'a>)| (e.0@, e.1.sides().0, e.1.sides().1),
        )
    }

    /// The index is ordered by seqno and the records by identifier.
    pub open spec fn wf(&self) -> bool {
        seqnos_increasing(self.mc_index()) && ids_increasing(self.records()) && ids_sized(
            self.records(),
        )
    }

    /// A store with no records.
    pub fn empty() -> (r: Self)
        ensures
            r.mc_index() == Seq::<BlockIdView>::empty(),
            r.records() == Seq::<RecordView>::empty(),
            r.wf(),
    {
        let r = ArchiveData { mc_block_ids: Vec::new(), blocks: Vec::new() };
        assert(r.mc_index() =~= Seq::<BlockIdView>::empty());
        assert(r.records() =~= Seq::<RecordView>::empty());
        r
    }

    /// The masterchain index, ordered by seqno.
    pub fn mc_block_ids(&self) -> (r: &Vec<BlockId>)
        ensures
            r@.map_values(|b: BlockId| b@) == self.mc_index(),
    {
        &self.mc_block_ids
    }

    /// The records with their identifiers.
    pub fn blocks(&self) -> (r: &Vec<(BlockId, ArchiveDataEntry<'a>)>)
        ensures
            r@.len() == self.records().len(),
            forall|i: int|
                0 <= i < r@.len() ==> (r@[i].0@, r@[i].1.sides().0, r@[i].1.sides().1)
                    == #[trigger] self.records()[i],
    {
        &self.blocks
    }

    /// The masterchain identifier with the lowest seqno.
    pub fn lowest_mc_id(&self) -> (r: Option<&BlockId>)
        ensures
            self.mc_index().len() == 0 ==> r is None,
            self.mc_index().len() > 0 ==> (r matches Some(id) && id@ == self.mc_index()[0]),
    {
        if self.mc_block_ids.len() == 0 {
            None
        } else {
            Some(&self.mc_block_ids[0])
        }
    }

    /// The masterchain identifier with the highest seqno.
    pub fn highest_mc_id(&self) -> (r: Option<&BlockId>)
        ensures
            self.mc_index().len() == 0 ==> r is None,
            self.mc_index().len() > 0 ==> (r matches Some(id) && id@ == self.mc_index()[self.mc_index().len()
                - 1]),
    {
        let n = self.mc_block_ids.len();
        if n == 0 {
            None
        } else {
            Some(&self.mc_block_ids[n - 1])
        }
    }

    fn mc_slot_of(&self, seqno: u32) -> (r: usize)
        ensures
            r == mc_slot(self.mc_index(), seqno),
            r <= self.mc_block_ids@.len(),
    {
        let ghost mc = self.mc_index();
        proof {
            lemma_mc_slot(mc, seqno);
        }
        let mut i: usize = 0;
        while i < self.mc_block_ids.len()
            invariant
                i <= self.mc_block_ids@.len(),
                mc == self.mc_index(),
                i <= mc_slot(mc, seqno),
                mc_slot(mc, seqno) <= mc.len(),
                forall|j: int| 0 <= j < mc_slot(mc, seqno) ==> mc[j].seqno < seqno,
                mc_slot(mc, seqno) < mc.len() ==> mc[mc_slot(mc, seqno) as int].seqno >= seqno,
            ensures
                i == mc_slot(mc, seqno),
            decreases self.mc_block_ids@.len() - i,
        {
            if self.mc_block_ids[i].seqno >= seqno {
                assert(mc[i as int].seqno >= seqno);
                break;
            }
            assert(mc[i as int].seqno < seqno);
            i = i + 1;
        }
        i
    }

    /// Registers `id` in the masterchain index under its seqno, replacing
    /// the identifier that was there.
    pub fn insert_mc_block_id(&mut self, id: BlockId)
        ensures
            final(self).mc_index() == mc_insert(old(self).mc_index(), id@),
            final(self).records() == old(self).records(),
            old(self).wf() ==> final(self).wf(),
    {
        proof {
            if self.wf() {
                lemma_mc_insert(self.mc_index(), id@);
            }
        }
        let k = self.mc_slot_of(id.seqno);
        let ghost mc = self.mc_index();
        if k < self.mc_block_ids.len() && self.mc_block_ids[k].seqno == id.seqno {
            self.mc_block_ids.set(k, id);
            assert(self.mc_index() =~= mc.update(k as int, id@));
        } else {
            self.mc_block_ids.insert(k, id);
            assert(self.mc_index() =~= mc.insert(k as int, id@));
        }
    }

    fn record_slot_of(&self, id: &BlockId) -> (r: usize)
        ensures
            r == record_slot(self.records(), id@),
            r <= self.blocks@.len(),
            r < self.blocks@.len() ==> (self.blocks@[r as int].0@ == id@ <==> has_record(
                self.records(),
                id@,
            )),
            r == self.blocks@.len() ==> !has_record(self.records(), id@),
    {
        let ghost recs = self.records();
        proof {
            lemma_record_slot(recs, id@);
        }
        let mut i: usize = 0;
        while i < self.blocks.len()
            invariant
                i <= self.blocks@.len(),
                recs == self.records(),
                i <= record_slot(recs, id@),
                record_slot(recs, id@) <= recs.len(),
                forall|j: int| 0 <= j < record_slot(recs, id@) ==> id_lt(recs[j].0, id@),
                record_slot(recs, id@) < recs.len() ==> !id_lt(
                    recs[record_slot(recs, id@) as int].0,
                    id@,
                ),
            ensures
                i == record_slot(recs, id@),
            decreases self.blocks@.len() - i,
        {
            if !self.blocks[i].0.precedes(id) {
                assert(!id_lt(recs[i as int].0, id@));
                break;
            }
            assert(id_lt(recs[i as int].0, id@));
            i = i + 1;
        }
        i
    }

    /// The record of `id`, if there is one.
    pub fn get(&self, id: &BlockId) -> (r: Option<&ArchiveDataEntry<'a>>)
        ensures
            r is Some <==> has_record(self.records(), id@),
            r matches Some(e) ==> (id@, e.sides().0, e.sides().1) == self.records()[record_slot(
                self.records(),
                id@,
            ) as int],
    {
        let k = self.record_slot_of(id);
        if k < self.blocks.len() && self.blocks[k].0.same(id) {
            Some(&self.blocks[k].1)
        } else {
            None
        }
    }

    /// Creates an empty record for `id` where there is none.
    pub fn insert_block_id(&mut self, id: BlockId)
        ensures
            final(self).records() == with_record(old(self).records(), id@),
            final(self).mc_index() == old(self).mc_index(),
            old(self).wf() ==> final(self).wf(),
    {
        proof {
            lemma_view_sized(id);
            if self.wf() {
                lemma_with_sides(self.records(), id@, Seq::empty());
            }
        }
        let k = self.record_slot_of(&id);
        if k == self.blocks.len() || !self.blocks[k].0.same(&id) {
            let ghost recs = self.records();
            self.blocks.insert(k, (id, ArchiveDataEntry::default()));
            assert(self.records() =~= recs.insert(k as int, (id@, None, None)));
        }
    }

    /// Stores a decoded block and its bytes in the record of `id`.
    pub fn set_block(&mut self, id: BlockId, block: Block, data: &'a [u8])
        ensures
            final(self).records() == with_block(old(self).records(), id@, data@),
            final(self).mc_index() == old(self).mc_index(),
            old(self).wf() ==> final(self).wf(),
    {
        proof {
            lemma_view_sized(id);
            if self.wf() {
                lemma_with_sides(self.records(), id@, data@);
            }
        }
        let k = self.record_slot_of(&id);
        let ghost recs = self.records();
        if k < self.blocks.len() && self.blocks[k].0.same(&id) {
            let (key, mut entry) = self.blocks.remove(k);
            entry.block = Some((block, data));
            self.blocks.insert(k, (key, entry));
            assert(self.records() =~= recs.update(k as int, (id@, Some(data@), recs[k as int].2)));
        } else {
            self.blocks.insert(k, (id, ArchiveDataEntry { block: Some((block, data)), proof: None }));
            assert(self.records() =~= recs.insert(k as int, (id@, Some(data@), None)));
        }
    }

    /// Stores a decoded proof and its bytes in the record of `id`.
    pub fn set_proof(&mut self, id: BlockId, proof: BlockProof, data: &'a [u8])
        ensures
            final(self).records() == with_proof(old(self).records(), id@, data@),
            final(self).mc_index() == old(self).mc_index(),
            old(self).wf() ==> final(self).wf(),
    {
        proof {
            lemma_view_sized(id);
            if self.wf() {
                lemma_with_sides(self.records(), id@, data@);
            }
        }
        let k = self.record_slot_of(&id);
        let ghost recs = self.records();
        if k < self.blocks.len() && self.blocks[k].0.same(&id) {
            let (key, mut entry) = self.blocks.remove(k);
            entry.proof = Some((proof, data));
            self.blocks.insert(k, (key, entry));
            assert(self.records() =~= recs.update(k as int, (id@, recs[k as int].1, Some(data@))));
        } else {
            self.blocks.insert(k, (id, ArchiveDataEntry { block: None, proof: Some((proof, data)) }));
            assert(self.records() =~= recs.insert(k as int, (id@, None, Some(data@))));
        }
    }

    /// Whether a record of `shard` has the seqno `seqno`.
    fn contains_seqno(&self, shard: &ShardIdent, seqno: u32) -> (r: bool)
        ensures
            r == in_shard(self.records(), *shard, seqno as int),
    {
        let ghost recs = self.records();
        let mut i: usize = 0;
        while i < self.blocks.len()
            invariant
                i <= self.blocks@.len(),
                recs == self.records(),
                forall|j: int|
                    0 <= j < i ==> !((#[trigger] recs[j].0).shard == *shard && recs[j].0.seqno
                        == seqno),
            decreases self.blocks@.len() - i,
        {
            let id = &self.blocks[i].0;
            assert(recs[i as int].0 == id@);
            if id.shard == *shard && id.seqno == seqno {
                return true;
            }
            i = i + 1;
        }
        false
    }

    /// Whether a record of `shard` has a seqno below `seqno`.
    fn has_earlier_seqno(&self, shard: &ShardIdent, seqno: u32) -> (r: bool)
        ensures
            r == has_earlier(self.records(), *shard, seqno as int),
    {
        let ghost recs = self.records();
        let mut i: usize = 0;
        while i < self.blocks.len()
            invariant
                i <= self.blocks@.len(),
                recs == self.records(),
                forall|j: int|
                    0 <= j < i ==> !((#[trigger] recs[j].0).shard == *shard && recs[j].0.seqno
                        < seqno),
            decreases self.blocks@.len() - i,
        {
            let id = &self.blocks[i].0;
            assert(recs[i as int].0 == id@);
            if id.shard == *shard && id.seqno < seqno {
                return true;
            }
            i = i + 1;
        }
        false
    }

    /// Checks that the store is a gap-free slice of the chain: the
    /// masterchain seqnos are contiguous, and within each shard every block
    /// but the first has its predecessor in the same shard, in one of the
    /// shard's children or in its parent.
    pub fn check(&self) -> (r: Result<(), ArchiveDataError>)
        ensures
            self.mc_index().len() == 0 ==> r == Err::<(), ArchiveDataError>(
                ArchiveDataError::EmptyArchive,
            ),
            self.mc_index().len() > 0 && !mc_contiguous(self.mc_index()) ==> r == Err::<
                (),
                ArchiveDataError,
            >(ArchiveDataError::InconsistentMasterchainBlocks),
            self.mc_index().len() > 0 && mc_contiguous(self.mc_index()) ==> (r is Ok
                <==> forall|shard: ShardIdent, seqno: int|
                !#[trigger] unexplained_gap(self.records(), shard, seqno)),
            r matches Err(ArchiveDataError::InconsistentShardchainBlock { shard_ident, seqno })
                ==> exists|k: int|
                #![trigger self.records()[k]]
                first_gap_at(self.records(), k) && self.records()[k].0.shard == shard_ident
                    && self.records()[k].0.seqno == seqno,
            r matches Err(e) ==> e is EmptyArchive || e is InconsistentMasterchainBlocks
                || e is InconsistentShardchainBlock,
            r matches Err(ArchiveDataError::EmptyArchive) ==> self.mc_index().len() == 0,
            r matches Err(ArchiveDataError::InconsistentMasterchainBlocks) ==> self.mc_index().len()
                > 0 && !mc_contiguous(self.mc_index()),
            self.mc_index().len() > 0 && mc_contiguous(self.mc_index()) ==> (r is Ok || r matches Err(
                ArchiveDataError::InconsistentShardchainBlock { .. },
            )),
    {
        let n = self.mc_block_ids.len();
        if n == 0 {
            return Err(ArchiveDataError::EmptyArchive);
        }
        let left = self.mc_block_ids[0].seqno;
        let right = self.mc_block_ids[n - 1].seqno;
        assert(self.mc_index()[0].seqno == left);
        assert(self.mc_index()[n - 1].seqno == right);
        if (left as u128) + (n as u128) != (right as u128) + 1 {
            return Err(ArchiveDataError::InconsistentMasterchainBlocks);
        }
        let ghost recs = self.records();
        let mut i: usize = 0;
        while i < self.blocks.len()
            invariant
                i <= self.blocks@.len(),
                recs == self.records(),
                self.mc_index().len() > 0,
                mc_contiguous(self.mc_index()),
                forall|j: int|
                    0 <= j < i ==> !unexplained_gap(
                        recs,
                        (#[trigger] recs[j].0).shard,
                        recs[j].0.seqno as int,
                    ),
            decreases self.blocks@.len() - i,
        {
            let id = &self.blocks[i].0;
            assert(recs[i as int].0 == id@);
            if self.has_earlier_seqno(&id.shard, id.seqno) {
                let prev = id.seqno - 1;
                if !self.contains_seqno(&id.shard, prev) && !contains_previous_block(
                    self,
                    &id.shard,
                    prev,
                ) {
                    assert(in_shard(recs, id.shard, id.seqno as int));
                    assert(unexplained_gap(self.records(), id.shard, id.seqno as int));
                    assert(first_gap_at(recs, i as int));
                    return Err(
                        ArchiveDataError::InconsistentShardchainBlock {
                            shard_ident: id.shard,
                            seqno: id.seqno,
                        },
                    );
                }
            }
            i = i + 1;
        }
        assert forall|shard: ShardIdent, seqno: int| !#[trigger] unexplained_gap(
            recs,
            shard,
            seqno,
        ) by {
            if unexplained_gap(recs, shard, seqno) {
                let j = choose|j: int|
                    0 <= j < recs.len() && (#[trigger] recs[j].0).shard == shard
                        && recs[j].0.seqno == seqno;
                assert(!unexplained_gap(recs, recs[j].0.shard, recs[j].0.seqno as int));
            }
        }
        Ok(())
    }
}

/// What the store's view holds: the masterchain index and the records.
pub type StoreView = (Seq<BlockIdView>, Seq<RecordView>);

/// The store after one entry named `name` with bytes `data`: a block is
/// decoded and stored, and a masterchain block also indexed; a full proof
/// of a masterchain block is decoded, stored and indexed; a proof link of a
/// shardchain block is decoded and stored. A full proof of a shardchain
/// block and a proof link of a masterchain block are passed over. The first
/// failure ends assembly.
pub open spec fn apply_entry(m: StoreView, name: Seq<char>, data: Seq<u8>) -> Result<
    StoreView,
    ArchiveDataError,
> {
    match entry_id_of_text(name) {
        Err(e) => Err(ArchiveDataError::InvalidPackageEntryId(e)),
        Ok(PackageEntryId::Block(id)) => match block_check(id, data) {
            Err(e) => Err(e),
            Ok(_) => Ok(
                (
                    if id.shard.is_masterchain_spec() {
                        mc_insert(m.0, id)
                    } else {
                        m.0
                    },
                    with_block(m.1, id, data),
                ),
            ),
        },
        Ok(PackageEntryId::Proof(id)) => if !id.shard.is_masterchain_spec() {
            Ok(m)
        } else {
            match proof_check(id, data, false) {
                Err(e) => Err(e),
                Ok(_) => Ok((mc_insert(m.0, id), with_proof(m.1, id, data))),
            }
        },
        Ok(PackageEntryId::ProofLink(id)) => if id.shard.is_masterchain_spec() {
            Ok(m)
        } else {
            match proof_check(id, data, true) {
                Err(e) => Err(e),
                Ok(_) => Ok((m.0, with_proof(m.1, id, data))),
            }
        },
    }
}

/// The name of the entry at `off`, as text.
pub open spec fn entry_name(b: Seq<u8>, off: int) -> Seq<char> {
    decode_utf8(b.subrange(entry_name_start(off), entry_data_start(b, off)))
}

/// The data of the entry at `off`.
pub open spec fn entry_data(b: Seq<u8>, off: int) -> Seq<u8> {
    b.subrange(entry_data_start(b, off), entry_end(b, off))
}

/// The store that the entries from `off` on make of `m`, or the first failure.
pub open spec fn assemble_from(b: Seq<u8>, off: int, m: StoreView) -> Result<
    StoreView,
    ArchiveDataError,
>
    decreases b.len() - off,
{
    if off < 0 || off > b.len() {
        Ok(m)
    } else {
        match entry_result(b, off) {
            Ok(None) => Ok(m),
            Err(e) => Err(ArchiveDataError::InvalidPackage(e)),
            Ok(Some(_)) => match apply_entry(m, entry_name(b, off), entry_data(b, off)) {
                Err(e) => Err(e),
                Ok(m2) => assemble_from(b, entry_end(b, off), m2),
            },
        }
    }
}

/// The store that a whole container makes, or the first failure.
pub open spec fn assemble(b: Seq<u8>) -> Result<StoreView, ArchiveDataError> {
    match header_result(b, 0) {
        Err(e) => Err(ArchiveDataError::InvalidPackage(e)),
        Ok(_) => assemble_from(b, 4, (Seq::empty(), Seq::empty())),
    }
}

/// The entries from `off` on keep the masterchain index ordered by seqno.
proof fn lemma_assemble_from_index(b: Seq<u8>, off: int, m: StoreView)
    requires
        seqnos_increasing(m.0),
    ensures
        assemble_from(b, off, m) matches Ok(r) ==> seqnos_increasing(r.0),
    decreases b.len() - off,
{
    if 0 <= off <= b.len() && entry_result(b, off) is Ok && entry_result(b, off)->Ok_0 is Some {
        match entry_id_of_text(entry_name(b, off)) {
            Ok(PackageEntryId::Block(id)) => lemma_mc_insert(m.0, id),
            Ok(PackageEntryId::Proof(id)) => lemma_mc_insert(m.0, id),
            _ => {},
        }
        if let Ok(m2) = apply_entry(m, entry_name(b, off), entry_data(b, off)) {
            lemma_assemble_from_index(b, entry_end(b, off), m2);
        }
    }
}

/// A whole container gives a masterchain index ordered by strictly
/// increasing seqno: blocks and full proofs of masterchain blocks register
/// their seqno, a seqno met again (the block and the proof of one block, or
/// a later entry) is registered once with the later identifier, and proof
/// links never register.
pub proof fn lemma_assembled_index(b: Seq<u8>)
    ensures
        assemble(b) matches Ok(r) ==> seqnos_increasing(r.0),
{
    if header_result(b, 0) is Ok {
        lemma_assemble_from_index(b, 4, (Seq::empty(), Seq::empty()));
    }
}

impl<'a> ArchiveData<'a> {
    /// Reads every entry of a container, decodes and checks its blocks and
    /// proofs, and indexes them, as `assemble` describes.
    pub fn new(data: &'a [u8]) -> (r: Result<Self, ArchiveDataError>)
        ensures
            r matches Ok(store) ==> assemble(data@) == Ok::<StoreView, ArchiveDataError>(
                (store.mc_index(), store.records()),
            ) && store.wf(),
            r matches Err(e) ==> assemble(data@) == Err::<StoreView, ArchiveDataError>(e),
    {
        let mut reader = match ArchivePackageViewReader::new(data) {
            Ok(reader) => reader,
            Err(e) => return Err(ArchiveDataError::InvalidPackage(e)),
        };
        let mut res = ArchiveData::empty();
        loop
            invariant
                reader.buffer() == data@,
                0 <= reader.position() <= data@.len(),
                assemble_from(data@, reader.position(), (res.mc_index(), res.records())) == assemble(
                    data@,
                ),
                res.wf(),
            decreases data@.len() - reader.position(),
        {
            let ghost pos = reader.position();
            let entry = match reader.read_next() {
                Ok(Some(entry)) => entry,
                Ok(None) => return Ok(res),
                Err(e) => return Err(ArchiveDataError::InvalidPackage(e)),
            };
            proof {
                encode_utf8_decode_utf8(entry.name@);
                assert(entry.name@ == entry_name(data@, pos));
                assert(entry.data@ == entry_data(data@, pos));
            }
            let id = match PackageEntryId::from_filename(entry.name) {
                Ok(id) => id,
                Err(e) => return Err(ArchiveDataError::InvalidPackageEntryId(e)),
            };
            match id {
                PackageEntryId::Block(id) => {
                    let block = match deserialize_block(&id, entry.data) {
                        Ok(block) => block,
                        Err(e) => return Err(e),
                    };
                    res.set_block(id, block, entry.data);
                    if id.is_masterchain() {
                        res.insert_mc_block_id(id);
                    }
                },
                PackageEntryId::Proof(id) => {
                    if id.is_masterchain() {
                        let block_proof = match deserialize_block_proof(&id, entry.data, false) {
                            Ok(p) => p,
                            Err(e) => return Err(e),
                        };
                        res.set_proof(id, block_proof, entry.data);
                        res.insert_mc_block_id(id);
                    }
                },
                PackageEntryId::ProofLink(id) => {
                    if !id.is_masterchain() {
                        let block_proof = match deserialize_block_proof(&id, entry.data, true) {
                            Ok(p) => p,
                            Err(e) => return Err(e),
                        };
                        res.set_proof(id, block_proof, entry.data);
                    }
                },
            }
        }
    }
}

/// Whether `prev_seqno` stands in a child of `shard_ident` (a merge into
/// it) or in its parent (a split from there).
fn contains_previous_block(data: &ArchiveData, shard_ident: &ShardIdent, prev_seqno: u32) -> (r:
    bool)
    ensures
        r == found_elsewhere(data.records(), *shard_ident, prev_seqno as int),
{
    if let Some((left, right)) = shard_ident.split() {
        if data.contains_seqno(&left, prev_seqno) {
            return true;
        }
        if data.contains_seqno(&right, prev_seqno) {
            return true;
        }
    }
    if let Some(parent) = shard_ident.merge() {
        if data.contains_seqno(&parent, prev_seqno) {
            return true;
        }
    }
    false
}

} // verus!
