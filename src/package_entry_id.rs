//! File names of container entries: a kind prefix and a block identifier
//! in the form `(<workchain>,<prefix:016x>,<seqno>):<ROOT HASH>:<FILE HASH>`.

use vstd::prelude::*;
use vstd::string::{StrSliceExecFns, StringExecFns};

use crate::block_id::{BlockId, BlockIdView, ShardIdent, valid_shard};
use crate::text::{
    bytes_of_hex, chars_of, dec_text, free_of, hex_text, i32_of_text, lemma_digits_free,
    lemma_i32_text, lemma_piece_concat, lemma_piece_step, lemma_piece_whole, lemma_sep_pos,
    lemma_u32_text, lemma_u64_hex_text, lemma_upper_hex, piece, sep_pos,
    signed_dec_text, u32_of_text, u64_of_hex_text, upper_hex,
};
use crate::trusted::{
    decode_hex, encode_hex_upper, hex16_text, i32_text, parse_hex_u64, parse_i32, parse_u32,
    u32_text,
};

verus! {

/// What an entry of a container holds, with the block it is about.
#[derive(Debug, PartialEq, Eq, Hash)]
pub enum PackageEntryId<I> {
    Block(I),
    Proof(I),
    ProofLink(I),
}

#[derive(Debug, Clone, Copy, PartialEq, Eq, Structural)]
pub enum PackageEntryIdError {
    InvalidFileName,
    ShardIdNotFound,
    WorkchainIdNotFound,
    InvalidWorkchainId,
    ShardPrefixNotFound,
    InvalidShardPrefix,
    InvalidShardIdent,
    SeqnoNotFound,
    InvalidSeqno,
    RootHashNotFound,
    InvalidRootHash,
    FileHashNotFound,
    InvalidFileHash,
}

pub const PACKAGE_ENTRY_BLOCK: &'static str = "block_";

pub const PACKAGE_ENTRY_PROOF: &'static str = "proof_";

pub const PACKAGE_ENTRY_PROOF_LINK: &'static str = "prooflink_";

pub open spec fn block_prefix() -> Seq<char> {
    seq!['b', 'l', 'o', 'c', 'k', '_']
}

pub open spec fn proof_prefix() -> Seq<char> {
    seq!['p', 'r', 'o', 'o', 'f', '_']
}

pub open spec fn proof_link_prefix() -> Seq<char> {
    seq!['p', 'r', 'o', 'o', 'f', 'l', 'i', 'n', 'k', '_']
}

impl<I> PackageEntryId<I> {
    /// The identifier that the entry is about, whatever its kind.
    pub open spec fn id(self) -> I {
        match self {
            PackageEntryId::Block(i) => i,
            PackageEntryId::Proof(i) => i,
            PackageEntryId::ProofLink(i) => i,
        }
    }

    /// The file name prefix of the entry's kind.
    pub open spec fn prefix_text(self) -> Seq<char> {
        match self {
            PackageEntryId::Block(_) => block_prefix(),
            PackageEntryId::Proof(_) => proof_prefix(),
            PackageEntryId::ProofLink(_) => proof_link_prefix(),
        }
    }

    /// The file name prefix of the entry's kind.
    pub fn filename_prefix(&self) -> (r: &'static str)
        ensures
            r@ == self.prefix_text(),
    {
        proof {
            reveal_strlit("block_");
            reveal_strlit("proof_");
            reveal_strlit("prooflink_");
        }
        match self {
            PackageEntryId::Block(_) => PACKAGE_ENTRY_BLOCK,
            PackageEntryId::Proof(_) => PACKAGE_ENTRY_PROOF,
            PackageEntryId::ProofLink(_) => PACKAGE_ENTRY_PROOF_LINK,
        }
    }
}

impl View for PackageEntryId<BlockId> {
    type V = PackageEntryId<BlockIdView>;

    open spec fn view(&self) -> PackageEntryId<BlockIdView> {
        match *self {
            PackageEntryId::Block(i) => PackageEntryId::Block(i@),
            PackageEntryId::Proof(i) => PackageEntryId::Proof(i@),
            PackageEntryId::ProofLink(i) => PackageEntryId::ProofLink(i@),
        }
    }
}

/// The text of a block identifier.
pub open spec fn block_id_text(id: BlockIdView) -> Seq<char> {
    seq!['('] + signed_dec_text(id.shard.workchain as int) + seq![','] + hex_text(
        id.shard.prefix as nat,
        16,
    ) + seq![','] + dec_text(id.seqno as nat) + seq![')', ':'] + upper_hex(id.root_hash) + seq![
        ':',
    ] + upper_hex(id.file_hash)
}

/// The file name of an entry.
pub open spec fn entry_id_text(e: PackageEntryId<BlockIdView>) -> Seq<char> {
    e.prefix_text() + block_id_text(e.id())
}

/// A 32-byte hash written in hex.
pub open spec fn hash_of_text(s: Seq<char>) -> Option<Seq<u8>> {
    match bytes_of_hex(s) {
        Some(b) => if b.len() == 32 {
            Some(b)
        } else {
            None
        },
        None => None,
    }
}

/// The workchain, tagged prefix and seqno that the shard part of an
/// identifier's text names: it splits at `,` into `(` and a workchain, a hex
/// prefix, and a seqno followed by `)`. Pieces beyond those are not read.
pub open spec fn shard_part_of_text(t: Seq<char>) -> Result<(i32, u64, u32), PackageEntryIdError> {
    let wc_piece = piece(t, ',', 0)->0;
    if wc_piece.len() == 0 || wc_piece[0] != '(' {
        Err(PackageEntryIdError::WorkchainIdNotFound)
    } else if i32_of_text(wc_piece.drop_first()) is None {
        Err(PackageEntryIdError::InvalidWorkchainId)
    } else if piece(t, ',', 1) is None {
        Err(PackageEntryIdError::ShardPrefixNotFound)
    } else if u64_of_hex_text(piece(t, ',', 1)->0) is None {
        Err(PackageEntryIdError::InvalidShardPrefix)
    } else if piece(t, ',', 2) is None || piece(t, ',', 2)->0.len() == 0 || piece(t, ',', 2)->0.last()
        != ')' {
        Err(PackageEntryIdError::SeqnoNotFound)
    } else if u32_of_text(piece(t, ',', 2)->0.drop_last()) is None {
        Err(PackageEntryIdError::InvalidSeqno)
    } else {
        Ok(
            (
                i32_of_text(wc_piece.drop_first())->0,
                u64_of_hex_text(piece(t, ',', 1)->0)->0,
                u32_of_text(piece(t, ',', 2)->0.drop_last())->0,
            ),
        )
    }
}

/// The block identifier that a text names, or the first defect found: the
/// text splits at `:` into a shard part, a root hash and a file hash; the
/// workchain and prefix must make a legal shard. Pieces beyond those are
/// not read.
pub open spec fn block_id_of_text(s: Seq<char>) -> Result<BlockIdView, PackageEntryIdError> {
    match shard_part_of_text(piece(s, ':', 0)->0) {
        Err(e) => Err(e),
        Ok((workchain, prefix, seqno)) => if !valid_shard(workchain, prefix) {
            Err(PackageEntryIdError::InvalidShardIdent)
        } else if piece(s, ':', 1) is None {
            Err(PackageEntryIdError::RootHashNotFound)
        } else if hash_of_text(piece(s, ':', 1)->0) is None {
            Err(PackageEntryIdError::InvalidRootHash)
        } else if piece(s, ':', 2) is None {
            Err(PackageEntryIdError::FileHashNotFound)
        } else if hash_of_text(piece(s, ':', 2)->0) is None {
            Err(PackageEntryIdError::InvalidFileHash)
        } else {
            Ok(
                BlockIdView {
                    shard: ShardIdent { workchain, prefix },
                    seqno,
                    root_hash: hash_of_text(piece(s, ':', 1)->0)->0,
                    file_hash: hash_of_text(piece(s, ':', 2)->0)->0,
                },
            )
        }
    }
}

/// The entry that a file name names: a kind prefix, which ends at the first
/// `(`, and a block identifier.
pub open spec fn entry_id_of_text(s: Seq<char>) -> Result<
    PackageEntryId<BlockIdView>,
    PackageEntryIdError,
> {
    let pos = sep_pos(s, '(');
    let prefix = s.take(pos as int);
    let rest = s.skip(pos as int);
    if pos == s.len() {
        Err(PackageEntryIdError::InvalidFileName)
    } else if prefix != block_prefix() && prefix != proof_prefix() && prefix
        != proof_link_prefix() {
        Err(PackageEntryIdError::InvalidFileName)
    } else {
        match block_id_of_text(rest) {
            Err(e) => Err(e),
            Ok(id) => if prefix == block_prefix() {
                Ok(PackageEntryId::Block(id))
            } else if prefix == proof_prefix() {
                Ok(PackageEntryId::Proof(id))
            } else {
                Ok(PackageEntryId::ProofLink(id))
            },
        }
    }
}

/// An identifier that has a file name: its shard is legal and its hashes
/// are 32 bytes long.
pub open spec fn nameable(id: BlockIdView) -> bool {
    &&& valid_shard(id.shard.workchain, id.shard.prefix)
    &&& id.root_hash.len() == 32
    &&& id.file_hash.len() == 32
}

/// Reading the text of an identifier gives the identifier back.
#[verifier::rlimit(40)]
pub proof fn lemma_block_id_round_trip(id: BlockIdView)
    requires
        nameable(id),
    ensures
        block_id_of_text(block_id_text(id)) == Ok::<BlockIdView, PackageEntryIdError>(id),
{
    let w = signed_dec_text(id.shard.workchain as int);
    let p = hex_text(id.shard.prefix as nat, 16);
    let q = dec_text(id.seqno as nat);
    let r = upper_hex(id.root_hash);
    let f = upper_hex(id.file_hash);
    lemma_i32_text(id.shard.workchain);
    lemma_u64_hex_text(id.shard.prefix);
    lemma_u32_text(id.seqno);
    lemma_upper_hex(id.root_hash);
    lemma_upper_hex(id.file_hash);
    lemma_digits_free(r, 16);
    lemma_digits_free(f, 16);

    let a1 = seq!['('] + w;
    let q1 = q + seq![')'];
    let rest1 = p + seq![','] + q1;
    let a = a1 + seq![','] + rest1;
    let tail = r + seq![':'] + f;
    assert(block_id_text(id) =~= a + seq![':'] + tail);
    assert(free_of(a1, ',')) by {
        assert forall|i: int| 0 <= i < a1.len() implies a1[i] != ',' by {
            if i > 0 {
                assert(a1[i] == w[i - 1]);
            }
        }
    }
    assert(free_of(q1, ',')) by {
        assert forall|i: int| 0 <= i < q1.len() implies q1[i] != ',' by {
            if i < q.len() {
                assert(q1[i] == q[i]);
            }
        }
    }
    assert(free_of(a, ':')) by {
        assert forall|i: int| 0 <= i < a.len() implies a[i] != ':' by {
            if 0 < i < a1.len() {
                assert(a[i] == w[i - 1]);
            } else if a1.len() < i < a1.len() + 1 + p.len() {
                assert(a[i] == p[i - a1.len() - 1]);
            } else if a1.len() + 1 + p.len() < i < a.len() - 1 {
                assert(a[i] == q[i - a1.len() - 2 - p.len()]);
            }
        }
    }
    lemma_piece_concat(a, ':', tail, 0);
    lemma_piece_concat(a, ':', tail, 1);
    lemma_piece_concat(r, ':', f, 0);
    lemma_piece_whole(f, ':', 0);
    lemma_piece_concat(a1, ',', rest1, 0);
    lemma_piece_concat(a1, ',', rest1, 1);
    lemma_piece_concat(p, ',', q1, 0);
    lemma_piece_whole(q1, ',', 0);
    assert(a1.drop_first() =~= w);
    assert(q1.drop_last() =~= q);
}

/// Reading the file name of an entry gives the entry back.
#[verifier::rlimit(40)]
pub proof fn lemma_entry_id_round_trip(e: PackageEntryId<BlockIdView>)
    requires
        nameable(e.id()),
    ensures
        entry_id_of_text(entry_id_text(e)) == Ok::<PackageEntryId<BlockIdView>, PackageEntryIdError>(
            e,
        ),
{
    lemma_block_id_round_trip(e.id());
    let pre = e.prefix_text();
    let t = block_id_text(e.id());
    let s = pre + t;
    assert(free_of(pre, '('));
    assert(t[0] == '(');
    lemma_sep_pos(s, '(', pre.len() as int);
    assert(s.take(pre.len() as int) =~= pre);
    assert(s.skip(pre.len() as int) =~= t);
    assert(block_prefix()[0] != proof_prefix()[0]);
    assert(block_prefix()[0] != proof_link_prefix()[0]);
    assert(proof_prefix().len() != proof_link_prefix().len());
}

/// The file name that `filename` writes for an entry reads back, through
/// `from_filename`, as the same entry, for each kind of entry, whenever its
/// shard is legal.
pub proof fn lemma_filename_round_trip(e: PackageEntryId<BlockId>)
    requires
        valid_shard(e.id().shard.workchain, e.id().shard.prefix),
    ensures
        entry_id_of_text(e.filename_text()) == Ok::<PackageEntryId<BlockIdView>, PackageEntryIdError>(
            e@,
        ),
{
    lemma_entry_id_round_trip(e@);
}

/// Position of the first `c` in `v[from..to]`, or `to`.
fn find_char(v: &Vec<char>, from: usize, to: usize, c: char) -> (r: usize)
    requires
        from <= to <= v@.len(),
    ensures
        from <= r <= to,
        r == from + sep_pos(v@.subrange(from as int, to as int), c),
        r < to ==> v@[r as int] == c,
{
    let mut i = from;
    while i < to
        invariant
            from <= i <= to <= v@.len(),
            forall|j: int| from <= j < i ==> v@[j] != c,
        ensures
            i == to || v@[i as int] == c,
        decreases to - i,
    {
        if v[i] == c {
            break;
        }
        i = i + 1;
    }
    proof {
        lemma_sep_pos(v@.subrange(from as int, to as int), c, i - from);
    }
    i
}

/// Whether `v[from..to]` spells `lit`.
fn spells(v: &Vec<char>, from: usize, to: usize, lit: &str) -> (r: bool)
    requires
        from <= to <= v@.len(),
    ensures
        r == (v@.subrange(from as int, to as int) == lit@),
{
    let n = lit.unicode_len();
    if to - from != n {
        return false;
    }
    let mut i: usize = 0;
    while i < n
        invariant
            n == lit@.len(),
            from + n == to <= v@.len(),
            i <= n,
            forall|j: int| 0 <= j < i ==> v@[from + j] == lit@[j],
        decreases n - i,
    {
        if v[from + i] != lit.get_char(i) {
            assert(v@.subrange(from as int, to as int)[i as int] != lit@[i as int]);
            return false;
        }
        i = i + 1;
    }
    assert(v@.subrange(from as int, to as int) =~= lit@);
    true
}

/// A 32-byte hash from its hex text.
fn hash_from_hex(s: &str) -> (r: Option<[u8; 32]>)
    ensures
        r is Some <==> hash_of_text(s@) is Some,
        r matches Some(h) ==> Some(h@) == hash_of_text(s@),
{
    let v = match decode_hex(s) {
        Some(v) => v,
        None => return None,
    };
    if v.len() != 32 {
        return None;
    }
    let h: [u8; 32] = [
        v[0], v[1], v[2], v[3], v[4], v[5], v[6], v[7], v[8], v[9], v[10], v[11], v[12], v[13],
        v[14], v[15], v[16], v[17], v[18], v[19], v[20], v[21], v[22], v[23], v[24], v[25],
        v[26], v[27], v[28], v[29], v[30], v[31],
    ];
    assert(h@ =~= v@);
    Some(h)
}

/// Reads the shard part `s[0..end]` of an identifier's text, as
/// `shard_part_of_text` describes; `v` holds the characters of `s`.
fn parse_shard_part(s: &str, v: &Vec<char>, end: usize) -> (r: Result<
    (i32, u64, u32),
    PackageEntryIdError,
>)
    requires
        v@ == s@,
        end <= v@.len(),
    ensures
        r == shard_part_of_text(s@.subrange(0, end as int)),
{
    let ghost t = v@;
    let c0 = find_char(v, 0, end, ',');
    proof {
        lemma_piece_step(t, ',', 0, end as int, c0 as int, 0);
        lemma_piece_step(t, ',', 0, end as int, c0 as int, 1);
    }
    if c0 == 0 || v[0] != '(' {
        return Err(PackageEntryIdError::WorkchainIdNotFound);
    }
    proof {
        assert(t.subrange(0, c0 as int).drop_first() =~= t.subrange(1, c0 as int));
    }
    let workchain = match parse_i32(s.substring_char(1, c0)) {
        Some(w) => w,
        None => return Err(PackageEntryIdError::InvalidWorkchainId),
    };
    if c0 == end {
        return Err(PackageEntryIdError::ShardPrefixNotFound);
    }
    let c1 = find_char(v, c0 + 1, end, ',');
    proof {
        lemma_piece_step(t, ',', c0 + 1, end as int, c1 as int, 0);
    }
    let prefix = match parse_hex_u64(s.substring_char(c0 + 1, c1)) {
        Some(p) => p,
        None => return Err(PackageEntryIdError::InvalidShardPrefix),
    };
    if c1 == end {
        return Err(PackageEntryIdError::SeqnoNotFound);
    }
    let c2 = find_char(v, c1 + 1, end, ',');
    proof {
        lemma_piece_step(t, ',', c1 + 1, end as int, c2 as int, 0);
    }
    if c2 == c1 + 1 || v[c2 - 1] != ')' {
        return Err(PackageEntryIdError::SeqnoNotFound);
    }
    proof {
        assert(t.subrange(c1 + 1, c2 as int).drop_last() =~= t.subrange(c1 + 1, c2 - 1));
    }
    let seqno = match parse_u32(s.substring_char(c1 + 1, c2 - 1)) {
        Some(q) => q,
        None => return Err(PackageEntryIdError::InvalidSeqno),
    };
    Ok((workchain, prefix, seqno))
}

/// Reads a block identifier from its text, as `block_id_of_text` describes.
fn parse_block_id(s: &str) -> (r: Result<BlockId, PackageEntryIdError>)
    ensures
        match r {
            Ok(id) => block_id_of_text(s@) == Ok::<BlockIdView, PackageEntryIdError>(id@),
            Err(e) => block_id_of_text(s@) == Err::<BlockIdView, PackageEntryIdError>(e),
        },
{
    let v = chars_of(s);
    let n = v.len();
    let ghost t = v@;
    let e0 = find_char(&v, 0, n, ':');
    proof {
        assert(t.subrange(0, n as int) =~= t);
        lemma_piece_step(t, ':', 0, n as int, e0 as int, 0);
        lemma_piece_step(t, ':', 0, n as int, e0 as int, 1);
    }
    let (workchain, prefix, seqno) = match parse_shard_part(s, &v, e0) {
        Ok(parts) => parts,
        Err(e) => return Err(e),
    };
    let shard = match ShardIdent::new(workchain, prefix) {
        Some(shard) => shard,
        None => return Err(PackageEntryIdError::InvalidShardIdent),
    };
    if e0 == n {
        return Err(PackageEntryIdError::RootHashNotFound);
    }
    let e1 = find_char(&v, e0 + 1, n, ':');
    proof {
        lemma_piece_step(t, ':', e0 + 1, n as int, e1 as int, 0);
    }
    let root_hash = match hash_from_hex(s.substring_char(e0 + 1, e1)) {
        Some(h) => h,
        None => return Err(PackageEntryIdError::InvalidRootHash),
    };
    if e1 == n {
        return Err(PackageEntryIdError::FileHashNotFound);
    }
    let e2 = find_char(&v, e1 + 1, n, ':');
    proof {
        lemma_piece_step(t, ':', e1 + 1, n as int, e2 as int, 0);
    }
    let file_hash = match hash_from_hex(s.substring_char(e1 + 1, e2)) {
        Some(h) => h,
        None => return Err(PackageEntryIdError::InvalidFileHash),
    };
    Ok(BlockId { shard, seqno, root_hash, file_hash })
}

impl PackageEntryId<BlockId> {
    /// Reads an entry identifier from a file name, as `entry_id_of_text`
    /// describes.
    pub fn from_filename(filename: &str) -> (r: Result<Self, PackageEntryIdError>)
        ensures
            match r {
                Ok(e) => entry_id_of_text(filename@) == Ok::<
                    PackageEntryId<BlockIdView>,
                    PackageEntryIdError,
                >(e@),
                Err(err) => entry_id_of_text(filename@) == Err::<
                    PackageEntryId<BlockIdView>,
                    PackageEntryIdError,
                >(err),
            },
    {
        let v = chars_of(filename);
        let n = v.len();
        let pos = find_char(&v, 0, n, '(');
        proof {
            assert(v@.subrange(0, n as int) =~= v@);
        }
        if pos == n {
            return Err(PackageEntryIdError::InvalidFileName);
        }
        proof {
            reveal_strlit("block_");
            reveal_strlit("proof_");
            reveal_strlit("prooflink_");
            assert(PACKAGE_ENTRY_BLOCK@ == block_prefix());
            assert(PACKAGE_ENTRY_PROOF@ == proof_prefix());
            assert(PACKAGE_ENTRY_PROOF_LINK@ == proof_link_prefix());
            assert(filename@.take(pos as int) =~= v@.subrange(0, pos as int));
            assert(filename@.skip(pos as int) =~= filename@.subrange(pos as int, n as int));
        }
        let rest = filename.substring_char(pos, n);
        if spells(&v, 0, pos, PACKAGE_ENTRY_BLOCK) {
            match parse_block_id(rest) {
                Ok(id) => Ok(PackageEntryId::Block(id)),
                Err(e) => Err(e),
            }
        } else if spells(&v, 0, pos, PACKAGE_ENTRY_PROOF) {
            match parse_block_id(rest) {
                Ok(id) => Ok(PackageEntryId::Proof(id)),
                Err(e) => Err(e),
            }
        } else if spells(&v, 0, pos, PACKAGE_ENTRY_PROOF_LINK) {
            match parse_block_id(rest) {
                Ok(id) => Ok(PackageEntryId::ProofLink(id)),
                Err(e) => Err(e),
            }
        } else {
            Err(PackageEntryIdError::InvalidFileName)
        }
    }
}

/// Things that have a canonical file name.
pub trait GetFileName {
    spec fn filename_text(&self) -> Seq<char>;

    fn filename(&self) -> (r: String)
        ensures
            r@ == self.filename_text(),
    ;
}

impl GetFileName for BlockId {
    open spec fn filename_text(&self) -> Seq<char> {
        block_id_text(self@)
    }

    fn filename(&self) -> (r: String) {
        proof {
            reveal_strlit("(");
            reveal_strlit(",");
            reveal_strlit("):");
            reveal_strlit(":");
        }
        let root = encode_hex_upper(vstd::array::array_as_slice(&self.root_hash));
        let file = encode_hex_upper(vstd::array::array_as_slice(&self.file_hash));
        let r = String::from_str("(");
        let r = r.concat(i32_text(self.shard.workchain).as_str());
        let r = r.concat(",");
        let r = r.concat(hex16_text(self.shard.prefix).as_str());
        let r = r.concat(",");
        let r = r.concat(u32_text(self.seqno).as_str());
        let r = r.concat("):");
        let r = r.concat(root.as_str());
        let r = r.concat(":");
        let r = r.concat(file.as_str());
        assert(r@ =~= block_id_text(self@));
        r
    }
}

impl GetFileName for PackageEntryId<BlockId> {
    open spec fn filename_text(&self) -> Seq<char> {
        entry_id_text(self@)
    }

    fn filename(&self) -> (r: String) {
        let id = match self {
            PackageEntryId::Block(id) => id,
            PackageEntryId::Proof(id) => id,
            PackageEntryId::ProofLink(id) => id,
        };
        let name = String::from_str(self.filename_prefix());
        name.concat(id.filename().as_str())
    }
}

} // verus!
