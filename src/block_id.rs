//! Shard identifiers on the binary shard tree, and full block identifiers.

use vstd::prelude::*;

verus! {

/// Tagged prefix of the full (unsplit) shard of a workchain.
pub const PREFIX_FULL: u64 = 0x8000_0000_0000_0000;

/// Workchain of the masterchain.
pub const MASTERCHAIN_WORKCHAIN: i32 = -1;

/// The tag bit of a tagged prefix: its lowest set bit, which marks where
/// the prefix ends.
pub open spec fn prefix_tag(prefix: u64) -> u64 {
    prefix & ((!prefix + 1) as u64)
}

/// A shard: a workchain and a tagged prefix on the shard tree.
#[derive(Clone, Copy, PartialEq, Eq, Structural, Debug, Hash, PartialOrd, Ord)]
pub struct ShardIdent {
    pub workchain: i32,
    pub prefix: u64,
}

/// A tagged prefix that encodes a legal shard of the given workchain: a tag
/// bit is present, the three lowest bits are unused (a depth of at most 60),
/// and the masterchain is never split.
pub open spec fn valid_shard(workchain: i32, prefix: u64) -> bool {
    &&& prefix != 0
    &&& prefix & 7 == 0
    &&& (workchain == MASTERCHAIN_WORKCHAIN ==> prefix == PREFIX_FULL)
}

impl ShardIdent {
    /// The two children of a shard, or `None` at the maximal depth.
    pub open spec fn spec_split(self) -> Option<(ShardIdent, ShardIdent)> {
        if self.prefix & 15 != 0 {
            None
        } else {
            let t = prefix_tag(self.prefix) >> 1;
            Some(
                (
                    ShardIdent { workchain: self.workchain, prefix: (self.prefix - t) as u64 },
                    ShardIdent { workchain: self.workchain, prefix: (self.prefix + t) as u64 },
                ),
            )
        }
    }

    /// The parent of a shard, or `None` for the full shard.
    pub open spec fn spec_merge(self) -> Option<ShardIdent> {
        if self.prefix == PREFIX_FULL {
            None
        } else {
            let t = prefix_tag(self.prefix);
            Some(
                ShardIdent {
                    workchain: self.workchain,
                    prefix: ((self.prefix - t) as u64) | ((t << 1) as u64),
                },
            )
        }
    }

    pub open spec fn is_masterchain_spec(self) -> bool {
        self.workchain == MASTERCHAIN_WORKCHAIN
    }

    /// Builds a shard from its parts, or `None` where the tagged prefix
    /// encodes no legal shard.
    pub fn new(workchain: i32, prefix: u64) -> (r: Option<ShardIdent>)
        ensures
            r == (if valid_shard(workchain, prefix) {
                Some(ShardIdent { workchain, prefix })
            } else {
                None
            }),
    {
        if prefix == 0 || prefix & 7 != 0 || (workchain == MASTERCHAIN_WORKCHAIN && prefix
            != PREFIX_FULL) {
            None
        } else {
            Some(ShardIdent { workchain, prefix })
        }
    }

    /// The full shard of a workchain.
    pub fn new_full(workchain: i32) -> (r: ShardIdent)
        ensures
            r == (ShardIdent { workchain, prefix: PREFIX_FULL }),
    {
        ShardIdent { workchain, prefix: PREFIX_FULL }
    }

    pub fn workchain(&self) -> (r: i32)
        ensures
            r == self.workchain,
    {
        self.workchain
    }

    pub fn prefix(&self) -> (r: u64)
        ensures
            r == self.prefix,
    {
        self.prefix
    }

    pub fn is_masterchain(&self) -> (r: bool)
        ensures
            r == self.is_masterchain_spec(),
    {
        self.workchain == MASTERCHAIN_WORKCHAIN
    }

    fn tag(&self) -> (r: u64)
        ensures
            r == prefix_tag(self.prefix),
    {
        let p = self.prefix;
        if p == 0 {
            assert(prefix_tag(0) == 0) by (bit_vector);
            0
        } else {
            assert(p != 0 ==> !p < 0xffff_ffff_ffff_ffffu64) by (bit_vector);
            p & (!p + 1)
        }
    }

    /// Splits the shard into its left and right children.
    pub fn split(&self) -> (r: Option<(ShardIdent, ShardIdent)>)
        ensures
            r == self.spec_split(),
    {
        let p = self.prefix;
        if p & 15 != 0 {
            None
        } else {
            let t = self.tag() >> 1;
            assert(t == prefix_tag(p) >> 1 ==> t <= p && p + t <= 0xffff_ffff_ffff_ffffu64)
                by (bit_vector);
            Some(
                (
                    ShardIdent { workchain: self.workchain, prefix: p - t },
                    ShardIdent { workchain: self.workchain, prefix: p + t },
                ),
            )
        }
    }

    /// The shard that this one was split from.
    pub fn merge(&self) -> (r: Option<ShardIdent>)
        ensures
            r == self.spec_merge(),
    {
        let p = self.prefix;
        if p == PREFIX_FULL {
            None
        } else {
            let t = self.tag();
            assert(t == prefix_tag(p) ==> t <= p) by (bit_vector);
            Some(ShardIdent { workchain: self.workchain, prefix: (p - t) | (t << 1) })
        }
    }
}

/// A full block identifier.
#[derive(Clone, Copy, PartialEq, Eq, Debug, Hash, PartialOrd, Ord)]
pub struct BlockId {
    pub shard: ShardIdent,
    pub seqno: u32,
    /// Representation hash of the root cell of the block.
    pub root_hash: [u8; 32],
    /// Hash of the serialized block file.
    pub file_hash: [u8; 32],
}

/// A block identifier with its hashes as sequences of bytes.
pub struct BlockIdView {
    pub shard: ShardIdent,
    pub seqno: u32,
    pub root_hash: Seq<u8>,
    pub file_hash: Seq<u8>,
}

impl View for BlockId {
    type V = BlockIdView;

    open spec fn view(&self) -> BlockIdView {
        BlockIdView {
            shard: self.shard,
            seqno: self.seqno,
            root_hash: self.root_hash@,
            file_hash: self.file_hash@,
        }
    }
}

/// Identifiers are equal exactly when their views are.
pub proof fn lemma_view_injective(a: BlockId, b: BlockId)
    ensures
        (a@ == b@) <==> (a == b),
{
    broadcast use vstd::array::group_array_axioms;

    if a@ == b@ {
        assert(a.root_hash =~= b.root_hash);
        assert(a.file_hash =~= b.file_hash);
    }
}

/// Byte strings compared lexicographically: `a` comes before `b`.
pub open spec fn bytes_lt(a: Seq<u8>, b: Seq<u8>) -> bool
    decreases a.len(),
{
    if a.len() == 0 || b.len() == 0 {
        false
    } else if a[0] != b[0] {
        a[0] < b[0]
    } else {
        bytes_lt(a.drop_first(), b.drop_first())
    }
}

/// Lexicographic order on byte strings of one length is a strict total order.
pub proof fn lemma_bytes_order(a: Seq<u8>, b: Seq<u8>, c: Seq<u8>)
    requires
        a.len() == b.len() == c.len(),
    ensures
        !bytes_lt(a, a),
        bytes_lt(a, b) ==> !bytes_lt(b, a),
        bytes_lt(a, b) && bytes_lt(b, c) ==> bytes_lt(a, c),
        a != b ==> bytes_lt(a, b) || bytes_lt(b, a),
    decreases a.len(),
{
    if a.len() > 0 {
        lemma_bytes_order(a.drop_first(), b.drop_first(), c.drop_first());
        if a != b && a[0] == b[0] {
            assert(a =~= seq![a[0]] + a.drop_first());
            assert(b =~= seq![b[0]] + b.drop_first());
        }
    } else {
        assert(a =~= b);
    }
}

/// Block identifiers ordered by workchain, shard prefix, seqno, root hash
/// and file hash, the order of the derived `Ord`.
pub open spec fn id_lt(a: BlockIdView, b: BlockIdView) -> bool {
    if a.shard.workchain != b.shard.workchain {
        a.shard.workchain < b.shard.workchain
    } else if a.shard.prefix != b.shard.prefix {
        a.shard.prefix < b.shard.prefix
    } else if a.seqno != b.seqno {
        a.seqno < b.seqno
    } else if a.root_hash != b.root_hash {
        bytes_lt(a.root_hash, b.root_hash)
    } else {
        bytes_lt(a.file_hash, b.file_hash)
    }
}

/// The hashes of an identifier's view are 32 bytes long, as those of every
/// `BlockId` are.
pub open spec fn hashes_sized(v: BlockIdView) -> bool {
    v.root_hash.len() == 32 && v.file_hash.len() == 32
}

/// The view of a `BlockId` has 32-byte hashes.
pub proof fn lemma_view_sized(id: BlockId)
    ensures
        hashes_sized(id@),
{
    broadcast use vstd::array::group_array_axioms;

}

/// The order on block identifiers is a strict total order.
pub proof fn lemma_id_order(a: BlockIdView, b: BlockIdView, c: BlockIdView)
    requires
        hashes_sized(a),
        hashes_sized(b),
        hashes_sized(c),
    ensures
        !id_lt(a, a),
        id_lt(a, b) ==> !id_lt(b, a),
        id_lt(a, b) && id_lt(b, c) ==> id_lt(a, c),
        a != b ==> id_lt(a, b) || id_lt(b, a),
{
    lemma_bytes_order(a.root_hash, b.root_hash, c.root_hash);
    lemma_bytes_order(a.file_hash, b.file_hash, c.file_hash);
    lemma_bytes_order(a.root_hash, c.root_hash, b.root_hash);
    lemma_bytes_order(a.file_hash, c.file_hash, b.file_hash);
    lemma_bytes_order(b.root_hash, a.root_hash, c.root_hash);
    lemma_bytes_order(b.file_hash, a.file_hash, c.file_hash);
}

/// Compares two hashes lexicographically.
pub fn hash_lt(a: &[u8; 32], b: &[u8; 32]) -> (r: bool)
    ensures
        r == bytes_lt(a@, b@),
{
    broadcast use vstd::array::group_array_axioms;

    let mut i: usize = 0;
    assert(a@.skip(0) =~= a@ && b@.skip(0) =~= b@);
    while i < 32
        invariant
            i <= 32,
            a@.len() == 32 && b@.len() == 32,
            bytes_lt(a@, b@) == bytes_lt(a@.skip(i as int), b@.skip(i as int)),
        decreases 32 - i,
    {
        let ghost sa = a@.skip(i as int);
        let ghost sb = b@.skip(i as int);
        assert(sa[0] == a@[i as int] && sb[0] == b@[i as int]);
        if a[i] != b[i] {
            return a[i] < b[i];
        }
        assert(sa.drop_first() =~= a@.skip(i + 1));
        assert(sb.drop_first() =~= b@.skip(i + 1));
        i = i + 1;
    }
    assert(a@.skip(32).len() == 0);
    false
}

/// Compares two hashes byte by byte.
pub fn same_hash(a: &[u8; 32], b: &[u8; 32]) -> (r: bool)
    ensures
        r == (*a == *b),
        r == (a@ == b@),
{
    broadcast use vstd::array::group_array_axioms;

    let mut i: usize = 0;
    while i < 32
        invariant
            i <= 32,
            forall|j: int| 0 <= j < i ==> a@[j] == b@[j],
        decreases 32 - i,
    {
        if a[i] != b[i] {
            return false;
        }
        i = i + 1;
    }
    assert(*a =~= *b);
    true
}

impl BlockId {
    /// Whether this identifier comes before `other` in the order of `id_lt`.
    pub fn precedes(&self, other: &BlockId) -> (r: bool)
        ensures
            r == id_lt(self@, other@),
    {
        if self.shard.workchain != other.shard.workchain {
            self.shard.workchain < other.shard.workchain
        } else if self.shard.prefix != other.shard.prefix {
            self.shard.prefix < other.shard.prefix
        } else if self.seqno != other.seqno {
            self.seqno < other.seqno
        } else if !same_hash(&self.root_hash, &other.root_hash) {
            hash_lt(&self.root_hash, &other.root_hash)
        } else {
            hash_lt(&self.file_hash, &other.file_hash)
        }
    }

    /// Whether two identifiers are the same in every field.
    pub fn same(&self, other: &BlockId) -> (r: bool)
        ensures
            r == (*self == *other),
            r == (self@ == other@),
    {
        self.shard == other.shard && self.seqno == other.seqno && same_hash(
            &self.root_hash,
            &other.root_hash,
        ) && same_hash(&self.file_hash, &other.file_hash)
    }

    pub fn is_masterchain(&self) -> (r: bool)
        ensures
            r == self.shard.is_masterchain_spec(),
    {
        self.shard.is_masterchain()
    }
}

} // verus!
