//! Calls into std and outside crates, with the contracts that their
//! documentation and sources give.

use everscale_types::cell::Load;
use everscale_types::models::{Block, BlockProof};
use sha2::Digest;
use vstd::prelude::*;
use vstd::string::StringSliceAdditionalSpecFns;
use vstd::utf8::valid_utf8;

use crate::block_id::{BlockId, ShardIdent};
use crate::text::{
    bytes_of_hex, dec_text, hex_text, i32_of_text, signed_dec_text, u32_of_text, u64_of_hex_text,
    upper_hex,
};

verus! {

#[verifier::external_type_specification]
#[verifier::external_body]
pub struct ExBlock(everscale_types::models::Block);

#[verifier::external_type_specification]
#[verifier::external_body]
pub struct ExBlockProof(everscale_types::models::BlockProof);

/// Relies on `std::str::from_utf8`: it succeeds exactly on valid UTF-8 and
/// then views the same bytes as text.
#[verifier::external_body]
pub(crate) fn str_from_utf8(b: &[u8]) -> (r: Option<&str>)
    ensures
        r is Some <==> valid_utf8(b@),
        r matches Some(s) ==> s.spec_bytes() == b@,
{
    std::str::from_utf8(b).ok()
}

/// Relies on `<i32 as FromStr>::from_str`: an optional sign and decimal
/// digits, within range.
#[verifier::external_body]
pub(crate) fn parse_i32(s: &str) -> (r: Option<i32>)
    ensures
        r == i32_of_text(s@),
{
    s.parse::<i32>().ok()
}

/// Relies on `<u32 as FromStr>::from_str`: an optional `+` and decimal
/// digits, within range.
#[verifier::external_body]
pub(crate) fn parse_u32(s: &str) -> (r: Option<u32>)
    ensures
        r == u32_of_text(s@),
{
    s.parse::<u32>().ok()
}

/// Relies on `u64::from_str_radix` with radix 16: an optional `+` and hex
/// digits of either case, within range.
#[verifier::external_body]
pub(crate) fn parse_hex_u64(s: &str) -> (r: Option<u64>)
    ensures
        r == u64_of_hex_text(s@),
{
    u64::from_str_radix(s, 16).ok()
}

/// Relies on `<i32 as Display>::fmt` through `to_string`: a `-` for
/// negative numbers, then the shortest decimal digits.
#[verifier::external_body]
pub(crate) fn i32_text(x: i32) -> (r: String)
    ensures
        r@ == signed_dec_text(x as int),
{
    x.to_string()
}

/// Relies on `<u32 as Display>::fmt` through `to_string`: the shortest
/// decimal digits.
#[verifier::external_body]
pub(crate) fn u32_text(x: u32) -> (r: String)
    ensures
        r@ == dec_text(x as nat),
{
    x.to_string()
}

/// Relies on `<u64 as LowerHex>::fmt` with zero padding to width 16:
/// sixteen lower-case hex digits.
#[verifier::external_body]
pub(crate) fn hex16_text(x: u64) -> (r: String)
    ensures
        r@ == hex_text(x as nat, 16),
{
    format!("{:016x}", x)
}

/// Relies on `hex::decode`: two digits of either case per byte; an odd
/// length or a character that is no hex digit fails.
#[verifier::external_body]
pub(crate) fn decode_hex(s: &str) -> (r: Option<Vec<u8>>)
    ensures
        r is Some <==> bytes_of_hex(s@) is Some,
        r matches Some(v) ==> Some(v@) == bytes_of_hex(s@),
{
    hex::decode(s).ok()
}

/// Relies on `hex::encode_upper`: two upper-case digits per byte.
#[verifier::external_body]
pub(crate) fn encode_hex_upper(b: &[u8]) -> (r: String)
    ensures
        r@ == upper_hex(b@),
{
    hex::encode_upper(b)
}

/// The SHA-256 digest of some bytes.
pub uninterp spec fn sha256_of(data: Seq<u8>) -> Seq<u8>;

/// Relies on `sha2::Sha256::digest`: the digest depends on the bytes alone.
#[verifier::external_body]
pub(crate) fn sha256_digest(data: &[u8]) -> (r: [u8; 32])
    ensures
        r@ == sha256_of(data@),
{
    sha2::Sha256::digest(data).into()
}

/// The representation hash of the root cell of a serialized bag of cells,
/// or `None` when the bytes do not decode.
pub uninterp spec fn boc_root_hash(data: Seq<u8>) -> Option<Seq<u8>>;

/// Whether the root cell of a serialized bag of cells loads as a block.
pub uninterp spec fn boc_loads_block(data: Seq<u8>) -> bool;

/// Relies on `everscale_types::boc::Boc::decode`, `Cell::repr_hash` and
/// `Block::load_from` on the root cell: each depends on the bytes alone.
/// `None` when the bytes do not decode; otherwise the root hash and the
/// block, if the root loads as one.
#[verifier::external_body]
pub(crate) fn decode_block_boc(data: &[u8]) -> (r: Option<([u8; 32], Option<Block>)>)
    ensures
        r is Some <==> boc_root_hash(data@) is Some,
        r matches Some(p) ==> Some(p.0@) == boc_root_hash(data@) && (p.1 is Some
            <==> boc_loads_block(data@)),
{
    let root = everscale_types::boc::Boc::decode(data).ok()?;
    let hash = root.repr_hash().0;
    let block = match root.as_slice() {
        Ok(mut slice) => Block::load_from(&mut slice).ok(),
        Err(_) => None,
    };
    Some((hash, block))
}

/// What a serialized block proof says: the identifier it is for, and
/// whether it carries signatures (a full proof, not a proof link); `None`
/// when the bytes do not decode or do not load as a proof.
pub uninterp spec fn boc_proof_view(data: Seq<u8>) -> Option<(BlockId, bool)>;

/// Relies on `everscale_types::boc::Boc::decode` and `BlockProof::load_from`
/// on the root cell, which depend on the bytes alone; reads the proof's
/// `proof_for` and whether its `signatures` are present.
#[verifier::external_body]
pub(crate) fn decode_proof_boc(data: &[u8]) -> (r: Option<(BlockProof, BlockId, bool)>)
    ensures
        r is Some <==> boc_proof_view(data@) is Some,
        r matches Some(p) ==> boc_proof_view(data@) == Some((p.1, p.2)),
{
    let root = everscale_types::boc::Boc::decode(data).ok()?;
    let proof = BlockProof::load_from(&mut root.as_slice().ok()?).ok()?;
    let id = &proof.proof_for;
    let shard = ShardIdent { workchain: id.shard.workchain(), prefix: id.shard.prefix() };
    let id = BlockId { shard, seqno: id.seqno, root_hash: id.root_hash.0, file_hash: id.file_hash.0 };
    let signed = proof.signatures.is_some();
    Some((proof, id, signed))
}

} // verus!
