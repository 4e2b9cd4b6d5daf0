use vstd::prelude::*;
use vstd::utf8::{decode_utf8, encode_utf8, encode_utf8_decode_utf8};

use crate::hashing::{sha256, sha256_of};

verus! {

/// One item's record: its identifier, its owner's account and its metadata.
pub struct NFTLeaf {
    pub nft_id: String,
    pub owner: String,
    pub metadata: String,
}

/// The mathematical value of a leaf.
pub struct LeafModel {
    pub nft_id: Seq<char>,
    pub owner: Seq<char>,
    pub metadata: Seq<char>,
}

impl View for NFTLeaf {
    type V = LeafModel;

    open spec fn view(&self) -> LeafModel {
        LeafModel { nft_id: self.nft_id@, owner: self.owner@, metadata: self.metadata@ }
    }
}

/// The eight big-endian bytes of `n`.
pub open spec fn u64_be(n: u64) -> Seq<u8> {
    seq![
        (n >> 56u64) as u8,
        (n >> 48u64) as u8,
        (n >> 40u64) as u8,
        (n >> 32u64) as u8,
        (n >> 24u64) as u8,
        (n >> 16u64) as u8,
        (n >> 8u64) as u8,
        n as u8,
    ]
}

/// One field: the length of its UTF-8 bytes as a big-endian `u64`, then the bytes.
pub open spec fn encode_field(s: Seq<char>) -> Seq<u8> {
    u64_be(encode_utf8(s).len() as u64) + encode_utf8(s)
}

/// The canonical encoding of a leaf: its three fields in a fixed order.
pub open spec fn encode_leaf(l: LeafModel) -> Seq<u8> {
    encode_field(l.nft_id) + encode_field(l.owner) + encode_field(l.metadata)
}

/// The digest of a leaf: SHA-256 of its canonical encoding.
pub open spec fn leaf_digest(l: LeafModel) -> Seq<u8> {
    sha256_of(encode_leaf(l))
}

fn push_field(out: &mut Vec<u8>, s: &str)
    ensures
        final(out)@ == old(out)@ + encode_field(s@),
{
    let bytes = s.as_bytes();
    let n = bytes.len() as u64;
    assert(bytes@ == encode_utf8(s@));
    out.push((n >> 56u64) as u8);
    out.push((n >> 48u64) as u8);
    out.push((n >> 40u64) as u8);
    out.push((n >> 32u64) as u8);
    out.push((n >> 24u64) as u8);
    out.push((n >> 16u64) as u8);
    out.push((n >> 8u64) as u8);
    out.push(n as u8);
    let ghost head = out@;
    assert(head =~= old(out)@ + u64_be(n));
    let mut i: usize = 0;
    while i < bytes.len()
        invariant
            i <= bytes@.len(),
            out@ =~= head + bytes@.take(i as int),
        decreases bytes@.len() - i,
    {
        out.push(bytes[i]);
        i = i + 1;
        assert(bytes@.take(i as int) =~= bytes@.take(i - 1) + seq![bytes@[i - 1]]);
    }
    assert(bytes@.take(i as int) =~= bytes@);
    assert(out@ =~= old(out)@ + encode_field(s@));
}

impl NFTLeaf {
    /// The canonical byte encoding of the leaf.
    pub fn encode(&self) -> (r: Vec<u8>)
        ensures
            r@ == encode_leaf(self@),
    {
        let mut out: Vec<u8> = Vec::new();
        push_field(&mut out, self.nft_id.as_str());
        push_field(&mut out, self.owner.as_str());
        push_field(&mut out, self.metadata.as_str());
        assert(out@ =~= encode_leaf(self@));
        out
    }

    /// The 32-byte digest of the leaf.
    pub fn digest(&self) -> (r: [u8; 32])
        ensures
            r@ == leaf_digest(self@),
    {
        let bytes = self.encode();
        sha256(bytes.as_slice())
    }
}

/// A leaf's digest is a function of its fields alone: equal leaves have
/// equal digests, whenever and wherever they are computed.
pub proof fn digest_deterministic(a: LeafModel, b: LeafModel)
    requires
        a.nft_id == b.nft_id,
        a.owner == b.owner,
        a.metadata == b.metadata,
    ensures
        leaf_digest(a) == leaf_digest(b),
{
    assert(a == b);
}

proof fn lemma_u64_be_injective(a: u64, b: u64)
    requires
        u64_be(a) == u64_be(b),
    ensures
        a == b,
{
    assert(u64_be(a)[0] == u64_be(b)[0]);
    assert(u64_be(a)[1] == u64_be(b)[1]);
    assert(u64_be(a)[2] == u64_be(b)[2]);
    assert(u64_be(a)[3] == u64_be(b)[3]);
    assert(u64_be(a)[4] == u64_be(b)[4]);
    assert(u64_be(a)[5] == u64_be(b)[5]);
    assert(u64_be(a)[6] == u64_be(b)[6]);
    assert(u64_be(a)[7] == u64_be(b)[7]);
    assert(((a >> 56u64) as u8 == (b >> 56u64) as u8 && (a >> 48u64) as u8 == (b >> 48u64) as u8
        && (a >> 40u64) as u8 == (b >> 40u64) as u8 && (a >> 32u64) as u8 == (b >> 32u64) as u8
        && (a >> 24u64) as u8 == (b >> 24u64) as u8 && (a >> 16u64) as u8 == (b >> 16u64) as u8
        && (a >> 8u64) as u8 == (b >> 8u64) as u8 && a as u8 == b as u8) ==> a == b) by (bit_vector);
}

/// The byte length of a field fits the eight bytes that carry it.
pub open spec fn field_fits(s: Seq<char>) -> bool {
    encode_utf8(s).len() <= u64::MAX
}

proof fn lemma_field_prefix(s: Seq<char>, t: Seq<char>, rest1: Seq<u8>, rest2: Seq<u8>)
    requires
        field_fits(s),
        field_fits(t),
        encode_field(s) + rest1 == encode_field(t) + rest2,
    ensures
        s == t,
        rest1 == rest2,
{
    let x = encode_field(s) + rest1;
    let es = encode_utf8(s);
    let et = encode_utf8(t);
    assert(x.subrange(0, 8) =~= u64_be(es.len() as u64));
    assert(x.subrange(0, 8) =~= u64_be(et.len() as u64));
    lemma_u64_be_injective(es.len() as u64, et.len() as u64);
    assert(es.len() == et.len());
    assert(x.subrange(8, 8 + es.len() as int) =~= es);
    assert(x.subrange(8, 8 + et.len() as int) =~= et);
    encode_utf8_decode_utf8(s);
    encode_utf8_decode_utf8(t);
    assert(decode_utf8(es) == s);
    assert(x.subrange(8 + es.len() as int, x.len() as int) =~= rest1);
    assert(x.subrange(8 + et.len() as int, x.len() as int) =~= rest2);
}

/// Distinct leaves have distinct encodings: the encoding determines every field.
pub proof fn encoding_injective(a: LeafModel, b: LeafModel)
    requires
        field_fits(a.nft_id),
        field_fits(a.owner),
        field_fits(a.metadata),
        field_fits(b.nft_id),
        field_fits(b.owner),
        field_fits(b.metadata),
        encode_leaf(a) == encode_leaf(b),
    ensures
        a == b,
{
    let a23 = encode_field(a.owner) + encode_field(a.metadata);
    let b23 = encode_field(b.owner) + encode_field(b.metadata);
    assert(encode_leaf(a) =~= encode_field(a.nft_id) + a23);
    assert(encode_leaf(b) =~= encode_field(b.nft_id) + b23);
    lemma_field_prefix(a.nft_id, b.nft_id, a23, b23);
    lemma_field_prefix(a.owner, b.owner, encode_field(a.metadata), encode_field(b.metadata));
    assert(encode_field(a.metadata) + Seq::<u8>::empty() =~= encode_field(a.metadata));
    assert(encode_field(b.metadata) + Seq::<u8>::empty() =~= encode_field(b.metadata));
    lemma_field_prefix(a.metadata, b.metadata, Seq::empty(), Seq::empty());
}

} // verus!
