//! The deterministic byte serialization used before hashing and signing.
//!
//! Any two values that encode to the same bytes are meant to be the same
//! value, and the exact byte layout is pinned here so that the producer and
//! the verifier of a signature or a digest agree byte for byte.

use vstd::prelude::*;

use crate::types::{LeafData, LeafV, TestHeader};

verus! {

/// The eight bytes of `x`, least significant first.
pub open spec fn u64_le_spec(x: u64) -> Seq<u8> {
    seq![
        (x & 0xff) as u8,
        ((x >> 8) & 0xff) as u8,
        ((x >> 16) & 0xff) as u8,
        ((x >> 24) & 0xff) as u8,
        ((x >> 32) & 0xff) as u8,
        ((x >> 40) & 0xff) as u8,
        ((x >> 48) & 0xff) as u8,
        ((x >> 56) & 0xff) as u8,
    ]
}

/// A leaf datum encodes as its block number followed by the two digests.
pub open spec fn leaf_bytes_spec(l: LeafV) -> Seq<u8> {
    u64_le_spec(l.block_number) + l.block_hash + l.para_heads_root
}

/// A header encodes as parent hash, number, state root, extrinsics root.
pub open spec fn header_bytes_spec(h: TestHeader) -> Seq<u8> {
    h.parent_hash@ + u64_le_spec(h.number) + h.state_root@ + h.extrinsics_root@
}

/// Little-endian encoding of `x`.
pub fn u64_le(x: u64) -> (r: Vec<u8>)
    ensures
        r@ == u64_le_spec(x),
{
    let mut r: Vec<u8> = Vec::new();
    r.push((x & 0xff) as u8);
    r.push(((x >> 8) & 0xff) as u8);
    r.push(((x >> 16) & 0xff) as u8);
    r.push(((x >> 24) & 0xff) as u8);
    r.push(((x >> 32) & 0xff) as u8);
    r.push(((x >> 40) & 0xff) as u8);
    r.push(((x >> 48) & 0xff) as u8);
    r.push(((x >> 56) & 0xff) as u8);
    proof {
        assert(r@ =~= u64_le_spec(x));
    }
    r
}

/// Appends all of `src` to `dst`.
pub fn push_bytes(dst: &mut Vec<u8>, src: &Vec<u8>)
    ensures
        final(dst)@ == old(dst)@ + src@,
{
    let n = src.len();
    let mut i: usize = 0;
    while i < n
        invariant
            n == src@.len(),
            i <= n,
            dst@ == old(dst)@ + src@.take(i as int),
        decreases n - i,
    {
        dst.push(src[i]);
        proof {
            assert(old(dst)@ + src@.take(i as int) + seq![src@[i as int]] =~= old(dst)@
                + src@.take(i + 1));
        }
        i = i + 1;
    }
    proof {
        assert(src@.take(n as int) =~= src@);
    }
}

/// A fresh byte vector with the same contents.
pub fn copy_bytes(src: &Vec<u8>) -> (r: Vec<u8>)
    ensures
        r@ == src@,
{
    let mut r: Vec<u8> = Vec::new();
    push_bytes(&mut r, src);
    proof {
        assert(Seq::<u8>::empty() + src@ =~= src@);
    }
    r
}

/// The deep view of a byte vector is its view.
pub proof fn lemma_bytes_deep_view(v: Vec<u8>)
    ensures
        v.deep_view() == v@,
{
    assert(v.deep_view() =~= v@);
}

/// Whether two byte vectors hold the same bytes.
pub fn bytes_eq(a: &Vec<u8>, b: &Vec<u8>) -> (r: bool)
    ensures
        r == (a@ == b@),
{
    if a.len() != b.len() {
        proof {
            assert(a@.len() != b@.len());
        }
        return false;
    }
    let n = a.len();
    let mut i: usize = 0;
    while i < n
        invariant
            n == a@.len(),
            n == b@.len(),
            i <= n,
            forall|j: int| 0 <= j < i ==> a@[j] == b@[j],
        decreases n - i,
    {
        if a[i] != b[i] {
            return false;
        }
        i = i + 1;
    }
    proof {
        assert(a@ =~= b@);
    }
    true
}

/// The encoded form of a header, as the verifier and the producer both
/// compute it.
pub fn header_bytes(h: &TestHeader) -> (r: Vec<u8>)
    ensures
        r@ == header_bytes_spec(*h),
{
    let mut r: Vec<u8> = copy_bytes(&h.parent_hash);
    let num = u64_le(h.number);
    push_bytes(&mut r, &num);
    push_bytes(&mut r, &h.state_root);
    push_bytes(&mut r, &h.extrinsics_root);
    r
}

/// A fresh copy of a list of byte vectors.
pub fn copy_bytes_list(src: &Vec<Vec<u8>>) -> (r: Vec<Vec<u8>>)
    ensures
        r.deep_view() == src.deep_view(),
{
    let n = src.len();
    let mut r: Vec<Vec<u8>> = Vec::new();
    let mut i: usize = 0;
    while i < n
        invariant
            n == src@.len(),
            i <= n,
            r@.len() == i,
            forall|j: int| 0 <= j < i ==> (#[trigger] r@[j])@ == src@[j]@,
        decreases n - i,
    {
        r.push(copy_bytes(&src[i]));
        i = i + 1;
    }
    proof {
        assert forall|j: int| 0 <= j < n implies #[trigger] r.deep_view()[j]
            == src.deep_view()[j] by {
            lemma_bytes_deep_view(r@[j]);
            lemma_bytes_deep_view(src@[j]);
            assert(r.deep_view()[j] == r@[j].deep_view());
            assert(src.deep_view()[j] == src@[j].deep_view());
        }
        assert(r.deep_view() =~= src.deep_view());
    }
    r
}

/// The encoded form of a leaf datum.
pub fn leaf_bytes(l: &LeafData) -> (r: Vec<u8>)
    ensures
        r@ == leaf_bytes_spec(l@),
{
    let mut r = u64_le(l.block_number);
    push_bytes(&mut r, &l.block_hash);
    push_bytes(&mut r, &l.para_heads_root);
    r
}

} // verus!
