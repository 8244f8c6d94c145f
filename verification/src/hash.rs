//! The directory hash: SHA-1 over the sorted parent ids and the serialized
//! entry bytes.

use vstd::prelude::*;
use crate::meta::NodeId;
use crate::path::{bytes_lt, cmp_bytes, Rel};

verus! {

/// The SHA-1 digest of a byte string, named but not defined: the outside
/// hash function computes it.
pub uninterp spec fn sha1_of(bytes: Seq<u8>) -> Seq<u8>;

/// Relies on `crypto::sha1::Sha1` through `crypto::digest::Digest`: the
/// digest depends on the input bytes alone and is exactly 20 bytes long.
#[verifier::external_body]
fn sha1(bytes: &Vec<u8>) -> (r: Vec<u8>)
    ensures
        r@ == sha1_of(bytes@),
        r@.len() == 20,
{
    let mut hasher = crypto::sha1::Sha1::new();
    crypto::digest::Digest::input(&mut hasher, bytes.as_slice());
    let mut out = [0u8; 20];
    crypto::digest::Digest::result(&mut hasher, &mut out);
    out.to_vec()
}

/// A directory's node id: SHA-1 of the two parent ids in byte order followed
/// by the serialized entry. The core passes the null id for both parents.
pub open spec fn node_hash(p1: Seq<u8>, p2: Seq<u8>, content: Seq<u8>) -> Seq<u8> {
    if bytes_lt(p2, p1) {
        sha1_of(p2 + p1 + content)
    } else {
        sha1_of(p1 + p2 + content)
    }
}

/// Computes `node_hash` over the given parents and serialized entry.
pub fn compute_node(p1: &NodeId, p2: &NodeId, content: Vec<u8>) -> (r: NodeId)
    ensures
        r@ == node_hash(p1@, p2@, content@),
{
    let a = p1.to_vec();
    let b = p2.to_vec();
    let mut buf: Vec<u8>;
    let mut rest: Vec<u8>;
    match cmp_bytes(&b, &a) {
        Rel::Lt => {
            buf = b;
            rest = a;
        }
        _ => {
            buf = a;
            rest = b;
        }
    }
    buf.append(&mut rest);
    let mut content = content;
    buf.append(&mut content);
    let digest = sha1(&buf);
    NodeId::from_vec(&digest)
}

} // verus!
