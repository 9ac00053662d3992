//! The names under which backends keep objects.
//!
//! A backend that keeps each object in a file of its own names the file
//! after the object, in a directory named after the pool; a backend that
//! keeps objects in a key-value store makes one key of both names.

use sha2::{Digest, Sha256};
use vstd::prelude::*;
use vstd::string::StringExecFns;
use vstd::utf8::encode_utf8;

use crate::bytes::put_bytes;
use crate::ident::{push_hex_byte, spec_hex_byte, ObjectId, PoolName};

verus! {

/// The SHA-256 digest of some bytes.
pub uninterp spec fn sha256_digest(data: Seq<u8>) -> Seq<u8>;

/// `Sha256::new`, `update` and `finalize`: the digest of the bytes, which
/// depends on nothing but the bytes.
#[verifier::external_body]
fn sha256(data: &[u8]) -> (r: [u8; 32])
    ensures
        r@ == sha256_digest(data@),
{
    let mut h = Sha256::new();
    h.update(data);
    h.finalize().into()
}

/// The hexadecimal digits of some bytes, two for each byte.
pub open spec fn spec_hex(bytes: Seq<u8>) -> Seq<char>
    decreases bytes.len(),
{
    if bytes.len() == 0 {
        Seq::empty()
    } else {
        spec_hex(bytes.drop_last()) + spec_hex_byte(bytes.last())
    }
}

/// The path of the file of an object, from the directory of the store: the
/// name of the pool, the first two bytes of the digest of the object's name
/// in hexadecimal, and the object's name in hexadecimal, with slashes
/// between them.
pub open spec fn spec_encode_object_id(pool: Seq<char>, object_id: Seq<u8>) -> Seq<char> {
    pool + seq!['/'] + spec_hex(sha256_digest(object_id).subrange(0, 2)) + seq!['/'] + spec_hex(
        object_id,
    )
}

/// The key of an object in a key-value store: the name of the pool, a
/// slash, and the name of the object.
pub open spec fn spec_key(pool: Seq<char>, object_id: Seq<u8>) -> Seq<u8> {
    encode_utf8(pool) + seq![0x2fu8] + object_id
}

/// Appends the hexadecimal digits of some bytes to a string.
fn push_hex(out: &mut String, bytes: &[u8])
    ensures
        final(out)@ == old(out)@ + spec_hex(bytes@),
{
    let mut i: usize = 0;
    assert(bytes@.subrange(0, 0) =~= Seq::<u8>::empty());
    assert(out@ =~= old(out)@ + spec_hex(bytes@.subrange(0, 0)));
    while i < bytes.len()
        invariant
            i <= bytes@.len(),
            out@ == old(out)@ + spec_hex(bytes@.subrange(0, i as int)),
        decreases bytes@.len() - i,
    {
        proof {
            let before = bytes@.subrange(0, i as int);
            let after = bytes@.subrange(0, i + 1);
            assert(after.drop_last() =~= before);
            assert(after.last() == bytes@[i as int]);
        }
        push_hex_byte(out, bytes[i]);
        i += 1;
        assert(out@ =~= old(out)@ + spec_hex(bytes@.subrange(0, i as int)));
    }
    assert(bytes@.subrange(0, i as int) =~= bytes@);
}

/// The path of the file of an object, from the directory of the store.
pub fn encode_object_id(pool: &PoolName, object_id: &ObjectId) -> (r: String)
    ensures
        r@ == spec_encode_object_id(pool@, object_id@),
{
    proof {
        reveal_strlit("/");
    }
    // <pool>/
    let mut result = pool.0.clone();
    result.append("/");

    let h = sha256(object_id.0.as_slice());

    // hash[0..2]/object_id
    push_hex(&mut result, &h.as_slice()[0..2]);
    result.append("/");
    push_hex(&mut result, object_id.0.as_slice());
    assert("/"@ =~= seq!['/']);
    assert(result@ =~= spec_encode_object_id(pool@, object_id@));
    result
}

/// The key of an object in a key-value store.
pub fn key(pool: &PoolName, object_id: &ObjectId) -> (r: Vec<u8>)
    ensures
        r@ == spec_key(pool@, object_id@),
{
    let mut key = Vec::new();
    put_bytes(&mut key, pool.0.as_str().as_bytes());
    key.push(0x2f);
    put_bytes(&mut key, object_id.0.as_slice());
    assert(key@ =~= spec_key(pool@, object_id@));
    key
}

} // verus!
