//! The two hashes of the placement engine: one over the traversal state, one
//! over an object's name.
//!
//! Both are the Fx hash: a state of 64 bits takes in one word of 64 bits at a
//! time. The low 32 bits of the last state are the hash. Object names are
//! cut into little-endian words here, so that every machine computes the
//! same group for the same name.

use vstd::prelude::*;

use crate::ident::{GroupId, ObjectId};

verus! {

/// The multiplier of the Fx hash.
pub const FX_SEED: u64 = 0x517cc1b727220a95;

/// The state of the hash after it took in a word: the old state turned
/// left by five bits, with the word laid over it, times the multiplier, cut
/// to 64 bits.
pub open spec fn spec_fx_step(state: u64, word: u64) -> u64 {
    vstd::wrapping::u64_specs::wrapping_mul(((state << 5) | (state >> 59)) ^ word, FX_SEED)
}

/// The state of the hash after it took in the words in order, from a state
/// of zero.
pub open spec fn spec_fx_hash(words: Seq<u64>) -> u64
    decreases words.len(),
{
    if words.len() == 0 {
        0
    } else {
        spec_fx_step(spec_fx_hash(words.drop_last()), words.last())
    }
}

/// Taking in one more word is one more step.
pub proof fn lemma_fx_push(words: Seq<u64>, word: u64)
    ensures
        spec_fx_hash(words.push(word)) == spec_fx_step(spec_fx_hash(words), word),
{
    assert(words.push(word).drop_last() =~= words);
}

/// Takes a word into the hash.
fn fx_step(state: u64, word: u64) -> (r: u64)
    ensures
        r == spec_fx_step(state, word),
{
    (((state << 5) | (state >> 59)) ^ word).wrapping_mul(FX_SEED)
}

/// The low 32 bits of a 64-bit hash.
pub open spec fn low32(h: u64) -> u32 {
    (h & 0xffff_ffff) as u32
}

fn truncate32(h: u64) -> (r: u32)
    ensures
        r == low32(h),
{
    let low: u64 = h & 0xffff_ffff;
    assert(low <= 0xffff_ffff) by (bit_vector)
        requires
            low == h & 0xffff_ffff,
    ;
    low as u32
}

/// The words that stand for one step of a traversal.
pub open spec fn spec_hash_words(
    level: u32,
    group: u32,
    replica_num: u32,
    attempt: u32,
    idx: u32,
) -> Seq<u64> {
    seq![level as u64, group as u64, replica_num as u64, attempt as u64, idx as u64]
}

/// The hash of one step of a traversal.
pub open spec fn spec_hash(level: u32, group: u32, replica_num: u32, attempt: u32, idx: u32) -> u32 {
    low32(spec_fx_hash(spec_hash_words(level, group, replica_num, attempt, idx)))
}

/// Hashes the state of a traversal: the level in the tree, the group that is
/// being placed, the replica, the attempt and the index of a child.
pub fn compute_hash(level: u32, group_id: &GroupId, replica_num: u32, attempt: u32, idx: u32) -> (r: u32)
    ensures
        r == spec_hash(level, group_id.0, replica_num, attempt, idx),
{
    let ghost words = spec_hash_words(level, group_id.0, replica_num, attempt, idx);
    let h = fx_step(0, level as u64);
    let h = fx_step(h, group_id.0 as u64);
    let h = fx_step(h, replica_num as u64);
    let h = fx_step(h, attempt as u64);
    let h = fx_step(h, idx as u64);
    proof {
        assert(words.subrange(0, 0) =~= Seq::<u64>::empty());
        lemma_fx_push(words.subrange(0, 0), words[0]);
        assert(words.subrange(0, 0).push(words[0]) =~= words.subrange(0, 1));
        lemma_fx_push(words.subrange(0, 1), words[1]);
        assert(words.subrange(0, 1).push(words[1]) =~= words.subrange(0, 2));
        lemma_fx_push(words.subrange(0, 2), words[2]);
        assert(words.subrange(0, 2).push(words[2]) =~= words.subrange(0, 3));
        lemma_fx_push(words.subrange(0, 3), words[3]);
        assert(words.subrange(0, 3).push(words[3]) =~= words.subrange(0, 4));
        lemma_fx_push(words.subrange(0, 4), words[4]);
        assert(words.subrange(0, 4).push(words[4]) =~= words);
    }
    truncate32(h)
}

/// Eight bytes read as a little-endian word.
pub open spec fn le_u64(b: Seq<u8>) -> u64
    recommends
        b.len() >= 8,
{
    (b[0] as u64) | (b[1] as u64) << 8 | (b[2] as u64) << 16 | (b[3] as u64) << 24
        | (b[4] as u64) << 32 | (b[5] as u64) << 40 | (b[6] as u64) << 48 | (b[7] as u64) << 56
}

/// Four bytes read as a little-endian word.
pub open spec fn le_u32(b: Seq<u8>) -> u64
    recommends
        b.len() >= 4,
{
    (b[0] as u64) | (b[1] as u64) << 8 | (b[2] as u64) << 16 | (b[3] as u64) << 24
}

/// Each byte as a word of its own.
pub open spec fn byte_words(b: Seq<u8>) -> Seq<u64> {
    Seq::new(b.len(), |i: int| b[i] as u64)
}

/// The words that stand for an object's name: eight bytes at a time while
/// eight are left, then four if four are left, then the rest byte by byte.
pub open spec fn object_words(b: Seq<u8>) -> Seq<u64>
    decreases b.len(),
{
    if b.len() >= 8 {
        seq![le_u64(b)] + object_words(b.subrange(8, b.len() as int))
    } else if b.len() >= 4 {
        seq![le_u32(b)] + byte_words(b.subrange(4, b.len() as int))
    } else {
        byte_words(b)
    }
}

/// The hash of an object's name.
pub open spec fn spec_object_hash(name: Seq<u8>) -> u32 {
    low32(spec_fx_hash(object_words(name)))
}

/// Hashes an object's name. The result depends on the bytes of the name and
/// on nothing else.
pub fn compute_object_hash(object_id: &ObjectId) -> (r: u32)
    ensures
        r == spec_object_hash(object_id@),
{
    let bytes = &object_id.0;
    let n = bytes.len();
    let mut h: u64 = 0;
    let mut pos: usize = 0;
    let ghost mut taken: Seq<u64> = Seq::empty();
    assert(bytes@.subrange(0, n as int) =~= bytes@);
    assert(taken + object_words(bytes@) =~= object_words(bytes@));
    while n - pos >= 8
        invariant
            pos <= n,
            n == bytes@.len(),
            h == spec_fx_hash(taken),
            taken + object_words(bytes@.subrange(pos as int, n as int)) == object_words(bytes@),
        decreases n - pos,
    {
        let word: u64 = (bytes[pos] as u64) | (bytes[pos + 1] as u64) << 8 | (bytes[pos + 2] as u64)
            << 16 | (bytes[pos + 3] as u64) << 24 | (bytes[pos + 4] as u64) << 32 | (bytes[pos
            + 5] as u64) << 40 | (bytes[pos + 6] as u64) << 48 | (bytes[pos + 7] as u64) << 56;
        proof {
            let rest = bytes@.subrange(pos as int, n as int);
            assert(word == le_u64(rest));
            assert(rest.subrange(8, rest.len() as int) =~= bytes@.subrange(pos + 8, n as int));
            assert(taken.push(word) + object_words(bytes@.subrange(pos + 8, n as int)) =~= taken
                + object_words(rest));
            lemma_fx_push(taken, word);
            taken = taken.push(word);
        }
        h = fx_step(h, word);
        pos += 8;
    }
    if n - pos >= 4 {
        let word: u64 = (bytes[pos] as u64) | (bytes[pos + 1] as u64) << 8 | (bytes[pos + 2] as u64)
            << 16 | (bytes[pos + 3] as u64) << 24;
        proof {
            let rest = bytes@.subrange(pos as int, n as int);
            assert(word == le_u32(rest));
            assert(rest.subrange(4, rest.len() as int) =~= bytes@.subrange(pos + 4, n as int));
            assert(taken.push(word) + byte_words(bytes@.subrange(pos + 4, n as int)) =~= taken
                + object_words(rest));
            lemma_fx_push(taken, word);
            taken = taken.push(word);
        }
        h = fx_step(h, word);
        pos += 4;
    }
    let ghost done = taken;
    let ghost start = pos;
    assert(taken =~= done + byte_words(bytes@.subrange(start as int, pos as int)));
    while pos < n
        invariant
            start <= pos <= n,
            n == bytes@.len(),
            h == spec_fx_hash(taken),
            taken == done + byte_words(bytes@.subrange(start as int, pos as int)),
        decreases n - pos,
    {
        proof {
            assert(byte_words(bytes@.subrange(start as int, pos as int)).push(bytes@[pos as int] as u64)
                =~= byte_words(bytes@.subrange(start as int, pos + 1)));
            lemma_fx_push(taken, bytes@[pos as int] as u64);
            assert(taken.push(bytes@[pos as int] as u64) =~= done + byte_words(
                bytes@.subrange(start as int, pos + 1),
            ));
            taken = taken.push(bytes@[pos as int] as u64);
        }
        h = fx_step(h, bytes[pos] as u64);
        pos += 1;
    }
    truncate32(h)
}

} // verus!
