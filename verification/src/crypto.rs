//! The authenticated envelope around a datagram.
//!
//! This does not establish a channel with the storage daemon. Each datagram
//! stands alone: it is encrypted with AES-128 in counter mode and
//! authenticated with HMAC-SHA-256, under a pair of keys shared beforehand.
//! It carries the counter that its first block was encrypted with; a
//! receiver turns down a datagram whose counter lies below the one it
//! expects, which keeps an old datagram from being played again.

use aes::cipher::generic_array::GenericArray;
use aes::cipher::{BlockEncrypt, KeyInit};
use aes::Aes128Enc;
use hmac::{Hmac, Mac};
use sha2::Sha256;
use vstd::prelude::*;

use crate::bytes::{
    lemma_be_round_trip, lemma_read_prefix, put_bytes, put_u32, read_u32_be, spec_be_bytes,
    spec_u32_be,
};

verus! {

/// A pair of keys: MAC and symmetric encryption
///
/// Currently using HMAC-SHA256 and AES128.
pub struct KeyPair {
    pub mac_key: [u8; 16],
    pub encrypt_key: [u8; 16],
}

/// The size of a cipher block, in bytes.
pub const SIZE: usize = 16;

/// The size of the authentication tag, in bytes.
pub const MAC_SIZE: usize = 32;

/// What AES-128 makes of one block under a key.
pub uninterp spec fn aes128_encrypt_block(key: Seq<u8>, block: Seq<u8>) -> Seq<u8>;

/// The HMAC-SHA-256 tag of some data under a key.
pub uninterp spec fn hmac_sha256(key: Seq<u8>, data: Seq<u8>) -> Seq<u8>;

/// `Aes128Enc::new` and `encrypt_block`: the block encrypted under the key.
/// The result depends on the key and the block alone.
#[verifier::external_body]
fn aes128_encrypt(key: &[u8; 16], block: &[u8; 16]) -> (r: [u8; 16])
    ensures
        r@ == aes128_encrypt_block(key@, block@),
{
    let cipher = Aes128Enc::new(&GenericArray::from(*key));
    let mut out = GenericArray::from(*block);
    cipher.encrypt_block(&mut out);
    out.into()
}

/// `Hmac::<Sha256>::new_from_slice`, `update` and `finalize`: the tag of the
/// data under the key, 32 bytes that depend on the key and the data alone.
/// A key of any length is taken.
#[verifier::external_body]
fn hmac_sha256_tag(key: &[u8; 16], data: &[u8]) -> (r: [u8; 32])
    ensures
        r@ == hmac_sha256(key@, data@),
{
    let mut mac = <Hmac<Sha256> as Mac>::new_from_slice(key).unwrap();
    mac.update(data);
    mac.finalize().into_bytes().into()
}

/// `Hmac::<Sha256>::verify_slice`: tells, in constant time, whether `tag` is
/// the tag of the data under the key. A tag of another length than that of
/// the true tag is turned down.
#[verifier::external_body]
fn hmac_sha256_verify(key: &[u8; 16], data: &[u8], tag: &[u8]) -> (r: bool)
    ensures
        r == (tag@ == spec_tag(key@, data@)),
{
    let mut mac = <Hmac<Sha256> as Mac>::new_from_slice(key).unwrap();
    mac.update(data);
    mac.verify_slice(tag).is_ok()
}

/// The tag that authenticates the body of an envelope.
pub open spec fn spec_tag(mac_key: Seq<u8>, body: Seq<u8>) -> Seq<u8> {
    Seq::new(MAC_SIZE as nat, |i: int| hmac_sha256(mac_key, body)[i])
}

/// The block that is encrypted to get the key stream for a counter: the
/// counter in its first four bytes, least significant byte first, then zeros.
pub open spec fn spec_counter_block(counter: u32) -> Seq<u8> {
    Seq::new(
        SIZE as nat,
        |i: int|
            if i == 0 {
                (counter % 0x100) as u8
            } else if i == 1 {
                (counter / 0x100 % 0x100) as u8
            } else if i == 2 {
                (counter / 0x1_0000 % 0x100) as u8
            } else if i == 3 {
                (counter / 0x100_0000) as u8
            } else {
                0u8
            },
    )
}

/// The sixteen bytes of key stream for a counter.
pub open spec fn spec_key_stream(encrypt_key: Seq<u8>, counter: u32) -> Seq<u8> {
    Seq::new(SIZE as nat, |i: int| aes128_encrypt_block(encrypt_key, spec_counter_block(counter))[i])
}

/// The data with the key stream laid over it: block `j` of the data meets
/// the key stream of counter `counter + j`.
pub open spec fn spec_xor_stream(encrypt_key: Seq<u8>, counter: int, data: Seq<u8>) -> Seq<u8> {
    Seq::new(
        data.len(),
        |i: int| data[i] ^ spec_key_stream(encrypt_key, (counter + i / 16) as u32)[i % 16],
    )
}

/// The number of blocks that a plaintext of `len` bytes takes, with the four
/// bytes of its length before it.
pub open spec fn spec_block_count(len: int) -> int {
    (len + 4 + 15) / 16
}

/// Byte `i` of a framed plaintext: the length in four bytes, most
/// significant byte first, then the plaintext, then zeros.
pub open spec fn spec_frame_byte(data: Seq<u8>, i: int) -> u8 {
    if i < 4 {
        spec_be_bytes(data.len() as u32)[i]
    } else if i - 4 < data.len() {
        data[i - 4]
    } else {
        0
    }
}

/// A plaintext framed for encryption: a whole number of blocks.
pub open spec fn spec_frame(data: Seq<u8>) -> Seq<u8> {
    Seq::new((16 * spec_block_count(data.len() as int)) as nat, |i: int| spec_frame_byte(data, i))
}

/// What an envelope holds before its tag: the counter in four bytes, most
/// significant byte first, and the encrypted frame.
pub open spec fn spec_body(encrypt_key: Seq<u8>, data: Seq<u8>, counter: u32) -> Seq<u8> {
    spec_be_bytes(counter) + spec_xor_stream(encrypt_key, counter as int, spec_frame(data))
}

/// The envelope of a plaintext under a pair of keys and a counter.
pub open spec fn spec_encrypt(keys: KeyPair, data: Seq<u8>, counter: u32) -> Seq<u8> {
    let body = spec_body(keys.encrypt_key@, data, counter);
    body + spec_tag(keys.mac_key@, body)
}

/// The plaintext of an envelope and the counter after it, or nothing where
/// the envelope is turned down.
///
/// An envelope is taken when it holds the counter, at least one block and
/// the tag and nothing but whole blocks between them, when its tag is the
/// tag of all that stands before it, when its counter is not below
/// `min_counter` and the counter after its last block fits in 32 bits, and
/// when the length that its first block declares takes just the blocks that
/// are there.
pub open spec fn spec_decrypt(keys: KeyPair, data: Seq<u8>, min_counter: u32) -> Option<
    (Seq<u8>, u32),
> {
    let len = data.len() as int;
    if len < 4 + SIZE + MAC_SIZE || (len - 4 - MAC_SIZE) % (SIZE as int) != 0 {
        None
    } else {
        let body = data.subrange(0, len - MAC_SIZE);
        let tag = data.subrange(len - MAC_SIZE, len);
        let counter = spec_u32_be(data);
        let blocks = (len - 4 - MAC_SIZE) / (SIZE as int);
        let frame = spec_xor_stream(keys.encrypt_key@, counter as int, data.subrange(4, len - MAC_SIZE));
        let length = spec_u32_be(frame);
        if tag != spec_tag(keys.mac_key@, body) {
            None
        } else if counter < min_counter || counter + blocks > u32::MAX {
            None
        } else if spec_block_count(length as int) != blocks {
            None
        } else {
            Some((frame.subrange(4, 4 + length), (counter + blocks) as u32))
        }
    }
}

/// The key stream block for a counter.
fn cipher_block(encrypt_key: &[u8; 16], counter: u32) -> (r: [u8; 16])
    ensures
        r@ == spec_key_stream(encrypt_key@, counter),
{
    let mut block = [0u8; 16];
    block[0] = (counter % 0x100) as u8;
    block[1] = (counter / 0x100 % 0x100) as u8;
    block[2] = (counter / 0x1_0000 % 0x100) as u8;
    block[3] = (counter / 0x100_0000) as u8;
    assert(block@ =~= spec_counter_block(counter));
    let out = aes128_encrypt(encrypt_key, &block);
    assert(out@ =~= spec_key_stream(encrypt_key@, counter));
    out
}

/// Lays block `b` over block `a`, byte by byte.
fn xor_block(a: &mut [u8; 16], b: &[u8; 16])
    ensures
        forall|i: int| 0 <= i < 16 ==> final(a)@[i] == old(a)@[i] ^ b@[i],
{
    let mut i: usize = 0;
    while i < 16
        invariant
            i <= 16,
            forall|j: int| 0 <= j < i ==> a@[j] == old(a)@[j] ^ b@[j],
            forall|j: int| i <= j < 16 ==> a@[j] == old(a)@[j],
        decreases 16 - i,
    {
        a[i] = a[i] ^ b[i];
        i += 1;
    }
}

/// Where the plaintext ends in a frame of which `i` bytes have been seen:
/// `i` itself, kept between the four bytes of the length and the end of the
/// plaintext.
pub open spec fn spec_seen(i: int, length: int) -> int {
    if i < 4 {
        4
    } else if i > 4 + length {
        4 + length
    } else {
        i
    }
}

impl KeyPair {
    /// Block `k` of the framed plaintext.
    fn frame_block(data: &[u8], length: &[u8; 4], k: u64) -> (r: [u8; 16])
        requires
            data@.len() <= u32::MAX,
            length@ == spec_be_bytes(data@.len() as u32),
            k < spec_block_count(data@.len() as int),
        ensures
            forall|j: int| 0 <= j < 16 ==> r@[j] == spec_frame_byte(data@, 16 * k + j),
    {
        let mut block = [0u8; 16];
        let mut j: usize = 0;
        while j < 16
            invariant
                j <= 16,
                data@.len() <= u32::MAX,
                length@ == spec_be_bytes(data@.len() as u32),
                k < spec_block_count(data@.len() as int),
                forall|t: int| 0 <= t < j ==> block@[t] == spec_frame_byte(data@, 16 * k + t),
            decreases 16 - j,
        {
            let idx: u64 = 16 * k + j as u64;
            let byte = if idx < 4 {
                length[idx as usize]
            } else if idx - 4 < data.len() as u64 {
                data[(idx - 4) as usize]
            } else {
                0
            };
            block[j] = byte;
            j += 1;
        }
        block
    }

    /// Block `k` of the encrypted part of an envelope, with the key stream
    /// of `counter` taken off.
    fn open_block(&self, data: &[u8], k: usize, counter: u32) -> (r: [u8; 16])
        requires
            4 + 16 * (k + 1) + MAC_SIZE <= data@.len(),
        ensures
            forall|j: int|
                0 <= j < 16 ==> r@[j] == data@[4 + 16 * k + j] ^ spec_key_stream(
                    self.encrypt_key@,
                    counter,
                )[j],
    {
        let len = data.len();
        let mut block = [0u8; 16];
        let mut j: usize = 0;
        while j < 16
            invariant
                j <= 16,
                len == data@.len(),
                4 + 16 * (k + 1) + MAC_SIZE <= data@.len(),
                forall|t: int| 0 <= t < j ==> block@[t] == data@[4 + 16 * k + t],
            decreases 16 - j,
        {
            block[j] = data[4 + 16 * k + j];
            j += 1;
        }
        let stream = cipher_block(&self.encrypt_key, counter);
        xor_block(&mut block, &stream);
        block
    }

    /// Encrypt and authenticate some data.
    ///
    /// The function takes the current counter value, and returns the new
    /// value. That counter is used to prevent replay attacks; messages will be
    /// rejected if it ever goes down.
    pub fn encrypt(&self, data: &[u8], counter: u32) -> (r: (Vec<u8>, u32))
        requires
            data@.len() <= u32::MAX,
            counter + spec_block_count(data@.len() as int) <= u32::MAX,
        ensures
            r.0@ == spec_encrypt(*self, data@, counter),
            r.1 == counter + spec_block_count(data@.len() as int),
            r.0@.len() == 4 + SIZE * spec_block_count(data@.len() as int) + MAC_SIZE,
            spec_decrypt(*self, r.0@, counter) == Some((data@, r.1)),
    {
        let mut result = Vec::new();
        let counter = self.encrypt_into(data, &mut result, counter);
        (result, counter)
    }

    /// Encrypt and authenticate some data into a buffer, which is emptied
    /// first.
    ///
    /// The function takes the current counter value, and returns the new
    /// value: one more for each block of the envelope.
    pub fn encrypt_into(&self, data: &[u8], result: &mut Vec<u8>, counter: u32) -> (r: u32)
        requires
            data@.len() <= u32::MAX,
            counter + spec_block_count(data@.len() as int) <= u32::MAX,
        ensures
            final(result)@ == spec_encrypt(*self, data@, counter),
            r == counter + spec_block_count(data@.len() as int),
            final(result)@.len() == 4 + SIZE * spec_block_count(data@.len() as int) + MAC_SIZE,
            spec_decrypt(*self, final(result)@, counter) == Some((data@, r)),
    {
        proof {
            lemma_decrypt_encrypt(*self, data@, counter, counter);
        }
        result.clear();

        // Write initial counter
        put_u32(result, counter);

        // Write the blocks: the length, the data, and zeros to the end of
        // the last block
        let length = crate::bytes::u32_to_be(data.len() as u32);
        let blocks: u64 = (data.len() as u64 + 19) / 16;
        let ghost stream = spec_xor_stream(self.encrypt_key@, counter as int, spec_frame(data@));
        let mut current = counter;
        let mut k: u64 = 0;
        assert(result@ =~= spec_be_bytes(counter) + stream.subrange(0, 0));
        while k < blocks
            invariant
                k <= blocks,
                blocks == spec_block_count(data@.len() as int),
                data@.len() <= u32::MAX,
                counter + blocks <= u32::MAX,
                current == counter + k,
                length@ == spec_be_bytes(data@.len() as u32),
                stream == spec_xor_stream(self.encrypt_key@, counter as int, spec_frame(data@)),
                result@ == spec_be_bytes(counter) + stream.subrange(0, 16 * k),
            decreases blocks - k,
        {
            let mut block = Self::frame_block(data, &length, k);
            let ghost plain = block@;
            let key_stream = cipher_block(&self.encrypt_key, current);
            xor_block(&mut block, &key_stream);
            put_bytes(result, block.as_slice());
            proof {
                assert forall|j: int| 0 <= j < 16 implies block@[j] == stream[16 * k + j] by {
                    assert((16 * k + j) / 16 == k);
                    assert((16 * k + j) % 16 == j);
                    assert(spec_frame(data@)[16 * k + j] == plain[j]);
                }
                assert(result@ =~= spec_be_bytes(counter) + stream.subrange(0, 16 * (k + 1)));
            }
            current += 1;
            k += 1;
        }
        assert(stream.subrange(0, 16 * blocks) =~= stream);

        // Now add message digest
        let tag = hmac_sha256_tag(&self.mac_key, result.as_slice());
        assert(tag@ =~= spec_tag(self.mac_key@, result@));
        put_bytes(result, tag.as_slice());

        current
    }

    /// Authenticate and decrypt some data
    ///
    /// The function takes the current counter value, and returns the new
    /// value. That counter is used to prevent replay attacks; if the message
    /// contains a counter too low, it will be rejected.
    pub fn decrypt(&self, data: &[u8], min_counter: u32) -> (r: Option<(Vec<u8>, u32)>)
        ensures
            match spec_decrypt(*self, data@, min_counter) {
                Some((plaintext, counter)) => r matches Some((p, c)) && p@ == plaintext && c
                    == counter,
                None => r is None,
            },
    {
        let mut result = Vec::new();
        match self.decrypt_into(data, &mut result, min_counter) {
            Some(counter) => Some((result, counter)),
            None => None,
        }
    }

    /// Authenticate and decrypt some data into a buffer, which is emptied
    /// first and left empty when the data is turned down.
    ///
    /// The function takes the current counter value, and returns the new
    /// value. That counter is used to prevent replay attacks; if the message
    /// contains a counter too low, it will be rejected.
    pub fn decrypt_into(&self, data: &[u8], result: &mut Vec<u8>, min_counter: u32) -> (r: Option<
        u32,
    >)
        ensures
            match spec_decrypt(*self, data@, min_counter) {
                Some((plaintext, counter)) => r == Some(counter) && final(result)@ == plaintext,
                None => r is None && final(result)@ == Seq::<u8>::empty(),
            },
    {
        result.clear();

        let len = data.len();
        if len < 4 + SIZE + MAC_SIZE {
            return None;
        }
        if (len - 4 - MAC_SIZE) % SIZE != 0 {
            return None;
        }

        // Check MAC
        if !hmac_sha256_verify(&self.mac_key, &data[0..len - MAC_SIZE], &data[len - MAC_SIZE..len]) {
            return None;
        }

        // Read counter
        let counter = read_u32_be(data);
        let blocks = (len - 4 - MAC_SIZE) / SIZE;
        if counter < min_counter || counter as u64 + blocks as u64 > u32::MAX as u64 {
            return None;
        }
        let ghost frame = spec_xor_stream(
            self.encrypt_key@,
            counter as int,
            data@.subrange(4, len - MAC_SIZE),
        );

        // Decrypt the first block and read total length
        let first = self.open_block(data, 0, counter);
        assert(first@ =~= frame.subrange(0, 16)) by {
            assert forall|j: int| 0 <= j < 16 implies first@[j] == frame[j] by {
                assert(j / 16 == 0);
                assert(j % 16 == j);
            }
        }
        let length = read_u32_be(first.as_slice());
        assert(length == spec_u32_be(frame));
        if (length as u64 + 19) / 16 != blocks as u64 {
            return None;
        }

        // Take the plaintext out of the blocks
        let mut current = counter;
        let mut k: usize = 0;
        assert(result@ =~= frame.subrange(4, spec_seen(0, length as int)));
        while k < blocks
            invariant
                k <= blocks,
                len == data@.len(),
                len == 4 + 16 * blocks + MAC_SIZE,
                blocks == spec_block_count(length as int),
                counter + blocks <= u32::MAX,
                current == counter + k,
                frame == spec_xor_stream(
                    self.encrypt_key@,
                    counter as int,
                    data@.subrange(4, len - MAC_SIZE),
                ),
                result@ == frame.subrange(4, spec_seen(16 * k, length as int)),
            decreases blocks - k,
        {
            let block = self.open_block(data, k, current);
            proof {
                assert forall|j: int| 0 <= j < 16 implies block@[j] == frame[16 * k + j] by {
                    assert((16 * k + j) / 16 == k);
                    assert((16 * k + j) % 16 == j);
                }
            }
            let mut j: usize = 0;
            while j < 16
                invariant
                    j <= 16,
                    k < blocks,
                    frame.len() == 16 * blocks,
                    blocks == spec_block_count(length as int),
                    forall|t: int| 0 <= t < 16 ==> block@[t] == frame[16 * k + t],
                    result@ == frame.subrange(4, spec_seen(16 * k + j, length as int)),
                decreases 16 - j,
            {
                let idx: u64 = 16 * k as u64 + j as u64;
                if idx >= 4 && idx < 4 + length as u64 {
                    result.push(block[j]);
                    assert(result@ =~= frame.subrange(4, spec_seen(16 * k + j + 1, length as int)));
                }
                j += 1;
            }
            current += 1;
            k += 1;
        }
        Some(current)
    }
}

proof fn lemma_xor_twice(a: u8, b: u8)
    ensures
        (a ^ b) ^ b == a,
{
    assert((a ^ b) ^ b == a) by (bit_vector);
}

proof fn lemma_flip_changes(a: u8, bit: u8)
    requires
        bit < 8,
    ensures
        a ^ (1u8 << bit) != a,
{
    assert(a ^ (1u8 << bit) != a) by (bit_vector)
        requires
            bit < 8,
    ;
}

/// Laying the same key stream over data twice gives the data back.
pub proof fn lemma_xor_stream_twice(encrypt_key: Seq<u8>, counter: int, data: Seq<u8>)
    ensures
        spec_xor_stream(encrypt_key, counter, spec_xor_stream(encrypt_key, counter, data)) == data,
{
    let once = spec_xor_stream(encrypt_key, counter, data);
    let twice = spec_xor_stream(encrypt_key, counter, once);
    assert forall|i: int| 0 <= i < data.len() implies twice[i] == data[i] by {
        lemma_xor_twice(data[i], spec_key_stream(encrypt_key, (counter + i / 16) as u32)[i % 16]);
    }
    assert(twice =~= data);
}

/// What was encrypted is decrypted: an envelope made with a counter is taken
/// by a receiver that expects that counter or a lower one, and gives back
/// the plaintext and the counter that encryption returned.
pub proof fn lemma_decrypt_encrypt(keys: KeyPair, data: Seq<u8>, counter: u32, min_counter: u32)
    requires
        data.len() <= u32::MAX,
        counter + spec_block_count(data.len() as int) <= u32::MAX,
        min_counter <= counter,
    ensures
        spec_decrypt(keys, spec_encrypt(keys, data, counter), min_counter) == Some(
            (data, (counter + spec_block_count(data.len() as int)) as u32),
        ),
{
    let blocks = spec_block_count(data.len() as int);
    let frame = spec_frame(data);
    let stream = spec_xor_stream(keys.encrypt_key@, counter as int, frame);
    let body = spec_body(keys.encrypt_key@, data, counter);
    let tag = spec_tag(keys.mac_key@, body);
    let envelope = spec_encrypt(keys, data, counter);
    let len = envelope.len() as int;
    lemma_be_round_trip(counter);
    lemma_be_round_trip(data.len() as u32);
    assert(len == 4 + 16 * blocks + 32);
    assert(envelope.subrange(0, len - 32) =~= body);
    assert(envelope.subrange(len - 32, len) =~= tag);
    assert(envelope.subrange(4, len - 32) =~= stream);
    assert(spec_u32_be(envelope) == counter) by {
        lemma_read_prefix(spec_be_bytes(counter), stream + tag);
        assert(envelope =~= spec_be_bytes(counter) + (stream + tag));
    }
    lemma_xor_stream_twice(keys.encrypt_key@, counter as int, frame);
    assert(spec_u32_be(frame) == data.len()) by {
        assert(frame.subrange(0, 4) =~= spec_be_bytes(data.len() as u32));
        lemma_read_prefix(frame, Seq::empty());
    }
    assert(frame.subrange(4, 4 + data.len() as int) =~= data);
}

/// An envelope is taken only if its last 32 bytes are the tag of what stands
/// before them.
pub proof fn lemma_tag_guards(keys: KeyPair, data: Seq<u8>, min_counter: u32)
    ensures
        spec_decrypt(keys, data, min_counter) is Some ==> {
            &&& data.len() >= 4 + SIZE + MAC_SIZE
            &&& data.subrange(data.len() - MAC_SIZE, data.len() as int) == spec_tag(
                keys.mac_key@,
                data.subrange(0, data.len() - MAC_SIZE),
            )
        },
{
}

/// An envelope with one bit flipped is turned down: always when the bit lies
/// in the tag, and when it lies before the tag unless the changed bytes
/// happen to have the tag of the unchanged ones.
pub proof fn lemma_flipped_bit_rejected(
    keys: KeyPair,
    data: Seq<u8>,
    min_counter: u32,
    at: int,
    bit: u8,
)
    requires
        spec_decrypt(keys, data, min_counter) is Some,
        0 <= at < data.len(),
        bit < 8,
    ensures
        ({
            let flipped = data.update(at, data[at] ^ (1u8 << bit));
            let body_len = data.len() - MAC_SIZE;
            ||| spec_decrypt(keys, flipped, min_counter) is None
            ||| at < body_len && spec_tag(keys.mac_key@, flipped.subrange(0, body_len)) == spec_tag(
                keys.mac_key@,
                data.subrange(0, body_len),
            )
        }),
{
    let flipped = data.update(at, data[at] ^ (1u8 << bit));
    let len = data.len() as int;
    let body_len = len - MAC_SIZE;
    lemma_flip_changes(data[at], bit);
    lemma_tag_guards(keys, data, min_counter);
    lemma_tag_guards(keys, flipped, min_counter);
    if spec_decrypt(keys, flipped, min_counter) is Some {
        if at >= body_len {
            assert(flipped.subrange(0, body_len) =~= data.subrange(0, body_len));
            assert(flipped.subrange(body_len, len)[at - body_len] != data.subrange(body_len, len)[at
                - body_len]);
        } else {
            assert(flipped.subrange(body_len, len) =~= data.subrange(body_len, len));
        }
    }
}

/// An envelope whose counter lies below the one expected is turned down.
pub proof fn lemma_replay_rejected(keys: KeyPair, data: Seq<u8>, min_counter: u32)
    requires
        spec_u32_be(data) < min_counter,
    ensures
        spec_decrypt(keys, data, min_counter) is None,
{
}

/// An envelope that was taken is turned down by a receiver that expects the
/// counter returned with it: the counter returned lies above the envelope's
/// own.
pub proof fn lemma_taken_once(keys: KeyPair, data: Seq<u8>, min_counter: u32)
    requires
        spec_decrypt(keys, data, min_counter) is Some,
    ensures
        ({
            let taken = spec_decrypt(keys, data, min_counter)->Some_0;
            let next = taken.1;
            &&& next > spec_u32_be(data)
            &&& next > min_counter
            &&& spec_decrypt(keys, data, next) is None
        }),
{
}

} // verus!
