use std::hash::Hasher;

use fxhash::FxHasher64;
use store::hash::{compute_hash, compute_object_hash};
use store::{GroupId, ObjectId};

#[test]
fn object_hash_is_the_low_half_of_the_fx_hash_of_the_name() {
    for len in 0..40usize {
        let name: Vec<u8> = (0..len).map(|i| (i * 37 + 11) as u8).collect();
        let mut h = FxHasher64::default();
        h.write(&name);
        assert_eq!(compute_object_hash(&ObjectId(name)), h.finish() as u32, "length {}", len);
    }
}

#[test]
fn object_hash_of_known_names() {
    assert_eq!(compute_object_hash(&ObjectId(vec![])), 0);
    // One byte: the byte times the multiplier of the hash.
    assert_eq!(
        compute_object_hash(&ObjectId(vec![1])),
        0x517cc1b727220a95u64 as u32
    );
    assert_eq!(
        compute_object_hash(&ObjectId(vec![2])),
        0x517cc1b727220a95u64.wrapping_mul(2) as u32
    );
    // Four bytes are one little-endian word.
    assert_eq!(
        compute_object_hash(&ObjectId(vec![0x04, 0x03, 0x02, 0x01])),
        0x517cc1b727220a95u64.wrapping_mul(0x01020304) as u32
    );
}

#[test]
fn traversal_hash_takes_five_words_in_order() {
    let mut h = FxHasher64::default();
    h.write_u32(1);
    h.write_u32(2);
    h.write_u32(3);
    h.write_u32(4);
    h.write_u32(5);
    assert_eq!(compute_hash(1, &GroupId(2), 3, 4, 5), h.finish() as u32);
    assert_ne!(compute_hash(1, &GroupId(2), 3, 4, 5), compute_hash(1, &GroupId(2), 3, 5, 4));
    assert_ne!(compute_hash(1, &GroupId(2), 3, 4, 5), compute_hash(2, &GroupId(1), 3, 4, 5));
    assert_eq!(compute_hash(0, &GroupId(0), 0, 0, 0), 0);
}
