use store::crypto::{KeyPair, MAC_SIZE, SIZE};

const MESSAGE: &[u8] = b"\
    Lorem ipsum dolor sit amet, consectetur adipiscing elit. Maecenas \
    est purus, sagittis eu cursus sed, ullamcorper sed nibh. Mauris \
    quis aliquam leo. Integer porttitor sapien orci, sed semper ex \
    elementum maximus.";

fn key_pair() -> KeyPair {
    KeyPair {
        mac_key: [1, 2, 3, 4, 5, 6, 7, 8, 9, 10, 11, 12, 13, 14, 15, 16],
        encrypt_key: [2, 4, 6, 8, 10, 12, 14, 16, 18, 20, 22, 24, 26, 28, 30, 32],
    }
}

fn golden_envelope() -> Vec<u8> {
    let mut expected = Vec::new();
    // Initial counter (4)
    expected.extend_from_slice(&[0, 0, 0, 4]);
    // Encrypted data
    expected.extend_from_slice(b"\
        \x6c\x25\xf2\x89\x66\xb2\x4b\x30\x72\x96\xf5\xb6\x76\xdc\x76\x41\
        \x16\xda\x5a\x77\x54\xee\xc3\x2c\x59\x09\xe4\x2f\x7c\x95\x4e\xf0\
        \xe5\xa7\xbc\xed\x59\x42\xdb\x7c\xcf\x63\x6a\x01\x98\x18\x73\xce\
        \x69\x36\x8c\x4a\xb5\x7c\xe3\xfb\x8d\xc6\x78\x68\x3b\x4a\x18\xde\
        \x82\x16\x2d\x5a\x38\xb9\xa4\x13\x17\x68\xf7\x16\xe0\x12\x7b\x60\
        \xde\x82\x8a\x0c\x31\x58\x19\x8e\x62\xa8\xa8\xc6\x4b\x72\xb1\xbb\
        \xf8\x77\xff\xcf\xa2\xf7\xa1\x21\xb7\xa5\x8e\x64\x8b\x5f\xe5\x6b\
        \x49\xf9\x14\xc8\xb5\x4d\x6e\x1a\x87\xb6\x27\x65\xf6\x8c\xfe\x33\
        \xc9\x4a\x25\xeb\x9b\x15\xc5\xb8\x6b\xd0\x1f\x60\xc2\x84\x33\x4b\
        \xd3\x43\xbb\x76\xda\x05\x53\xb2\x3c\x0f\x6f\x4c\x34\x7c\x4c\xbd\
        \x57\x90\x60\xf7\xbe\x1f\x0f\xa4\x7d\xc4\xb2\x5d\x88\x59\x37\x60\
        \x4e\x11\x9f\x0e\x77\xbf\x1f\xb1\x5a\xc9\xed\x3f\xde\xdc\xf4\x07\
        \x6c\xec\xbd\xa9\xe8\x7d\x8f\xfe\x81\x78\xa4\xdf\x4a\xc9\x6d\x49\
        \xdc\x15\x11\x95\x68\x40\xde\x9b\x6e\xe9\x1b\xc2\xda\xe4\x74\x2b");
    // MAC
    expected.extend_from_slice(b"\
      \xf5\x4d\x3c\xa0\x76\x5d\xef\xab\x12\x5b\xe1\x6f\x62\x6b\x85\x20\
      \x82\x50\xc5\x55\x89\xe4\x13\xc0\x86\x1a\x8c\xf4\x2d\xa7\x3f\xd4");
    expected
}

#[test]
fn test_encrypt() {
    let message = MESSAGE;
    assert_eq!(message.len(), 211);
    let key_pair = key_pair();
    let (result, counter) = key_pair.encrypt(message, 4);

    // Counter should increase by 14
    assert_eq!(counter, 18);

    // Result should be 14 blocks + counter + digest
    assert_eq!(result.len(), 4 + 14 * SIZE + MAC_SIZE);

    assert_eq!(result, golden_envelope());
}

#[test]
fn test_decrypt() {
    let key_pair = key_pair();
    let ciphertext = golden_envelope();

    let (result, counter) = key_pair.decrypt(&ciphertext, 3).unwrap();
    assert_eq!(counter, 18);

    assert_eq!(result, MESSAGE);
}

#[test]
fn round_trip_of_every_short_length() {
    let key_pair = key_pair();
    for len in 0..100usize {
        let plaintext: Vec<u8> = (0..len).map(|i| (i * 7 + 3) as u8).collect();
        let (envelope, next) = key_pair.encrypt(&plaintext, 1000);
        let blocks = (len + 4 + 15) / 16;
        assert_eq!(next as usize, 1000 + blocks);
        assert_eq!(envelope.len(), 4 + 16 * blocks + 32);
        assert_eq!(key_pair.decrypt(&envelope, 1000), Some((plaintext.clone(), next)));
        assert_eq!(key_pair.decrypt(&envelope, 0), Some((plaintext, next)));
    }
}

#[test]
fn empty_plaintext_takes_one_block() {
    let key_pair = key_pair();
    let (envelope, next) = key_pair.encrypt(b"", 0);
    assert_eq!(next, 1);
    assert_eq!(envelope.len(), 52);
    assert_eq!(&envelope[0..4], &[0, 0, 0, 0]);
    assert_eq!(key_pair.decrypt(&envelope, 0), Some((vec![], 1)));
}

#[test]
fn twelve_bytes_fill_the_first_block() {
    let key_pair = key_pair();
    let (envelope, next) = key_pair.encrypt(b"hello world!", 7);
    assert_eq!(next, 8);
    assert_eq!(envelope.len(), 52);
    let (envelope, next) = key_pair.encrypt(b"hello world!!", 7);
    assert_eq!(next, 9);
    assert_eq!(envelope.len(), 68);
}

#[test]
fn every_flipped_bit_is_rejected() {
    let key_pair = key_pair();
    let envelope = golden_envelope();
    for at in 0..envelope.len() {
        for bit in 0..8 {
            let mut tampered = envelope.clone();
            tampered[at] ^= 1 << bit;
            assert_eq!(key_pair.decrypt(&tampered, 0), None, "byte {} bit {}", at, bit);
        }
    }
}

#[test]
fn replay_is_rejected() {
    let key_pair = key_pair();
    let envelope = golden_envelope();
    assert!(key_pair.decrypt(&envelope, 4).is_some());
    assert_eq!(key_pair.decrypt(&envelope, 5), None);
    assert_eq!(key_pair.decrypt(&envelope, 18), None);
    assert_eq!(key_pair.decrypt(&envelope, u32::MAX), None);
}

#[test]
fn malformed_sizes_are_rejected() {
    let key_pair = key_pair();
    let envelope = golden_envelope();
    assert_eq!(key_pair.decrypt(&[], 0), None);
    assert_eq!(key_pair.decrypt(&envelope[..51], 0), None);
    assert_eq!(key_pair.decrypt(&envelope[..envelope.len() - 1], 0), None);
    assert_eq!(key_pair.decrypt(&envelope[..envelope.len() - 16], 0), None);
    let mut longer = envelope.clone();
    longer.push(0);
    assert_eq!(key_pair.decrypt(&longer, 0), None);
}

#[test]
fn wrong_keys_are_rejected() {
    let envelope = golden_envelope();
    let mut other = key_pair();
    other.mac_key[0] ^= 1;
    assert_eq!(other.decrypt(&envelope, 0), None);
}

#[test]
fn counter_that_would_pass_the_last_is_rejected() {
    let key_pair = key_pair();
    // One block, counter at the maximum: the counter after it has no value.
    let (envelope, _) = key_pair.encrypt(b"x", u32::MAX - 1);
    assert_eq!(key_pair.decrypt(&envelope, 0), Some((b"x".to_vec(), u32::MAX)));
    let mut forged = envelope.clone();
    forged[3] = 0xff;
    assert_eq!(key_pair.decrypt(&forged, 0), None);
}

#[test]
fn decrypt_into_empties_the_buffer_on_rejection() {
    let key_pair = key_pair();
    let mut buffer = b"left over".to_vec();
    assert_eq!(key_pair.decrypt_into(&[1, 2, 3], &mut buffer, 0), None);
    assert!(buffer.is_empty());
    let mut buffer = b"left over".to_vec();
    assert_eq!(key_pair.decrypt_into(&golden_envelope(), &mut buffer, 0), Some(18));
    assert_eq!(buffer, MESSAGE);
    let mut out = b"left over".to_vec();
    assert_eq!(key_pair.encrypt_into(MESSAGE, &mut out, 4), 18);
    assert_eq!(out, golden_envelope());
}
