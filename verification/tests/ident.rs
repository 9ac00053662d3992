use store::{DeviceId, GroupId, ObjectId, PoolName};

#[test]
fn test_deviceid_debug() {
    let id = DeviceId([1, 2, 3, 4, 5, 6, 7, 8, 9, 10, 11, 12, 13, 14, 15, 16]);
    let repr = id.debug_string();
    assert_eq!(
        repr,
        "DeviceId(01:02:03:04:05:06:07:08:09:0a:0b:0c:0d:0e:0f:10)"
    );
}

#[test]
fn every_hex_digit_is_shown() {
    let id = DeviceId([
        0x00, 0x19, 0x2a, 0x3b, 0x4c, 0x5d, 0x6e, 0x7f, 0x80, 0x91, 0xa2, 0xb3, 0xc4, 0xd5, 0xe6,
        0xff,
    ]);
    assert_eq!(
        id.debug_string(),
        "DeviceId(00:19:2a:3b:4c:5d:6e:7f:80:91:a2:b3:c4:d5:e6:ff)"
    );
}

#[test]
fn identifiers_are_equal_by_what_they_hold() {
    assert_eq!(DeviceId([7; 16]), DeviceId([7; 16]));
    let mut other = [7; 16];
    other[15] = 8;
    assert_ne!(DeviceId([7; 16]), DeviceId(other));
    let mut other = [7; 16];
    other[0] = 8;
    assert_ne!(DeviceId([7; 16]), DeviceId(other));
    assert_eq!(GroupId(3), GroupId(3));
    assert_ne!(GroupId(3), GroupId(4));
    assert_eq!(ObjectId(b"a".to_vec()), ObjectId(b"a".to_vec()));
    assert_ne!(ObjectId(b"a".to_vec()), ObjectId(b"b".to_vec()));
    assert_eq!(PoolName("p".to_owned()), PoolName("p".to_owned()));
}
