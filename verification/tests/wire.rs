use store::wire::{
    encode_ack, encode_read_reply, encode_request, message_counter, parse_ack, parse_read_reply,
    parse_request, with_counter, Operation, ParseError, ReplyError, Request,
};
use store::{ObjectId, PoolName};

fn request(counter: u32, pool: &str, operation: Operation) -> Request {
    Request { counter, pool: PoolName(pool.to_owned()), operation }
}

#[test]
fn read_object_request_bytes() {
    let bytes = encode_request(&request(
        0x01020304,
        "pool",
        Operation::ReadObject { object_id: ObjectId(b"obj".to_vec()) },
    ));
    assert_eq!(
        bytes,
        [1, 2, 3, 4, 0, 0, 0, 4, b'p', b'o', b'o', b'l', 0x01, 0, 0, 0, 3, b'o', b'b', b'j']
    );
}

#[test]
fn read_part_request_bytes() {
    let bytes = encode_request(&request(
        7,
        "p",
        Operation::ReadPart { object_id: ObjectId(b"ab".to_vec()), offset: 0x100, len: 0xffff_ffff },
    ));
    assert_eq!(
        bytes,
        [0, 0, 0, 7, 0, 0, 0, 1, b'p', 0x02, 0, 0, 0, 2, b'a', b'b', 0, 0, 1, 0, 255, 255, 255, 255]
    );
}

#[test]
fn write_requests_bytes() {
    let bytes = encode_request(&request(
        1,
        "",
        Operation::WriteObject { object_id: ObjectId(b"k".to_vec()), data: b"xyz".to_vec() },
    ));
    assert_eq!(bytes, [0, 0, 0, 1, 0, 0, 0, 0, 0x03, 0, 0, 0, 1, b'k', b'x', b'y', b'z']);
    let bytes = encode_request(&request(
        2,
        "",
        Operation::WritePart { object_id: ObjectId(b"k".to_vec()), offset: 5, data: b"hi".to_vec() },
    ));
    assert_eq!(bytes, [0, 0, 0, 2, 0, 0, 0, 0, 0x04, 0, 0, 0, 1, b'k', 0, 0, 0, 5, b'h', b'i']);
    let bytes = encode_request(&request(
        3,
        "",
        Operation::DeleteObject { object_id: ObjectId(b"k".to_vec()) },
    ));
    assert_eq!(bytes, [0, 0, 0, 3, 0, 0, 0, 0, 0x05, 0, 0, 0, 1, b'k']);
}

fn same(a: &Request, b: &Request) -> bool {
    format!("{:?}", a) == format!("{:?}", b)
}

#[test]
fn requests_are_read_back_as_written() {
    let id = || ObjectId(b"some object \0 name".to_vec());
    let operations = vec![
        Operation::ReadObject { object_id: id() },
        Operation::ReadPart { object_id: id(), offset: 12, len: 34 },
        Operation::WriteObject { object_id: id(), data: b"payload".to_vec() },
        Operation::WriteObject { object_id: id(), data: vec![] },
        Operation::WritePart { object_id: id(), offset: u32::MAX, data: b"payload".to_vec() },
        Operation::DeleteObject { object_id: id() },
        Operation::ReadObject { object_id: ObjectId(vec![]) },
    ];
    for (i, operation) in operations.into_iter().enumerate() {
        let written = request(i as u32 * 1000, "d\u{e9}faut", operation);
        let parsed = parse_request(&encode_request(&written)).unwrap();
        assert!(same(&parsed, &written), "{:?} != {:?}", parsed, written);
    }
}

#[test]
fn truncated_requests_are_rejected() {
    let full = encode_request(&request(
        9,
        "pool",
        Operation::ReadPart { object_id: ObjectId(b"obj".to_vec()), offset: 1, len: 2 },
    ));
    for cut in 0..full.len() {
        assert_eq!(
            parse_request(&full[..cut]).err(),
            Some(ParseError::Truncated),
            "cut at {}",
            cut
        );
    }
    assert!(parse_request(&full).is_ok());
    let full = encode_request(&request(
        9,
        "pool",
        Operation::WritePart { object_id: ObjectId(b"obj".to_vec()), offset: 1, data: vec![] },
    ));
    for cut in 0..full.len() {
        assert_eq!(parse_request(&full[..cut]).err(), Some(ParseError::Truncated));
    }
    assert!(parse_request(&full).is_ok());
}

#[test]
fn lengths_that_pass_the_end_are_rejected() {
    // The pool's name claims more bytes than there are.
    assert_eq!(
        parse_request(&[0, 0, 0, 1, 0xff, 0xff, 0xff, 0xff, b'p', 1]).err(),
        Some(ParseError::Truncated)
    );
    // So does the object's name.
    assert_eq!(
        parse_request(&[0, 0, 0, 1, 0, 0, 0, 1, b'p', 1, 0, 0, 0, 9, b'o']).err(),
        Some(ParseError::Truncated)
    );
}

#[test]
fn unknown_commands_are_rejected() {
    for opcode in [0u8, 6, 7, 0x80, 0xff] {
        let bytes = [0, 0, 0, 1, 0, 0, 0, 1, b'p', opcode, 0, 0, 0, 1, b'o'];
        assert_eq!(parse_request(&bytes).err(), Some(ParseError::UnknownCommand(opcode)));
        // The command is looked at before the object's name.
        let bytes = [0, 0, 0, 1, 0, 0, 0, 1, b'p', opcode];
        assert_eq!(parse_request(&bytes).err(), Some(ParseError::UnknownCommand(opcode)));
    }
}

#[test]
fn pool_name_must_be_utf8() {
    let bytes = [0, 0, 0, 1, 0, 0, 0, 2, 0xc3, 0x28, 1, 0, 0, 0, 1, b'o'];
    assert_eq!(parse_request(&bytes).err(), Some(ParseError::InvalidPoolName));
    let bytes = [0, 0, 0, 1, 0, 0, 0, 2, 0xc3, 0xa9, 1, 0, 0, 0, 1, b'o'];
    let parsed = parse_request(&bytes).unwrap();
    assert_eq!(parsed.pool, PoolName("\u{e9}".to_owned()));
}

#[test]
fn what_follows_a_read_is_not_looked_at() {
    let bytes = [0, 0, 0, 1, 0, 0, 0, 1, b'p', 1, 0, 0, 0, 1, b'o', 9, 9, 9];
    let parsed = parse_request(&bytes).unwrap();
    assert!(same(
        &parsed,
        &request(1, "p", Operation::ReadObject { object_id: ObjectId(b"o".to_vec()) })
    ));
}

#[test]
fn replies() {
    assert_eq!(encode_ack(0x0a0b0c0d), [0x0a, 0x0b, 0x0c, 0x0d]);
    assert_eq!(encode_read_reply(5, &None), [0, 0, 0, 5, 0]);
    assert_eq!(encode_read_reply(5, &Some(b"hi".to_vec())), [0, 0, 0, 5, 1, b'h', b'i']);
    assert_eq!(encode_read_reply(5, &Some(vec![])), [0, 0, 0, 5, 1]);

    assert_eq!(parse_read_reply(&[0, 0, 0, 5, 1, b'h', b'i']), Ok(Some(b"hi".to_vec())));
    assert_eq!(parse_read_reply(&[0, 0, 0, 5, 1]), Ok(Some(vec![])));
    assert_eq!(parse_read_reply(&[0, 0, 0, 5, 0]), Ok(None));
    assert_eq!(parse_read_reply(&[0, 0, 0, 5, 2]), Err(ReplyError::InvalidReply));
    assert_eq!(parse_read_reply(&[0, 0, 0, 5]), Err(ReplyError::InvalidReply));
    assert_eq!(parse_read_reply(&[]), Err(ReplyError::InvalidReply));

    assert_eq!(parse_ack(&[0, 0, 0, 5]), Ok(()));
    assert_eq!(parse_ack(&[0, 0, 0]), Err(ReplyError::InvalidReply));
    assert_eq!(parse_ack(&[0, 0, 0, 5, 0]), Err(ReplyError::InvalidReply));

    assert_eq!(message_counter(&[1, 0, 0, 0, 9]), Some(0x0100_0000));
    assert_eq!(message_counter(&[0, 0, 1]), None);
}

#[test]
fn counter_is_replaced_and_nothing_else() {
    assert_eq!(with_counter(&[1, 2, 3, 4, 5, 6], 0x0a0b0c0d), Some(vec![0x0a, 0x0b, 0x0c, 0x0d, 5, 6]));
    assert_eq!(with_counter(&[1, 2, 3, 4], 1), Some(vec![0, 0, 0, 1]));
    assert_eq!(with_counter(&[1, 2, 3], 1), None);
}
