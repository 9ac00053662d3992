//! The requests that clients send to storage daemons and the replies that
//! come back, as bytes.
//!
//! A request holds a counter, the name of a pool, the code of an operation
//! and what the operation needs. The counter is sent back at the head of
//! the reply, so that the client can tell which request a reply answers.
//! Numbers take four bytes, most significant byte first.

use vstd::prelude::*;
use vstd::utf8::{decode_utf8, encode_utf8, valid_utf8};

use crate::bytes::{
    lemma_be_round_trip, put_bytes, put_u32, read_u32_be, spec_be_bytes, spec_u32_be,
};
use crate::ident::{ObjectId, PoolName};

verus! {

/// The code of the operation that reads a whole object.
pub const OP_READ_OBJECT: u8 = 0x01;

/// The code of the operation that reads part of an object.
pub const OP_READ_PART: u8 = 0x02;

/// The code of the operation that replaces an object.
pub const OP_WRITE_OBJECT: u8 = 0x03;

/// The code of the operation that writes into an object.
pub const OP_WRITE_PART: u8 = 0x04;

/// The code of the operation that deletes an object.
pub const OP_DELETE_OBJECT: u8 = 0x05;

/// What a client asks a storage daemon to do.
#[derive(Debug)]
pub enum Operation {
    /// Read a whole object.
    ReadObject { object_id: ObjectId },
    /// Read `len` bytes of an object from `offset` on, or as many as there are.
    ReadPart { object_id: ObjectId, offset: u32, len: u32 },
    /// Replace the contents of an object.
    WriteObject { object_id: ObjectId, data: Vec<u8> },
    /// Write into an object from `offset` on.
    WritePart { object_id: ObjectId, offset: u32, data: Vec<u8> },
    /// Delete an object.
    DeleteObject { object_id: ObjectId },
}

/// A request as it stands in a datagram.
#[derive(Debug)]
pub struct Request {
    pub counter: u32,
    pub pool: PoolName,
    pub operation: Operation,
}

/// Why the bytes of a datagram are no request.
#[derive(Debug, PartialEq, Eq, Structural, Clone, Copy)]
pub enum ParseError {
    /// The datagram ends before the request does.
    Truncated,
    /// The name of the pool is not UTF-8.
    InvalidPoolName,
    /// The code stands for no operation.
    UnknownCommand(u8),
}

/// Why the bytes of a datagram are no reply.
#[derive(Debug, PartialEq, Eq, Structural, Clone, Copy)]
pub enum ReplyError {
    /// The reply has not the length, or not the mark, of a reply to the
    /// request.
    InvalidReply,
}

/// An operation, with sequences for the bytes that it holds.
pub enum OperationView {
    ReadObject { object_id: Seq<u8> },
    ReadPart { object_id: Seq<u8>, offset: u32, len: u32 },
    WriteObject { object_id: Seq<u8>, data: Seq<u8> },
    WritePart { object_id: Seq<u8>, offset: u32, data: Seq<u8> },
    DeleteObject { object_id: Seq<u8> },
}

/// A request, with sequences for the bytes and characters that it holds.
pub struct RequestView {
    pub counter: u32,
    pub pool: Seq<char>,
    pub operation: OperationView,
}

impl View for Operation {
    type V = OperationView;

    open spec fn view(&self) -> OperationView {
        match *self {
            Operation::ReadObject { object_id } => OperationView::ReadObject { object_id: object_id@ },
            Operation::ReadPart { object_id, offset, len } => OperationView::ReadPart {
                object_id: object_id@,
                offset,
                len,
            },
            Operation::WriteObject { object_id, data } => OperationView::WriteObject {
                object_id: object_id@,
                data: data@,
            },
            Operation::WritePart { object_id, offset, data } => OperationView::WritePart {
                object_id: object_id@,
                offset,
                data: data@,
            },
            Operation::DeleteObject { object_id } => OperationView::DeleteObject {
                object_id: object_id@,
            },
        }
    }
}

impl View for Request {
    type V = RequestView;

    open spec fn view(&self) -> RequestView {
        RequestView { counter: self.counter, pool: self.pool@, operation: self.operation@ }
    }
}

impl OperationView {
    /// The object that the operation is about.
    pub open spec fn object_id(self) -> Seq<u8> {
        match self {
            OperationView::ReadObject { object_id } => object_id,
            OperationView::ReadPart { object_id, .. } => object_id,
            OperationView::WriteObject { object_id, .. } => object_id,
            OperationView::WritePart { object_id, .. } => object_id,
            OperationView::DeleteObject { object_id } => object_id,
        }
    }

    /// The code of the operation.
    pub open spec fn opcode(self) -> u8 {
        match self {
            OperationView::ReadObject { .. } => OP_READ_OBJECT,
            OperationView::ReadPart { .. } => OP_READ_PART,
            OperationView::WriteObject { .. } => OP_WRITE_OBJECT,
            OperationView::WritePart { .. } => OP_WRITE_PART,
            OperationView::DeleteObject { .. } => OP_DELETE_OBJECT,
        }
    }

    /// What follows the object's name in the request.
    pub open spec fn payload(self) -> Seq<u8> {
        match self {
            OperationView::ReadObject { .. } => Seq::empty(),
            OperationView::ReadPart { offset, len, .. } => spec_be_bytes(offset) + spec_be_bytes(len),
            OperationView::WriteObject { data, .. } => data,
            OperationView::WritePart { offset, data, .. } => spec_be_bytes(offset) + data,
            OperationView::DeleteObject { .. } => Seq::empty(),
        }
    }
}

/// Some bytes with their number before them.
pub open spec fn spec_prefixed(bytes: Seq<u8>) -> Seq<u8> {
    spec_be_bytes(bytes.len() as u32) + bytes
}

/// The bytes of a request.
pub open spec fn spec_encode_request(request: RequestView) -> Seq<u8> {
    spec_be_bytes(request.counter) + spec_prefixed(encode_utf8(request.pool)) + seq![
        request.operation.opcode(),
    ] + spec_prefixed(request.operation.object_id()) + request.operation.payload()
}

/// The number that stands at `at` in the bytes, if four bytes are there.
pub open spec fn spec_number_at(bytes: Seq<u8>, at: int) -> Option<u32> {
    if 0 <= at && at + 4 <= bytes.len() {
        Some(spec_u32_be(bytes.subrange(at, at + 4)))
    } else {
        None
    }
}

/// The bytes that stand at `at` with their number before them, if they are
/// all there.
pub open spec fn spec_prefixed_at(bytes: Seq<u8>, at: int) -> Option<Seq<u8>> {
    match spec_number_at(bytes, at) {
        Some(len) => if at + 4 + len <= bytes.len() {
            Some(bytes.subrange(at + 4, at + 4 + len))
        } else {
            None
        },
        None => None,
    }
}

/// The operation with the given code that stands at `at` in the bytes, from the
/// object's name on.
pub open spec fn spec_parse_operation(bytes: Seq<u8>, opcode: u8, at: int) -> Result<
    OperationView,
    ParseError,
> {
    if !(OP_READ_OBJECT <= opcode <= OP_DELETE_OBJECT) {
        Err(ParseError::UnknownCommand(opcode))
    } else {
        match spec_prefixed_at(bytes, at) {
            None => Err(ParseError::Truncated),
            Some(object_id) => {
                let rest = at + 4 + object_id.len();
                if opcode == OP_READ_OBJECT {
                    Ok(OperationView::ReadObject { object_id })
                } else if opcode == OP_READ_PART {
                    match (spec_number_at(bytes, rest), spec_number_at(bytes, rest + 4)) {
                        (Some(offset), Some(len)) => Ok(
                            OperationView::ReadPart { object_id, offset, len },
                        ),
                        _ => Err(ParseError::Truncated),
                    }
                } else if opcode == OP_WRITE_OBJECT {
                    Ok(
                        OperationView::WriteObject {
                            object_id,
                            data: bytes.subrange(rest, bytes.len() as int),
                        },
                    )
                } else if opcode == OP_WRITE_PART {
                    match spec_number_at(bytes, rest) {
                        Some(offset) => Ok(
                            OperationView::WritePart {
                                object_id,
                                offset,
                                data: bytes.subrange(rest + 4, bytes.len() as int),
                            },
                        ),
                        None => Err(ParseError::Truncated),
                    }
                } else {
                    Ok(OperationView::DeleteObject { object_id })
                }
            },
        }
    }
}

/// The request that the bytes of a datagram stand for, or why they stand
/// for none.
///
/// The counter comes first, then the name of the pool with its length
/// before it, then the code of the operation, then the name of the object
/// with its length before it, then what the operation needs. The data of a
/// write runs to the end of the datagram. What follows a read or a delete
/// is not looked at.
pub open spec fn spec_parse_request(bytes: Seq<u8>) -> Result<RequestView, ParseError> {
    match (spec_number_at(bytes, 0), spec_prefixed_at(bytes, 4)) {
        (Some(counter), Some(name)) => {
            let at = 8 + name.len() as int;
            if !valid_utf8(name) {
                Err(ParseError::InvalidPoolName)
            } else if at >= bytes.len() {
                Err(ParseError::Truncated)
            } else {
                match spec_parse_operation(bytes, bytes[at], at + 1) {
                    Ok(operation) => Ok(RequestView { counter, pool: decode_utf8(name), operation }),
                    Err(e) => Err(e),
                }
            }
        },
        _ => Err(ParseError::Truncated),
    }
}

/// `String::from_utf8`: the string that the bytes spell, if they are UTF-8.
#[verifier::external_body]
fn string_from_utf8(bytes: Vec<u8>) -> (r: Option<String>)
    ensures
        r is Some <==> valid_utf8(bytes@),
        r matches Some(s) ==> s@ == decode_utf8(bytes@),
{
    String::from_utf8(bytes).ok()
}

/// Copies bytes into a buffer of their own.
fn copy_range(bytes: &[u8], from: usize, to: usize) -> (r: Vec<u8>)
    requires
        from <= to <= bytes@.len(),
    ensures
        r@ == bytes@.subrange(from as int, to as int),
{
    let mut out = Vec::new();
    put_bytes(&mut out, &bytes[from..to]);
    assert(out@ =~= bytes@.subrange(from as int, to as int));
    out
}

/// Reads the number that stands at `at` in the bytes.
fn number_at(bytes: &[u8], at: usize) -> (r: Option<u32>)
    ensures
        r == spec_number_at(bytes@, at as int),
{
    let len = bytes.len();
    if len >= 4 && at <= len - 4 {
        Some(read_u32_be(&bytes[at..at + 4]))
    } else {
        None
    }
}

/// Finds the bytes that stand at `at` with their number before them: where
/// they start and where they end.
fn prefixed_at(bytes: &[u8], at: usize) -> (r: Option<(usize, usize)>)
    ensures
        match spec_prefixed_at(bytes@, at as int) {
            Some(found) => r matches Some((from, to)) && from == at + 4 && from <= to
                <= bytes@.len() && found == bytes@.subrange(from as int, to as int),
            None => r is None,
        },
{
    let total = bytes.len();
    match number_at(bytes, at) {
        Some(len) => {
            let from = at + 4;
            if len as u64 <= (total - from) as u64 {
                Some((from, from + len as usize))
            } else {
                None
            }
        },
        None => None,
    }
}

/// Reads the operation with the given code that stands at `at` in the
/// bytes.
fn parse_operation(bytes: &[u8], opcode: u8, at: usize) -> (r: Result<Operation, ParseError>)
    ensures
        match spec_parse_operation(bytes@, opcode, at as int) {
            Ok(operation) => r matches Ok(found) && found@ == operation,
            Err(e) => r == Err::<Operation, ParseError>(e),
        },
{
    if opcode < OP_READ_OBJECT || opcode > OP_DELETE_OBJECT {
        return Err(ParseError::UnknownCommand(opcode));
    }
    let (from, rest) = match prefixed_at(bytes, at) {
        Some(found) => found,
        None => {
            return Err(ParseError::Truncated);
        },
    };
    let object_id = ObjectId(copy_range(bytes, from, rest));
    let len = bytes.len();
    if opcode == OP_READ_OBJECT {
        Ok(Operation::ReadObject { object_id })
    } else if opcode == OP_READ_PART {
        match number_at(bytes, rest) {
            Some(offset) => match number_at(bytes, rest + 4) {
                Some(len) => Ok(Operation::ReadPart { object_id, offset, len }),
                None => Err(ParseError::Truncated),
            },
            None => Err(ParseError::Truncated),
        }
    } else if opcode == OP_WRITE_OBJECT {
        Ok(Operation::WriteObject { object_id, data: copy_range(bytes, rest, len) })
    } else if opcode == OP_WRITE_PART {
        match number_at(bytes, rest) {
            Some(offset) => Ok(
                Operation::WritePart { object_id, offset, data: copy_range(bytes, rest + 4, len) },
            ),
            None => Err(ParseError::Truncated),
        }
    } else {
        Ok(Operation::DeleteObject { object_id })
    }
}

/// Reads a request from the bytes of a datagram.
pub fn parse_request(bytes: &[u8]) -> (r: Result<Request, ParseError>)
    ensures
        match spec_parse_request(bytes@) {
            Ok(request) => r matches Ok(found) && found@ == request,
            Err(e) => r == Err::<Request, ParseError>(e),
        },
{
    let counter = match number_at(bytes, 0) {
        Some(counter) => counter,
        None => {
            return Err(ParseError::Truncated);
        },
    };
    let (from, at) = match prefixed_at(bytes, 4) {
        Some(found) => found,
        None => {
            return Err(ParseError::Truncated);
        },
    };
    let pool = match string_from_utf8(copy_range(bytes, from, at)) {
        Some(name) => PoolName(name),
        None => {
            return Err(ParseError::InvalidPoolName);
        },
    };
    if at >= bytes.len() {
        return Err(ParseError::Truncated);
    }
    match parse_operation(bytes, bytes[at], at + 1) {
        Ok(operation) => Ok(Request { counter, pool, operation }),
        Err(e) => Err(e),
    }
}

/// A request can be written when the name of its pool and the name of its
/// object are short enough for their lengths to be written in four bytes.
pub open spec fn spec_encodable(request: RequestView) -> bool {
    &&& encode_utf8(request.pool).len() <= u32::MAX
    &&& request.operation.object_id().len() <= u32::MAX
}

/// Appends some bytes to a buffer, with their number before them.
fn put_prefixed(out: &mut Vec<u8>, bytes: &[u8])
    requires
        bytes@.len() <= u32::MAX,
    ensures
        final(out)@ == old(out)@ + spec_prefixed(bytes@),
{
    put_u32(out, bytes.len() as u32);
    put_bytes(out, bytes);
    assert(out@ =~= old(out)@ + spec_prefixed(bytes@));
}

/// Writes a request as the bytes of a datagram.
pub fn encode_request(request: &Request) -> (r: Vec<u8>)
    requires
        spec_encodable(request@),
    ensures
        r@ == spec_encode_request(request@),
{
    let mut out = Vec::new();
    put_u32(&mut out, request.counter);
    put_prefixed(&mut out, request.pool.0.as_str().as_bytes());
    match &request.operation {
        Operation::ReadObject { object_id } => {
            out.push(OP_READ_OBJECT);
            put_prefixed(&mut out, object_id.0.as_slice());
        },
        Operation::ReadPart { object_id, offset, len } => {
            out.push(OP_READ_PART);
            put_prefixed(&mut out, object_id.0.as_slice());
            put_u32(&mut out, *offset);
            put_u32(&mut out, *len);
        },
        Operation::WriteObject { object_id, data } => {
            out.push(OP_WRITE_OBJECT);
            put_prefixed(&mut out, object_id.0.as_slice());
            put_bytes(&mut out, data.as_slice());
        },
        Operation::WritePart { object_id, offset, data } => {
            out.push(OP_WRITE_PART);
            put_prefixed(&mut out, object_id.0.as_slice());
            put_u32(&mut out, *offset);
            put_bytes(&mut out, data.as_slice());
        },
        Operation::DeleteObject { object_id } => {
            out.push(OP_DELETE_OBJECT);
            put_prefixed(&mut out, object_id.0.as_slice());
        },
    }
    assert(out@ =~= spec_encode_request(request@));
    out
}

/// The reply to a read: the counter of the request, a mark that tells
/// whether the object is there, and the bytes read if it is.
pub open spec fn spec_read_reply(counter: u32, object: Option<Seq<u8>>) -> Seq<u8> {
    match object {
        Some(data) => spec_be_bytes(counter) + seq![1u8] + data,
        None => spec_be_bytes(counter) + seq![0u8],
    }
}

/// The reply to a write or a delete: the counter of the request.
pub open spec fn spec_ack(counter: u32) -> Seq<u8> {
    spec_be_bytes(counter)
}

/// What the reply to a read says: the bytes read, or that the object is not
/// there, or nothing where the bytes are no such reply.
pub open spec fn spec_parse_read_reply(reply: Seq<u8>) -> Result<Option<Seq<u8>>, ReplyError> {
    if reply.len() < 5 {
        Err(ReplyError::InvalidReply)
    } else if reply[4] == 1 {
        Ok(Some(reply.subrange(5, reply.len() as int)))
    } else if reply[4] == 0 {
        Ok(None)
    } else {
        Err(ReplyError::InvalidReply)
    }
}

/// A message with the counter at its head replaced, if it has one.
pub open spec fn spec_with_counter(message: Seq<u8>, counter: u32) -> Option<Seq<u8>> {
    if message.len() >= 4 {
        Some(spec_be_bytes(counter) + message.subrange(4, message.len() as int))
    } else {
        None
    }
}

/// The bytes of an optional buffer.
pub open spec fn spec_bytes_of(object: Option<Vec<u8>>) -> Option<Seq<u8>> {
    match object {
        Some(data) => Some(data@),
        None => None,
    }
}

/// Writes the reply to a read.
pub fn encode_read_reply(counter: u32, object: &Option<Vec<u8>>) -> (r: Vec<u8>)
    ensures
        r@ == spec_read_reply(counter, spec_bytes_of(*object)),
{
    let mut out = Vec::new();
    put_u32(&mut out, counter);
    match object {
        Some(data) => {
            out.push(1);
            put_bytes(&mut out, data.as_slice());
        },
        None => {
            out.push(0);
        },
    }
    assert(out@ =~= spec_read_reply(counter, spec_bytes_of(*object)));
    out
}

/// Writes the reply to a write or a delete.
pub fn encode_ack(counter: u32) -> (r: Vec<u8>)
    ensures
        r@ == spec_ack(counter),
{
    let mut out = Vec::new();
    put_u32(&mut out, counter);
    out
}

/// Reads the reply to a read.
pub fn parse_read_reply(reply: &[u8]) -> (r: Result<Option<Vec<u8>>, ReplyError>)
    ensures
        match spec_parse_read_reply(reply@) {
            Ok(object) => r matches Ok(found) && spec_bytes_of(found) == object,
            Err(e) => r == Err::<Option<Vec<u8>>, ReplyError>(e),
        },
{
    let len = reply.len();
    if len < 5 {
        return Err(ReplyError::InvalidReply);
    }
    if reply[4] == 1 {
        Ok(Some(copy_range(reply, 5, len)))
    } else if reply[4] == 0 {
        Ok(None)
    } else {
        Err(ReplyError::InvalidReply)
    }
}

/// Reads the reply to a write or a delete: four bytes and no more.
pub fn parse_ack(reply: &[u8]) -> (r: Result<(), ReplyError>)
    ensures
        r is Ok <==> reply@.len() == 4,
{
    if reply.len() != 4 {
        return Err(ReplyError::InvalidReply);
    }
    Ok(())
}

/// Reads the counter at the head of a message, if it has one.
pub fn message_counter(message: &[u8]) -> (r: Option<u32>)
    ensures
        r == spec_number_at(message@, 0),
{
    number_at(message, 0)
}

/// Copies a message with another counter at its head. A message too short
/// to hold a counter is not copied.
pub fn with_counter(message: &[u8], counter: u32) -> (r: Option<Vec<u8>>)
    ensures
        spec_bytes_of(r) == spec_with_counter(message@, counter),
{
    let len = message.len();
    if len < 4 {
        return None;
    }
    let mut out = Vec::new();
    put_u32(&mut out, counter);
    put_bytes(&mut out, &message[4..len]);
    Some(out)
}

/// A number can be read at a place if four bytes written there are in the
/// bytes, whatever stands around them.
proof fn lemma_number_in_place(before: Seq<u8>, n: u32, after: Seq<u8>)
    ensures
        spec_number_at(before + spec_be_bytes(n) + after, before.len() as int) == Some(n),
{
    let all = before + spec_be_bytes(n) + after;
    let at = before.len() as int;
    assert(all.subrange(at, at + 4) =~= spec_be_bytes(n));
    lemma_be_round_trip(n);
}

/// Bytes written with their number before them can be read back at the place
/// they were written to, whatever stands around them.
proof fn lemma_prefixed_in_place(before: Seq<u8>, bytes: Seq<u8>, after: Seq<u8>)
    requires
        bytes.len() <= u32::MAX,
    ensures
        spec_prefixed_at(before + spec_prefixed(bytes) + after, before.len() as int) == Some(bytes),
{
    let all = before + spec_prefixed(bytes) + after;
    let at = before.len() as int;
    lemma_number_in_place(before, bytes.len() as u32, bytes + after);
    assert(all =~= before + spec_be_bytes(bytes.len() as u32) + (bytes + after));
    assert(all.subrange(at + 4, at + 4 + bytes.len()) =~= bytes);
}

/// An operation that was written after some bytes is read back at the place
/// where those bytes end.
proof fn lemma_operation_in_place(before: Seq<u8>, operation: OperationView)
    requires
        operation.object_id().len() <= u32::MAX,
    ensures
        spec_parse_operation(
            before + spec_prefixed(operation.object_id()) + operation.payload(),
            operation.opcode(),
            before.len() as int,
        ) == Ok::<OperationView, ParseError>(operation),
{
    let object_id = operation.object_id();
    let payload = operation.payload();
    let bytes = before + spec_prefixed(object_id) + payload;
    lemma_prefixed_in_place(before, object_id, payload);
    let upto = before + spec_prefixed(object_id);
    let rest = before.len() as int + 4 + object_id.len() as int;
    assert(upto.len() == rest);
    match operation {
        OperationView::ReadObject { .. } => {},
        OperationView::ReadPart { offset, len, .. } => {
            lemma_number_in_place(upto, offset, spec_be_bytes(len));
            assert(bytes =~= upto + spec_be_bytes(offset) + spec_be_bytes(len));
            lemma_number_in_place(upto + spec_be_bytes(offset), len, Seq::empty());
            assert(bytes =~= upto + spec_be_bytes(offset) + spec_be_bytes(len) + Seq::empty());
        },
        OperationView::WriteObject { data, .. } => {
            assert(bytes.subrange(rest, bytes.len() as int) =~= data);
        },
        OperationView::WritePart { offset, data, .. } => {
            lemma_number_in_place(upto, offset, data);
            assert(bytes =~= upto + spec_be_bytes(offset) + data);
            assert(bytes.subrange(rest + 4, bytes.len() as int) =~= data);
        },
        OperationView::DeleteObject { .. } => {},
    }
}

/// The counter and the pool's name of a written request stand where a
/// reader looks for them.
proof fn lemma_layout_head(counter: u32, name: Seq<u8>, tail: Seq<u8>)
    requires
        name.len() <= u32::MAX,
    ensures
        spec_number_at(spec_be_bytes(counter) + spec_prefixed(name) + tail, 0) == Some(counter),
        spec_prefixed_at(spec_be_bytes(counter) + spec_prefixed(name) + tail, 4) == Some(name),
{
    let head = spec_be_bytes(counter);
    let bytes = head + spec_prefixed(name) + tail;
    assert(spec_number_at(bytes, 0) == Some(counter)) by {
        lemma_number_in_place(Seq::empty(), counter, spec_prefixed(name) + tail);
        assert(bytes =~= Seq::empty() + head + (spec_prefixed(name) + tail));
    }
    assert(spec_prefixed_at(bytes, 4) == Some(name)) by {
        lemma_prefixed_in_place(head, name, tail);
    }
}

/// The code of the operation of a written request stands where a reader
/// looks for it.
proof fn lemma_layout_opcode(front: Seq<u8>, opcode: u8, tail: Seq<u8>)
    ensures
        front.len() < (front + seq![opcode] + tail).len(),
        (front + seq![opcode] + tail)[front.len() as int] == opcode,
{
}

/// A request that was written is read back as it was.
pub proof fn lemma_parse_encode(request: RequestView)
    requires
        spec_encodable(request),
    ensures
        spec_parse_request(spec_encode_request(request)) == Ok::<RequestView, ParseError>(request),
{
    let name = encode_utf8(request.pool);
    let operation = request.operation;
    let front = spec_be_bytes(request.counter) + spec_prefixed(name);
    let ending = spec_prefixed(operation.object_id()) + operation.payload();
    let tail = seq![operation.opcode()] + ending;
    let bytes = spec_encode_request(request);
    assert(bytes == front + tail && bytes == front + seq![operation.opcode()] + ending) by {
        assert(bytes =~= front + tail);
        assert(bytes =~= front + seq![operation.opcode()] + ending);
    }
    assert(front.len() == 8 + name.len()) by {
        lemma_be_round_trip(request.counter);
        lemma_be_round_trip(name.len() as u32);
    }
    vstd::utf8::encode_utf8_valid_utf8(request.pool);
    vstd::utf8::encode_utf8_decode_utf8(request.pool);
    lemma_layout_head(request.counter, name, tail);
    lemma_layout_opcode(front, operation.opcode(), ending);
    lemma_operation_in_place(front + seq![operation.opcode()], operation);
}

/// The reply to a read is read back as it was written, with the counter of
/// the request at its head.
pub proof fn lemma_read_reply_round_trip(counter: u32, object: Option<Seq<u8>>)
    ensures
        spec_parse_read_reply(spec_read_reply(counter, object)) == Ok::<
            Option<Seq<u8>>,
            ReplyError,
        >(object),
        spec_number_at(spec_read_reply(counter, object), 0) == Some(counter),
        spec_number_at(spec_ack(counter), 0) == Some(counter),
        spec_ack(counter).len() == 4,
{
    let reply = spec_read_reply(counter, object);
    match object {
        Some(data) => {
            lemma_number_in_place(Seq::empty(), counter, seq![1u8] + data);
            assert(reply =~= Seq::empty() + spec_be_bytes(counter) + (seq![1u8] + data));
            assert(reply.subrange(5, reply.len() as int) =~= data);
        },
        None => {
            lemma_number_in_place(Seq::empty(), counter, seq![0u8]);
            assert(reply =~= Seq::empty() + spec_be_bytes(counter) + seq![0u8]);
        },
    }
    lemma_number_in_place(Seq::empty(), counter, Seq::empty());
    assert(spec_ack(counter) =~= Seq::empty() + spec_be_bytes(counter) + Seq::empty());
}

/// Replacing the counter of a message changes its counter and nothing else:
/// a request stays the same request, under the new counter.
pub proof fn lemma_with_counter(message: Seq<u8>, counter: u32)
    requires
        message.len() >= 4,
    ensures
        ({
            let changed = spec_with_counter(message, counter)->Some_0;
            &&& changed.len() == message.len()
            &&& spec_number_at(changed, 0) == Some(counter)
            &&& changed.subrange(4, changed.len() as int) == message.subrange(
                4,
                message.len() as int,
            )
            &&& match spec_parse_request(message) {
                Ok(request) => spec_parse_request(changed) == Ok::<RequestView, ParseError>(
                    RequestView { counter, ..request },
                ),
                Err(e) => spec_parse_request(changed) == Err::<RequestView, ParseError>(e),
            }
        }),
{
    let changed = spec_with_counter(message, counter)->Some_0;
    let rest = message.subrange(4, message.len() as int);
    lemma_number_in_place(Seq::empty(), counter, rest);
    assert(changed =~= Seq::empty() + spec_be_bytes(counter) + rest);
    assert(changed.subrange(4, changed.len() as int) =~= rest);
    assert forall|from: int, to: int| 4 <= from <= to <= message.len() implies #[trigger] changed.subrange(
        from,
        to,
    ) == message.subrange(from, to) by {
        assert(changed.subrange(from, to) =~= message.subrange(from, to));
    }
    assert forall|at: int| 4 <= at implies spec_number_at(changed, at) == spec_number_at(
        message,
        at,
    ) by {
        if at + 4 <= message.len() {
            assert(changed.subrange(at, at + 4) == message.subrange(at, at + 4));
        }
    }
    assert forall|at: int| 4 <= at implies spec_prefixed_at(changed, at) == spec_prefixed_at(
        message,
        at,
    ) by {
        assert(spec_number_at(changed, at) == spec_number_at(message, at));
        match spec_number_at(message, at) {
            Some(len) => {
                if at + 4 + len <= message.len() {
                    assert(changed.subrange(at + 4, at + 4 + len) == message.subrange(
                        at + 4,
                        at + 4 + len,
                    ));
                }
            },
            None => {},
        }
    }
    assert(spec_prefixed_at(changed, 4) == spec_prefixed_at(message, 4));
    match spec_prefixed_at(message, 4) {
        Some(name) => {
            let at = 8 + name.len() as int;
            if valid_utf8(name) && at < message.len() {
                assert(changed[at] == message[at]);
                let opcode = message[at];
                assert(spec_prefixed_at(changed, at + 1) == spec_prefixed_at(message, at + 1));
                match spec_prefixed_at(message, at + 1) {
                    Some(object_id) => {
                        let next = at + 1 + 4 + object_id.len();
                        assert(spec_number_at(changed, next) == spec_number_at(message, next));
                        assert(spec_number_at(changed, next + 4) == spec_number_at(
                            message,
                            next + 4,
                        ));
                        assert(changed.subrange(next, changed.len() as int) == message.subrange(
                            next,
                            message.len() as int,
                        ));
                        if next + 4 <= message.len() {
                            assert(changed.subrange(next + 4, changed.len() as int)
                                == message.subrange(next + 4, message.len() as int));
                        }
                    },
                    None => {},
                }
            }
        },
        None => {},
    }
}

} // verus!
