//! Integers on the wire: 32-bit numbers as four bytes, most significant
//! byte first.

use byteorder::{BigEndian, ByteOrder};
use vstd::prelude::*;

verus! {

/// The number that four bytes stand for, most significant byte first.
pub open spec fn spec_u32_be(b: Seq<u8>) -> u32
    recommends
        b.len() >= 4,
{
    (b[0] as int * 0x100_0000 + b[1] as int * 0x1_0000 + b[2] as int * 0x100 + b[3] as int) as u32
}

/// The four bytes that stand for a number, most significant byte first.
pub open spec fn spec_be_bytes(n: u32) -> Seq<u8> {
    seq![
        (n / 0x100_0000) as u8,
        (n / 0x1_0000 % 0x100) as u8,
        (n / 0x100 % 0x100) as u8,
        (n % 0x100) as u8,
    ]
}

/// `byteorder::BigEndian::read_u32`: the first four bytes of the buffer, read
/// as a number with the most significant byte first. It panics on a buffer
/// of fewer than four bytes.
#[verifier::external_body]
pub(crate) fn read_u32_be(buf: &[u8]) -> (r: u32)
    requires
        buf@.len() >= 4,
    ensures
        r == spec_u32_be(buf@),
{
    BigEndian::read_u32(buf)
}

/// The number that eight bytes stand for, most significant byte first.
pub open spec fn spec_u64_be(b: Seq<u8>) -> u64
    recommends
        b.len() >= 8,
{
    (spec_u32_be(b) as int * 0x1_0000_0000 + spec_u32_be(b.subrange(4, 8)) as int) as u64
}

/// `byteorder::BigEndian::read_u64`: the first eight bytes of the buffer,
/// read as a number with the most significant byte first. It panics on a
/// buffer of fewer than eight bytes.
#[verifier::external_body]
pub(crate) fn read_u64_be(buf: &[u8]) -> (r: u64)
    requires
        buf@.len() >= 8,
    ensures
        r == spec_u64_be(buf@),
{
    BigEndian::read_u64(buf)
}

/// `byteorder::BigEndian::write_u32` on a buffer of four bytes: the bytes of
/// the number, most significant byte first.
#[verifier::external_body]
pub(crate) fn u32_to_be(n: u32) -> (r: [u8; 4])
    ensures
        r@ == spec_be_bytes(n),
{
    let mut buf = [0u8; 4];
    BigEndian::write_u32(&mut buf, n);
    buf
}

/// A number is read back from the bytes that were written for it.
pub proof fn lemma_be_round_trip(n: u32)
    ensures
        spec_be_bytes(n).len() == 4,
        spec_u32_be(spec_be_bytes(n)) == n,
{
}

/// Four bytes are written back for the number that was read from them.
pub proof fn lemma_be_bytes_of_read(b: Seq<u8>)
    requires
        b.len() == 4,
    ensures
        spec_be_bytes(spec_u32_be(b)) == b,
{
    let (b0, b1, b2, b3) = (b[0] as int, b[1] as int, b[2] as int, b[3] as int);
    let n = b0 * 0x100_0000 + b1 * 0x1_0000 + b2 * 0x100 + b3;
    assert(spec_u32_be(b) == n);
    vstd::arithmetic::div_mod::lemma_fundamental_div_mod_converse(
        n,
        0x100_0000,
        b0,
        b1 * 0x1_0000 + b2 * 0x100 + b3,
    );
    vstd::arithmetic::div_mod::lemma_fundamental_div_mod_converse(
        n,
        0x1_0000,
        b0 * 0x100 + b1,
        b2 * 0x100 + b3,
    );
    vstd::arithmetic::div_mod::lemma_fundamental_div_mod_converse(b0 * 0x100 + b1, 0x100, b0, b1);
    vstd::arithmetic::div_mod::lemma_fundamental_div_mod_converse(
        n,
        0x100,
        b0 * 0x1_0000 + b1 * 0x100 + b2,
        b3,
    );
    vstd::arithmetic::div_mod::lemma_fundamental_div_mod_converse(
        b0 * 0x1_0000 + b1 * 0x100 + b2,
        0x100,
        b0 * 0x100 + b1,
        b2,
    );
    let written = spec_be_bytes(spec_u32_be(b));
    assert(written[0] == b[0]);
    assert(written[1] == b[1]);
    assert(written[2] == b[2]);
    assert(written[3] == b[3]);
    assert(written =~= b);
}

/// Only the first four bytes of a buffer count when a number is read.
pub proof fn lemma_read_prefix(b: Seq<u8>, rest: Seq<u8>)
    requires
        b.len() >= 4,
    ensures
        spec_u32_be(b + rest) == spec_u32_be(b),
        spec_u32_be(b.subrange(0, 4)) == spec_u32_be(b),
{
}

/// Appends the four bytes of a number to a buffer.
pub fn put_u32(out: &mut Vec<u8>, n: u32)
    ensures
        final(out)@ == old(out)@ + spec_be_bytes(n),
{
    let b = u32_to_be(n);
    out.push(b[0]);
    out.push(b[1]);
    out.push(b[2]);
    out.push(b[3]);
    assert(out@ =~= old(out)@ + spec_be_bytes(n));
}

/// Appends the bytes of a slice to a buffer.
pub fn put_bytes(out: &mut Vec<u8>, bytes: &[u8])
    ensures
        final(out)@ == old(out)@ + bytes@,
{
    let mut i: usize = 0;
    while i < bytes.len()
        invariant
            i <= bytes@.len(),
            out@ == old(out)@ + bytes@.subrange(0, i as int),
        decreases bytes@.len() - i,
    {
        out.push(bytes[i]);
        i += 1;
        assert(out@ =~= old(out)@ + bytes@.subrange(0, i as int));
    }
    assert(bytes@.subrange(0, i as int) =~= bytes@);
}

} // verus!
