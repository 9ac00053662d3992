//! Cutting a byte range of a block device into parts that each lie within
//! one block.
//!
//! A gateway that lays fixed-size blocks over objects reads and writes a
//! range of the device part by part: each part goes to the object of its
//! block, at its offset in that block.

use vstd::prelude::*;

use crate::bytes::{put_bytes, read_u64_be, spec_u64_be};
use crate::ident::ObjectId;

verus! {

/// The size of a block of the device, in bytes.
pub const BLOCK_SIZE: usize = 512;

/// Iterates on block-aligned parts.
pub struct ListBlocks {
    buf_pos: usize,
    device_pos: usize,
    remaining_size: usize,
}

/// One part of a range: `size` bytes that start at `device_start` on the
/// device and at `buf_start` in the caller's buffer.
#[derive(Debug, PartialEq, Eq, Structural)]
pub struct ListBlockItem {
    pub buf_start: usize,
    pub device_start: usize,
    pub size: usize,
}

/// What is left of a range: where it goes on in the buffer and on the
/// device, and how many bytes remain.
pub struct Remaining {
    pub buf_pos: int,
    pub device_pos: int,
    pub size: int,
}

/// The size of the part that starts at `device_pos` when `size` bytes remain:
/// up to the end of the block, or all that remains if that is less.
pub open spec fn spec_part_size(device_pos: int, size: int) -> int {
    let to_block_end = BLOCK_SIZE as int - device_pos % (BLOCK_SIZE as int);
    if size < to_block_end {
        size
    } else {
        to_block_end
    }
}

/// What remains after the first part has been taken off.
pub open spec fn spec_advance(rest: Remaining) -> Remaining {
    let size = spec_part_size(rest.device_pos, rest.size);
    Remaining {
        buf_pos: rest.buf_pos + size,
        device_pos: rest.device_pos + size,
        size: rest.size - size,
    }
}

/// The first part of what remains.
pub open spec fn spec_first_part(rest: Remaining) -> ListBlockItem {
    ListBlockItem {
        buf_start: rest.buf_pos as usize,
        device_start: rest.device_pos as usize,
        size: spec_part_size(rest.device_pos, rest.size) as usize,
    }
}

/// All the parts of what remains, in order.
pub open spec fn spec_blocks(rest: Remaining) -> Seq<ListBlockItem>
    decreases rest.size,
    when rest.device_pos >= 0
{
    if rest.size <= 0 {
        Seq::empty()
    } else {
        seq![spec_first_part(rest)] + spec_blocks(spec_advance(rest))
    }
}

/// A range fits the machine when neither its end in the buffer nor its end
/// on the device passes the largest `usize`.
pub open spec fn fits(rest: Remaining) -> bool {
    &&& 0 <= rest.buf_pos
    &&& 0 <= rest.device_pos
    &&& 0 <= rest.size
    &&& rest.buf_pos + rest.size <= usize::MAX
    &&& rest.device_pos + rest.size <= usize::MAX
}

impl View for ListBlocks {
    type V = Remaining;

    closed spec fn view(&self) -> Remaining {
        Remaining {
            buf_pos: self.buf_pos as int,
            device_pos: self.device_pos as int,
            size: self.remaining_size as int,
        }
    }
}

/// Iterates on block-aligned parts of the `size` bytes that start at `start`
/// on the device.
pub fn list_blocks(start: usize, size: usize) -> (r: ListBlocks)
    requires
        start + size <= usize::MAX,
    ensures
        r@ == (Remaining { buf_pos: 0, device_pos: start as int, size: size as int }),
        fits(r@),
{
    ListBlocks { buf_pos: 0, device_pos: start, remaining_size: size }
}

impl ListBlockItem {
    /// Where the part starts in the buffer.
    pub fn buf_start(&self) -> (r: usize)
        ensures
            r == self.buf_start,
    {
        self.buf_start
    }

    /// Where the part ends in the buffer.
    pub fn buf_end(&self) -> (r: usize)
        requires
            self.buf_start + self.size <= usize::MAX,
        ensures
            r == self.buf_start + self.size,
    {
        self.buf_start + self.size
    }

    /// Where the part starts on the device.
    pub fn device_start(&self) -> (r: usize)
        ensures
            r == self.device_start,
    {
        self.device_start
    }

    /// The number of the block that the part lies in.
    pub fn block_num(&self) -> (r: usize)
        ensures
            r == self.device_start / BLOCK_SIZE,
    {
        self.device_start / BLOCK_SIZE
    }

    /// Where the part starts within its block.
    pub fn block_offset(&self) -> (r: usize)
        ensures
            r == self.device_start % BLOCK_SIZE,
            r < BLOCK_SIZE,
    {
        self.device_start % BLOCK_SIZE
    }

    /// The number of bytes in the part.
    pub fn size(&self) -> (r: usize)
        ensures
            r == self.size,
    {
        self.size
    }
}

impl ListBlocks {
    /// Takes the next part off the range, if any bytes remain.
    pub fn next(&mut self) -> (r: Option<ListBlockItem>)
        requires
            fits(old(self)@),
        ensures
            fits(final(self)@),
            old(self)@.size == 0 ==> r is None && final(self)@ == old(self)@,
            old(self)@.size > 0 ==> r == Some(spec_first_part(old(self)@)) && final(self)@
                == spec_advance(old(self)@),
    {
        if self.remaining_size > 0 {
            let to_block_end = BLOCK_SIZE - self.device_pos % BLOCK_SIZE;
            let size = if self.remaining_size < to_block_end {
                self.remaining_size
            } else {
                to_block_end
            };
            let item = ListBlockItem { buf_start: self.buf_pos, device_start: self.device_pos, size };
            self.buf_pos += size;
            self.device_pos += size;
            self.remaining_size -= size;
            Some(item)
        } else {
            None
        }
    }

    /// Takes all the parts that remain, in order.
    pub fn collect(self) -> (r: Vec<ListBlockItem>)
        requires
            fits(self@),
        ensures
            r@ == spec_blocks(self@),
    {
        let mut blocks = self;
        let mut items: Vec<ListBlockItem> = Vec::new();
        loop
            invariant
                fits(blocks@),
                items@ + spec_blocks(blocks@) == spec_blocks(self@),
            decreases blocks@.size,
        {
            let ghost before = blocks@;
            let ghost taken = items@;
            match blocks.next() {
                Some(item) => {
                    items.push(item);
                    assert(items@ + spec_blocks(blocks@) =~= taken + spec_blocks(before));
                },
                None => {
                    assert(items@ + spec_blocks(blocks@) =~= items@);
                    return items;
                },
            }
        }
    }
}

/// The parts of a range tile it: each part holds at least one byte and lies
/// within one block, each part starts where the one before it ended, in the
/// buffer as on the device, and the sizes of the parts add up to the size of
/// the range.
pub proof fn lemma_blocks_tile(rest: Remaining)
    requires
        fits(rest),
    ensures
        forall|i: int|
            #![trigger spec_blocks(rest)[i]]
            0 <= i < spec_blocks(rest).len() ==> {
                let part = spec_blocks(rest)[i];
                &&& part.size >= 1
                &&& part.device_start % BLOCK_SIZE + part.size <= BLOCK_SIZE
                &&& part.device_start - part.buf_start == rest.device_pos - rest.buf_pos
                &&& part.buf_start == if i == 0 {
                    rest.buf_pos
                } else {
                    spec_blocks(rest)[i - 1].buf_start + spec_blocks(rest)[i - 1].size
                }
            },
        rest.size > 0 ==> spec_blocks(rest).len() > 0 && spec_blocks(rest).last().buf_start
            + spec_blocks(rest).last().size == rest.buf_pos + rest.size,
        rest.size == 0 ==> spec_blocks(rest).len() == 0,
    decreases rest.size,
{
    if rest.size > 0 {
        let next = spec_advance(rest);
        let tail = spec_blocks(next);
        lemma_blocks_tile(next);
        let all = spec_blocks(rest);
        assert(all == seq![spec_first_part(rest)] + tail);
        assert forall|i: int| #![trigger all[i]] 0 <= i < all.len() implies {
            let part = all[i];
            &&& part.size >= 1
            &&& part.device_start % BLOCK_SIZE + part.size <= BLOCK_SIZE
            &&& part.device_start - part.buf_start == rest.device_pos - rest.buf_pos
            &&& part.buf_start == if i == 0 {
                rest.buf_pos
            } else {
                all[i - 1].buf_start + all[i - 1].size
            }
        } by {
            if i > 0 {
                assert(all[i] == tail[i - 1]);
                if i > 1 {
                    assert(all[i - 1] == tail[i - 2]);
                }
            }
        }
        if next.size > 0 {
            assert(all.last() == tail.last());
        }
    }
}

/// The decimal digits of a number, as ASCII bytes, without leading zeros.
pub open spec fn spec_decimal(n: nat) -> Seq<u8>
    decreases n,
{
    if n < 10 {
        seq![(0x30 + n) as u8]
    } else {
        spec_decimal(n / 10).push((0x30 + n % 10) as u8)
    }
}

/// The name of the object that holds a block of a device: the name of the
/// device, an underscore, and the number of the block in decimal.
pub open spec fn spec_block_object_id(base_name: Seq<u8>, block_num: nat) -> Seq<u8> {
    base_name + seq![0x5fu8] + spec_decimal(block_num)
}

/// The name of the object that holds a block of a device.
pub fn block_object_id(base_name: &[u8], block_num: usize) -> (r: ObjectId)
    ensures
        r@ == spec_block_object_id(base_name@, block_num as nat),
{
    // The digits after the first, least significant first
    let mut digits: Vec<u8> = Vec::new();
    let mut rest = block_num;
    assert(spec_decimal(rest as nat) + digits@.reverse() =~= spec_decimal(block_num as nat));
    while rest >= 10
        invariant
            spec_decimal(rest as nat) + digits@.reverse() == spec_decimal(block_num as nat),
        decreases rest,
    {
        let ghost before = digits@;
        let digit = (rest % 10) as u8 + 0x30;
        digits.push(digit);
        proof {
            assert(digits@.reverse() =~= seq![digit] + before.reverse());
            assert(spec_decimal((rest / 10) as nat) + digits@.reverse() =~= spec_decimal(rest as nat)
                + before.reverse());
        }
        rest = rest / 10;
    }
    let mut name: Vec<u8> = Vec::new();
    put_bytes(&mut name, base_name);
    name.push(0x5f);
    name.push(rest as u8 + 0x30);
    let ghost head = name@;
    assert(head =~= base_name@ + seq![0x5fu8] + spec_decimal(rest as nat));
    let mut i = digits.len();
    assert(name@ =~= head + digits@.subrange(i as int, digits@.len() as int).reverse());
    while i > 0
        invariant
            i <= digits@.len(),
            name@ == head + digits@.subrange(i as int, digits@.len() as int).reverse(),
        decreases i,
    {
        i -= 1;
        name.push(digits[i]);
        proof {
            let before = digits@.subrange(i + 1, digits@.len() as int);
            let now = digits@.subrange(i as int, digits@.len() as int);
            assert(now.reverse() =~= before.reverse().push(digits@[i as int]));
        }
    }
    proof {
        assert(digits@.subrange(0, digits@.len() as int) =~= digits@);
        assert(name@ =~= base_name@ + seq![0x5fu8] + (spec_decimal(rest as nat) + digits@.reverse()));
    }
    ObjectId(name)
}

/// The size of a device, as the object named after the device holds it: a
/// number in its first eight bytes, most significant byte first. A shorter
/// object holds no size.
pub fn image_size(metadata: &[u8]) -> (r: Option<u64>)
    ensures
        r == if metadata@.len() >= 8 {
            Some(spec_u64_be(metadata@))
        } else {
            None
        },
{
    if metadata.len() >= 8 {
        Some(read_u64_be(metadata))
    } else {
        None
    }
}

} // verus!
