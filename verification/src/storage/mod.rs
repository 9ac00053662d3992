//! What a storage daemon keeps: objects, found by pool and name.
//!
//! A backend holds the bytes. This module states what every backend owes
//! its callers, and gives the backend that keeps all objects in memory.

pub mod keys;
pub mod mem_store;

use vstd::prelude::*;

use crate::ident::{ObjectId, PoolName};

verus! {

/// A failure of a backend, as it reports it.
#[derive(Debug)]
pub struct StorageError(pub String);

/// What a backend holds: the bytes of each object, by the name of its pool
/// and its own name.
pub type Contents = Map<(Seq<char>, Seq<u8>), Seq<u8>>;

/// The part of an object that starts at `offset` and is `len` bytes long,
/// cut short where the object ends.
pub open spec fn spec_part(object: Seq<u8>, offset: int, len: int) -> Seq<u8> {
    let from = if offset < object.len() {
        offset
    } else {
        object.len() as int
    };
    let to = if offset + len < object.len() {
        offset + len
    } else {
        object.len() as int
    };
    object.subrange(from, to)
}

/// An object with `data` written over it from `offset` on. The object grows
/// to hold the data; where it had no bytes and gets none, it holds zeros.
pub open spec fn spec_patch(object: Seq<u8>, offset: int, data: Seq<u8>) -> Seq<u8> {
    let len = if object.len() > offset + data.len() {
        object.len() as int
    } else {
        offset + data.len()
    };
    Seq::new(
        len as nat,
        |i: int|
            if offset <= i < offset + data.len() {
                data[i - offset]
            } else if i < object.len() {
                object[i]
            } else {
                0u8
            },
    )
}

/// The bytes of an object, if it is there.
pub open spec fn spec_read_object(contents: Contents, pool: Seq<char>, object_id: Seq<u8>) -> Option<
    Seq<u8>,
> {
    if contents.contains_key((pool, object_id)) {
        Some(contents[(pool, object_id)])
    } else {
        None
    }
}

/// A part of an object, if the object is there.
pub open spec fn spec_read_part(
    contents: Contents,
    pool: Seq<char>,
    object_id: Seq<u8>,
    offset: int,
    len: int,
) -> Option<Seq<u8>> {
    if contents.contains_key((pool, object_id)) {
        Some(spec_part(contents[(pool, object_id)], offset, len))
    } else {
        None
    }
}

/// The contents after an object was replaced.
pub open spec fn spec_write_object(
    contents: Contents,
    pool: Seq<char>,
    object_id: Seq<u8>,
    data: Seq<u8>,
) -> Contents {
    contents.insert((pool, object_id), data)
}

/// The contents after data was written into an object. An object that was
/// not there starts out empty.
pub open spec fn spec_write_part(
    contents: Contents,
    pool: Seq<char>,
    object_id: Seq<u8>,
    offset: int,
    data: Seq<u8>,
) -> Contents {
    let object = if contents.contains_key((pool, object_id)) {
        contents[(pool, object_id)]
    } else {
        Seq::empty()
    };
    contents.insert((pool, object_id), spec_patch(object, offset, data))
}

/// The contents after an object was deleted.
pub open spec fn spec_delete_object(contents: Contents, pool: Seq<char>, object_id: Seq<u8>) -> Contents {
    contents.remove((pool, object_id))
}

/// The bytes of an optional buffer.
pub open spec fn spec_found(object: Option<Vec<u8>>) -> Option<Seq<u8>> {
    match object {
        Some(data) => Some(data@),
        None => None,
    }
}

/// Copies the part of an object that starts at `offset` and is `len` bytes
/// long, cut short where the object ends.
pub fn read_part_of(object: &[u8], offset: usize, len: usize) -> (r: Vec<u8>)
    ensures
        r@ == spec_part(object@, offset as int, len as int),
{
    let size = object.len();
    let from = if offset < size {
        offset
    } else {
        size
    };
    let to = if len < size - from {
        from + len
    } else {
        size
    };
    let mut part = Vec::new();
    let mut i = from;
    while i < to
        invariant
            from <= i <= to <= size,
            size == object@.len(),
            part@ == object@.subrange(from as int, i as int),
        decreases to - i,
    {
        part.push(object[i]);
        i += 1;
        assert(part@ =~= object@.subrange(from as int, i as int));
    }
    part
}

/// Writes `data` over an object from `offset` on. The object grows to hold
/// the data, with zeros where nothing was written.
pub fn write_part_into(object: &mut Vec<u8>, offset: usize, data: &[u8])
    requires
        offset + data@.len() <= usize::MAX,
    ensures
        final(object)@ == spec_patch(old(object)@, offset as int, data@),
{
    let end = offset + data.len();
    while object.len() < end
        invariant
            old(object)@.len() <= object@.len(),
            object@.len() <= end || object@.len() == old(object)@.len(),
            forall|i: int| 0 <= i < old(object)@.len() ==> object@[i] == old(object)@[i],
            forall|i: int| old(object)@.len() <= i < object@.len() ==> object@[i] == 0,
        decreases end - object@.len(),
    {
        object.push(0);
    }
    let ghost grown = object@;
    let mut i: usize = 0;
    while i < data.len()
        invariant
            i <= data@.len(),
            end == offset + data@.len(),
            end <= object@.len(),
            object@.len() == grown.len(),
            old(object)@.len() <= grown.len(),
            grown.len() <= end || grown.len() == old(object)@.len(),
            forall|j: int| 0 <= j < old(object)@.len() ==> grown[j] == old(object)@[j],
            forall|j: int| old(object)@.len() <= j < grown.len() ==> grown[j] == 0,
            forall|j: int| 0 <= j < offset ==> object@[j] == grown[j],
            forall|j: int| offset <= j < offset + i ==> object@[j] == data@[j - offset],
            forall|j: int| offset + i <= j < object@.len() ==> object@[j] == grown[j],
        decreases data@.len() - i,
    {
        object.set(offset + i, data[i]);
        i += 1;
    }
    let ghost patched = spec_patch(old(object)@, offset as int, data@);
    assert(object@.len() == patched.len());
    assert forall|j: int| 0 <= j < object@.len() implies object@[j] == patched[j] by {
        if offset <= j < offset + data@.len() {
            assert(object@[j] == data@[j - offset]);
        } else {
            assert(object@[j] == grown[j]);
        }
    }
    assert(object@ =~= patched);
}

/// A place where objects are kept.
///
/// A backend may fail, and says so; of what it holds after a failure nothing
/// is known. When it does not fail, it does what the operation says.
pub trait StorageBackend {
    /// The objects that the backend holds. A backend of which nothing more
    /// is said holds something, of which nothing is known.
    open spec fn contents(&self) -> Contents {
        arbitrary()
    }

    /// Reads a whole object.
    fn read_object(&self, pool: &PoolName, object_id: &ObjectId) -> (r: Result<
        Option<Vec<u8>>,
        StorageError,
    >)
        ensures
            r matches Ok(found) ==> spec_found(found) == spec_read_object(
                self.contents(),
                pool@,
                object_id@,
            ),
    ;

    /// Reads part of an object.
    fn read_part(&self, pool: &PoolName, object_id: &ObjectId, offset: usize, len: usize) -> (r:
        Result<Option<Vec<u8>>, StorageError>)
        ensures
            r matches Ok(found) ==> spec_found(found) == spec_read_part(
                self.contents(),
                pool@,
                object_id@,
                offset as int,
                len as int,
            ),
    ;

    /// Write a whole object.
    fn write_object(&mut self, pool: &PoolName, object_id: &ObjectId, data: &[u8]) -> (r: Result<
        (),
        StorageError,
    >)
        ensures
            r is Ok ==> final(self).contents() == spec_write_object(
                old(self).contents(),
                pool@,
                object_id@,
                data@,
            ),
    ;

    /// Overwrite part of an object.
    fn write_part(
        &mut self,
        pool: &PoolName,
        object_id: &ObjectId,
        offset: usize,
        data: &[u8],
    ) -> (r: Result<(), StorageError>)
        requires
            offset + data@.len() <= usize::MAX,
        ensures
            r is Ok ==> final(self).contents() == spec_write_part(
                old(self).contents(),
                pool@,
                object_id@,
                offset as int,
                data@,
            ),
    ;

    /// Delete an object. Deleting an object that is not there succeeds.
    fn delete_object(&mut self, pool: &PoolName, object_id: &ObjectId) -> (r: Result<
        (),
        StorageError,
    >)
        ensures
            r is Ok ==> final(self).contents() == spec_delete_object(
                old(self).contents(),
                pool@,
                object_id@,
            ),
    ;
}

/// An object that was written is read back; an object that was deleted is
/// not there.
pub proof fn lemma_write_then_read(
    contents: Contents,
    pool: Seq<char>,
    object_id: Seq<u8>,
    data: Seq<u8>,
)
    ensures
        spec_read_object(spec_write_object(contents, pool, object_id, data), pool, object_id)
            == Some(data),
        spec_read_object(spec_delete_object(contents, pool, object_id), pool, object_id)
            == None::<Seq<u8>>,
        spec_read_part(spec_delete_object(contents, pool, object_id), pool, object_id, 0, 0)
            == None::<Seq<u8>>,
{
}

/// Writing into an object that is not there makes an object that holds
/// zeros up to the offset, and the data after them.
pub proof fn lemma_write_part_missing(
    contents: Contents,
    pool: Seq<char>,
    object_id: Seq<u8>,
    offset: int,
    data: Seq<u8>,
)
    requires
        !contents.contains_key((pool, object_id)),
        offset >= 0,
    ensures
        spec_read_object(spec_write_part(contents, pool, object_id, offset, data), pool, object_id)
            == Some(Seq::new(offset as nat, |i: int| 0u8) + data),
{
    assert(spec_patch(Seq::empty(), offset, data) =~= Seq::new(offset as nat, |i: int| 0u8) + data);
}

/// Writing into an object leaves the bytes before and after the data as
/// they were, and a part read where the data was written gives the data.
pub proof fn lemma_patch_then_part(object: Seq<u8>, offset: int, data: Seq<u8>)
    requires
        offset >= 0,
    ensures
        spec_part(spec_patch(object, offset, data), offset, data.len() as int) == data,
        spec_patch(object, offset, data).len() >= object.len(),
        forall|i: int|
            0 <= i < object.len() && !(offset <= i < offset + data.len()) ==> spec_patch(
                object,
                offset,
                data,
            )[i] == object[i],
{
    assert(spec_part(spec_patch(object, offset, data), offset, data.len() as int) =~= data);
}

} // verus!
