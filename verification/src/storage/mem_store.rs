//! A storage backend keeping all data in memory.

use vstd::prelude::*;

use super::{read_part_of, write_part_into, Contents, StorageBackend, StorageError};
use crate::ident::{ObjectId, PoolName};

verus! {

/// An object in memory, with the names it is found by.
struct Slot {
    pool: PoolName,
    object_id: ObjectId,
    data: Vec<u8>,
}

/// A storage backend keeping all data in memory.
///
/// This is NOT persistent, the data will be lost when the process ends or the
/// MemStore object is dropped.
pub struct MemStore {
    slots: Vec<Slot>,
}

/// The names under which a slot is found.
spec fn slot_key(slot: Slot) -> (Seq<char>, Seq<u8>) {
    (slot.pool@, slot.object_id@)
}

/// No two slots are found under the same names.
spec fn unique_keys(slots: Seq<Slot>) -> bool {
    forall|i: int, j: int|
        0 <= i < j < slots.len() ==> slot_key(#[trigger] slots[i]) != slot_key(#[trigger] slots[j])
}

/// Some slot is found under the names.
spec fn holds(slots: Seq<Slot>, key: (Seq<char>, Seq<u8>)) -> bool {
    exists|i: int| 0 <= i < slots.len() && slot_key(#[trigger] slots[i]) == key
}

/// A slot that is found under the names.
spec fn index_of(slots: Seq<Slot>, key: (Seq<char>, Seq<u8>)) -> int {
    choose|i: int| 0 <= i < slots.len() && slot_key(#[trigger] slots[i]) == key
}

/// The objects in the slots.
spec fn slots_contents(slots: Seq<Slot>) -> Contents {
    Map::new(
        |key: (Seq<char>, Seq<u8>)| holds(slots, key),
        |key: (Seq<char>, Seq<u8>)| slots[index_of(slots, key)].data@,
    )
}

/// With no two slots under the same names, the object under the names of a
/// slot is the object in that slot.
proof fn lemma_slot_is_found(slots: Seq<Slot>, i: int)
    requires
        unique_keys(slots),
        0 <= i < slots.len(),
    ensures
        holds(slots, slot_key(slots[i])),
        index_of(slots, slot_key(slots[i])) == i,
        slots_contents(slots).contains_key(slot_key(slots[i])),
        slots_contents(slots)[slot_key(slots[i])] == slots[i].data@,
{
    let key = slot_key(slots[i]);
    let found = index_of(slots, key);
    assert(0 <= found < slots.len() && slot_key(slots[found]) == key);
    if found < i {
        assert(slot_key(slots[found]) != slot_key(slots[i]));
    } else if i < found {
        assert(slot_key(slots[i]) != slot_key(slots[found]));
    }
}

/// Adding a slot under names that no slot has puts its object into the
/// contents.
proof fn lemma_push_slot(slots: Seq<Slot>, slot: Slot)
    requires
        unique_keys(slots),
        !holds(slots, slot_key(slot)),
    ensures
        unique_keys(slots.push(slot)),
        slots_contents(slots.push(slot)) == slots_contents(slots).insert(slot_key(slot), slot.data@),
{
    let after = slots.push(slot);
    assert forall|i: int, j: int| 0 <= i < j < after.len() implies slot_key(
        #[trigger] after[i],
    ) != slot_key(#[trigger] after[j]) by {
        if j == slots.len() {
            assert(after[i] == slots[i]);
            if slot_key(slots[i]) == slot_key(slot) {
                assert(holds(slots, slot_key(slot)));
            }
        } else {
            assert(after[i] == slots[i] && after[j] == slots[j]);
        }
    }
    let expected = slots_contents(slots).insert(slot_key(slot), slot.data@);
    assert forall|key: (Seq<char>, Seq<u8>)| #[trigger]
        slots_contents(after).contains_key(key) == expected.contains_key(key) by {
        if holds(slots, key) {
            let i = index_of(slots, key);
            assert(after[i] == slots[i]);
        }
        if key == slot_key(slot) {
            assert(after[slots.len() as int] == slot);
        }
        if holds(after, key) {
            let i = index_of(after, key);
            if i < slots.len() {
                assert(after[i] == slots[i]);
            }
        }
    }
    assert forall|key: (Seq<char>, Seq<u8>)| #[trigger]
        slots_contents(after).contains_key(key) implies slots_contents(after)[key]
        == expected[key] by {
        let i = index_of(after, key);
        lemma_slot_is_found(after, i);
        if i < slots.len() {
            assert(after[i] == slots[i]);
            lemma_slot_is_found(slots, i);
        }
    }
    assert(slots_contents(after) =~= expected);
}

/// Taking a slot away takes its object out of the contents.
proof fn lemma_remove_slot(slots: Seq<Slot>, at: int)
    requires
        unique_keys(slots),
        0 <= at < slots.len(),
    ensures
        unique_keys(slots.remove(at)),
        !holds(slots.remove(at), slot_key(slots[at])),
        slots_contents(slots.remove(at)) == slots_contents(slots).remove(slot_key(slots[at])),
{
    let after = slots.remove(at);
    let gone = slot_key(slots[at]);
    assert forall|i: int| 0 <= i < after.len() implies #[trigger] after[i] == slots[if i < at {
        i
    } else {
        i + 1
    }] by {}
    assert forall|i: int, j: int| 0 <= i < j < after.len() implies slot_key(
        #[trigger] after[i],
    ) != slot_key(#[trigger] after[j]) by {
        let si = if i < at { i } else { i + 1 };
        let sj = if j < at { j } else { j + 1 };
        assert(after[i] == slots[si] && after[j] == slots[sj]);
        assert(slot_key(slots[si]) != slot_key(slots[sj]));
    }
    if holds(after, gone) {
        let i = index_of(after, gone);
        let si = if i < at { i } else { i + 1 };
        assert(after[i] == slots[si]);
        if si < at {
            assert(slot_key(slots[si]) != slot_key(slots[at]));
        } else {
            assert(slot_key(slots[at]) != slot_key(slots[si]));
        }
    }
    let expected = slots_contents(slots).remove(gone);
    assert forall|key: (Seq<char>, Seq<u8>)| #[trigger]
        slots_contents(after).contains_key(key) == expected.contains_key(key) by {
        if holds(after, key) {
            let i = index_of(after, key);
            let si = if i < at { i } else { i + 1 };
            assert(after[i] == slots[si]);
        }
        if holds(slots, key) && key != gone {
            let si = index_of(slots, key);
            let i = if si < at { si } else { si - 1 };
            assert(after[i] == slots[si]);
        }
    }
    assert forall|key: (Seq<char>, Seq<u8>)| #[trigger]
        slots_contents(after).contains_key(key) implies slots_contents(after)[key]
        == expected[key] by {
        let i = index_of(after, key);
        let si = if i < at { i } else { i + 1 };
        assert(after[i] == slots[si]);
        lemma_slot_is_found(after, i);
        lemma_slot_is_found(slots, si);
    }
    assert(slots_contents(after) =~= expected);
}

/// Copies the name of a pool.
fn copy_pool(pool: &PoolName) -> (r: PoolName)
    ensures
        r@ == pool@,
{
    PoolName(pool.0.clone())
}

/// Copies the name of an object.
fn copy_object_id(object_id: &ObjectId) -> (r: ObjectId)
    ensures
        r@ == object_id@,
{
    ObjectId(object_id.0.clone())
}

impl MemStore {
    #[verifier::type_invariant]
    spec fn well_formed(self) -> bool {
        unique_keys(self.slots@)
    }

    /// Makes a store that holds nothing.
    pub fn new() -> (r: MemStore)
        ensures
            r.contents() == Map::<(Seq<char>, Seq<u8>), Seq<u8>>::empty(),
    {
        let store = MemStore { slots: Vec::new() };
        assert(store.contents() =~= Map::<(Seq<char>, Seq<u8>), Seq<u8>>::empty());
        store
    }

    /// Takes the slots out of the store, which is left empty.
    fn take_slots(&mut self) -> (r: Vec<Slot>)
        ensures
            r@ == old(self).slots@,
            unique_keys(r@),
    {
        proof {
            use_type_invariant(&*self);
        }
        let mut taken = MemStore { slots: Vec::new() };
        core::mem::swap(self, &mut taken);
        taken.slots
    }

    /// Finds the slot of an object.
    fn find(slots: &Vec<Slot>, pool: &PoolName, object_id: &ObjectId) -> (r: Option<usize>)
        ensures
            match r {
                Some(i) => i < slots@.len() && slot_key(slots@[i as int]) == (pool@, object_id@),
                None => !holds(slots@, (pool@, object_id@)),
            },
    {
        let mut i: usize = 0;
        while i < slots.len()
            invariant
                i <= slots@.len(),
                forall|j: int| 0 <= j < i ==> slot_key(#[trigger] slots@[j]) != (pool@, object_id@),
            decreases slots@.len() - i,
        {
            let slot = &slots[i];
            if slot.pool.0 == pool.0 && slot.object_id.0 == object_id.0 {
                assert(slot.object_id.0@ =~= object_id.0@);
                return Some(i);
            }
            assert(slot_key(slots@[i as int]) != (pool@, object_id@)) by {
                if slot.pool.0@ == pool.0@ && slot.object_id.0@ == object_id.0@ {
                    assert(slot.object_id.0@.len() == object_id.0@.len());
                }
            }
            i += 1;
        }
        None
    }
}

impl Default for MemStore {
    fn default() -> (r: MemStore)
        ensures
            r.contents() == Map::<(Seq<char>, Seq<u8>), Seq<u8>>::empty(),
    {
        MemStore::new()
    }
}

impl StorageBackend for MemStore {
    closed spec fn contents(&self) -> Contents {
        slots_contents(self.slots@)
    }

    fn read_object(&self, pool: &PoolName, object_id: &ObjectId) -> (r: Result<
        Option<Vec<u8>>,
        StorageError,
    >)
        ensures
            r is Ok,
    {
        proof {
            use_type_invariant(self);
        }
        match Self::find(&self.slots, pool, object_id) {
            Some(i) => {
                proof {
                    lemma_slot_is_found(self.slots@, i as int);
                }
                Ok(Some(self.slots[i].data.clone()))
            },
            None => Ok(None),
        }
    }

    fn read_part(&self, pool: &PoolName, object_id: &ObjectId, offset: usize, len: usize) -> (r:
        Result<Option<Vec<u8>>, StorageError>)
        ensures
            r is Ok,
    {
        proof {
            use_type_invariant(self);
        }
        match Self::find(&self.slots, pool, object_id) {
            Some(i) => {
                proof {
                    lemma_slot_is_found(self.slots@, i as int);
                }
                Ok(Some(read_part_of(self.slots[i].data.as_slice(), offset, len)))
            },
            None => Ok(None),
        }
    }

    fn write_object(&mut self, pool: &PoolName, object_id: &ObjectId, data: &[u8]) -> (r: Result<
        (),
        StorageError,
    >)
        ensures
            r is Ok,
    {
        let mut slots = self.take_slots();
        let mut slot = match Self::find(&slots, pool, object_id) {
            Some(i) => {
                proof {
                    lemma_remove_slot(slots@, i as int);
                }
                slots.remove(i)
            },
            None => {
                assert(slots_contents(slots@).remove((pool@, object_id@)) =~= slots_contents(slots@));
                Slot { pool: copy_pool(pool), object_id: copy_object_id(object_id), data: Vec::new() }
            },
        };
        slot.data = vstd::slice::slice_to_vec(data);
        proof {
            lemma_push_slot(slots@, slot);
            assert(slots_contents(slots@).insert((pool@, object_id@), data@) =~= slots_contents(
                old(self).slots@,
            ).insert((pool@, object_id@), data@));
        }
        slots.push(slot);
        *self = MemStore { slots };
        Ok(())
    }

    fn write_part(
        &mut self,
        pool: &PoolName,
        object_id: &ObjectId,
        offset: usize,
        data: &[u8],
    ) -> (r: Result<(), StorageError>)
        ensures
            r is Ok,
    {
        let mut slots = self.take_slots();
        let mut slot = match Self::find(&slots, pool, object_id) {
            Some(i) => {
                proof {
                    lemma_slot_is_found(slots@, i as int);
                    lemma_remove_slot(slots@, i as int);
                }
                slots.remove(i)
            },
            None => {
                assert(slots_contents(slots@).remove((pool@, object_id@)) =~= slots_contents(slots@));
                Slot { pool: copy_pool(pool), object_id: copy_object_id(object_id), data: Vec::new() }
            },
        };
        write_part_into(&mut slot.data, offset, data);
        proof {
            lemma_push_slot(slots@, slot);
            assert(slots_contents(slots@).insert((pool@, object_id@), slot.data@)
                =~= slots_contents(old(self).slots@).insert((pool@, object_id@), slot.data@));
        }
        slots.push(slot);
        *self = MemStore { slots };
        Ok(())
    }

    fn delete_object(&mut self, pool: &PoolName, object_id: &ObjectId) -> (r: Result<(), StorageError>)
        ensures
            r is Ok,
    {
        let mut slots = self.take_slots();
        match Self::find(&slots, pool, object_id) {
            Some(i) => {
                proof {
                    lemma_remove_slot(slots@, i as int);
                }
                let _ = slots.remove(i);
            },
            None => {
                assert(slots_contents(slots@).remove((pool@, object_id@)) =~= slots_contents(slots@));
            },
        }
        *self = MemStore { slots };
        Ok(())
    }
}

} // verus!
