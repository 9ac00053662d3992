//! The storage daemon's side of the request plane: where a request is to be
//! served, and what serving it means.
//!
//! A daemon looks at every request it receives and decides, from the storage
//! map of the pool, whether to serve it from its own storage, to forward it
//! to a peer, or to turn it down. While a pool changes from one storage map
//! to another, the daemons that hold an object before and after the change
//! both receive requests for it, and exactly one of them serves them.

use std::collections::HashMap;
use vstd::prelude::*;

use crate::ident::{DeviceId, GroupId, ObjectId, PoolName};
use crate::storage::{
    spec_delete_object, spec_found, spec_read_object, spec_read_part, spec_write_object,
    spec_write_part, Contents, StorageBackend, StorageError,
};
use crate::storage_map::{spec_locate, spec_object_group, spec_replicas, StorageMap};
use crate::wire::{
    encode_ack, encode_read_reply, lemma_parse_encode, parse_request, spec_ack, spec_encodable,
    spec_encode_request, spec_number_at, spec_parse_request, spec_read_reply, spec_with_counter,
    with_counter, Operation, OperationView, ParseError, Request, RequestView,
};

verus! {

broadcast use vstd::std_specs::hash::group_hash_axioms;

/// How long a daemon waits for the reply to a request that it forwarded, in
/// milliseconds.
pub const TIMEOUT: u64 = 5000;

/// The storage maps of a pool.
pub enum Pool {
    /// Normal operation, a single map is in use.
    Normal(StorageMap),
    /// Preparing to transition to a new map, forward request to old location.
    TransitionPrepare { current: StorageMap, next: StorageMap },
    /// Transitioning to a new map, read from old location if necessary.
    Transition { previous: StorageMap, current: StorageMap },
}

/// Where a request is to be served.
#[derive(Debug)]
pub enum Location {
    /// We are the primary, but we can request from previous location if set.
    /// The second field lists the secondaries, in order.
    HereOrFallback(Option<DeviceId>, Vec<DeviceId>),
    /// Request should be forwarded elsewhere.
    Forward(DeviceId),
}

/// Why a request is served nowhere.
#[derive(Debug, PartialEq, Eq, Structural, Clone, Copy)]
pub enum RouteError {
    /// The daemon has no pool of that name.
    UnknownPool,
    /// The daemon is not the one that the storage map names for the object.
    WrongDaemon,
    /// The daemon does not know a peer that the storage map names.
    NoAddress,
}

/// A place to serve a request, with a sequence for the secondaries.
pub enum LocationView {
    HereOrFallback(Option<DeviceId>, Seq<DeviceId>),
    Forward(DeviceId),
}

impl View for Location {
    type V = LocationView;

    open spec fn view(&self) -> LocationView {
        match *self {
            Location::HereOrFallback(fallback, secondaries) => LocationView::HereOrFallback(
                fallback,
                secondaries@,
            ),
            Location::Forward(peer) => LocationView::Forward(peer),
        }
    }
}

impl Pool {
    /// The maps of a pool are well formed.
    pub open spec fn wf(&self) -> bool {
        match *self {
            Pool::Normal(map) => map.wf(),
            Pool::TransitionPrepare { current, next } => current.wf() && next.wf(),
            Pool::Transition { previous, current } => previous.wf() && current.wf(),
        }
    }

    /// The map that decides which daemon serves a request from its own
    /// storage.
    pub open spec fn serving_map(&self) -> StorageMap {
        match *self {
            Pool::Normal(map) => map,
            Pool::TransitionPrepare { current, .. } => current,
            Pool::Transition { current, .. } => current,
        }
    }

    /// Tells whether the maps of the pool are well formed.
    pub fn is_well_formed(&self) -> (r: bool)
        ensures
            r == self.wf(),
    {
        match self {
            Pool::Normal(map) => map.is_well_formed(),
            Pool::TransitionPrepare { current, next } => current.is_well_formed()
                && next.is_well_formed(),
            Pool::Transition { previous, current } => previous.is_well_formed()
                && current.is_well_formed(),
        }
    }

    /// Starts the change to another map: requests stay where they are served,
    /// and the daemons that the new map names forward to them. A pool that is
    /// changing already is handed back as it is.
    pub fn prepare_transition(self, next: StorageMap) -> (r: Result<Pool, Pool>)
        ensures
            match self {
                Pool::Normal(map) => r == Ok::<Pool, Pool>(
                    Pool::TransitionPrepare { current: map, next },
                ),
                _ => r == Err::<Pool, Pool>(self),
            },
    {
        match self {
            Pool::Normal(map) => Ok(Pool::TransitionPrepare { current: map, next }),
            other => Err(other),
        }
    }

    /// Makes the change: the daemons that the new map names serve the
    /// requests from now on. A pool that was not prepared is handed back as
    /// it is.
    pub fn start_transition(self) -> (r: Result<Pool, Pool>)
        ensures
            match self {
                Pool::TransitionPrepare { current, next } => r == Ok::<Pool, Pool>(
                    Pool::Transition { previous: current, current: next },
                ),
                _ => r == Err::<Pool, Pool>(self),
            },
    {
        match self {
            Pool::TransitionPrepare { current, next } => Ok(
                Pool::Transition { previous: current, current: next },
            ),
            other => Err(other),
        }
    }

    /// Ends the change: the old map is let go. A pool that is not in the
    /// middle of a change is handed back as it is.
    pub fn finish_transition(self) -> (r: Result<Pool, Pool>)
        ensures
            match self {
                Pool::Transition { previous, current } => r == Ok::<Pool, Pool>(Pool::Normal(current)),
                _ => r == Err::<Pool, Pool>(self),
            },
    {
        match self {
            Pool::Transition { previous, current } => Ok(Pool::Normal(current)),
            other => Err(other),
        }
    }
}

/// The device that a map names first for an object, if it names any.
pub open spec fn spec_primary(map: StorageMap, object_id: Seq<u8>) -> Option<DeviceId> {
    spec_locate(
        map.map_root,
        spec_object_group(object_id, map.groups),
        0,
        0,
        0,
        Set::empty(),
    ).device
}

/// The devices of a list after the first.
pub open spec fn spec_after_first(devices: Seq<DeviceId>) -> Seq<DeviceId> {
    if devices.len() == 0 {
        devices
    } else {
        devices.subrange(1, devices.len() as int)
    }
}

/// The devices that a map names for a group after the first, in order.
pub open spec fn spec_group_secondaries(map: StorageMap, group: u32) -> Seq<DeviceId> {
    spec_after_first(spec_replicas(map.map_root, group, 0, map.replicas as int, Set::empty()))
}

/// The devices that a map names for an object after the first, in order.
pub open spec fn spec_secondaries(map: StorageMap, object_id: Seq<u8>) -> Seq<DeviceId> {
    spec_group_secondaries(map, spec_object_group(object_id, map.groups))
}

/// The device is in the roster.
pub open spec fn spec_known(roster: Seq<DeviceId>, device: DeviceId) -> bool {
    roster.contains(device)
}

/// Every one of the devices is in the roster.
pub open spec fn spec_all_known(roster: Seq<DeviceId>, devices: Seq<DeviceId>) -> bool {
    forall|i: int| 0 <= i < devices.len() ==> spec_known(roster, #[trigger] devices[i])
}

/// Where the daemon `this` is to serve a request for an object, given the
/// maps of the pool and the roster of the peers that it knows.
///
/// The daemon that the serving map names first serves the request from its
/// own storage, if it knows the secondaries. While a change is prepared, the
/// daemon that the next map names first forwards to that daemon, if it knows
/// it. While a change is made, the daemon that serves may fall back on the
/// daemon that the previous map names first, which it must know unless it is
/// that daemon itself. Any other daemon turns the request down.
pub open spec fn spec_route(pool: Pool, this: DeviceId, roster: Seq<DeviceId>, object_id: Seq<u8>) -> Result<
    LocationView,
    RouteError,
> {
    let serving = pool.serving_map();
    let secondaries = spec_secondaries(serving, object_id);
    if spec_primary(serving, object_id) == Some(this) {
        match pool {
            Pool::Transition { previous, .. } => {
                let fallback = spec_primary(previous, object_id);
                if fallback is Some && fallback != Some(this) && !spec_known(roster, fallback->0) {
                    Err(RouteError::NoAddress)
                } else if !spec_all_known(roster, secondaries) {
                    Err(RouteError::NoAddress)
                } else if fallback == Some(this) {
                    Ok(LocationView::HereOrFallback(None, secondaries))
                } else {
                    Ok(LocationView::HereOrFallback(fallback, secondaries))
                }
            },
            _ => if spec_all_known(roster, secondaries) {
                Ok(LocationView::HereOrFallback(None, secondaries))
            } else {
                Err(RouteError::NoAddress)
            },
        }
    } else {
        match pool {
            Pool::TransitionPrepare { current, next } => if spec_primary(next, object_id) == Some(
                this,
            ) {
                match spec_primary(current, object_id) {
                    Some(target) => if spec_known(roster, target) {
                        Ok(LocationView::Forward(target))
                    } else {
                        Err(RouteError::NoAddress)
                    },
                    None => Err(RouteError::NoAddress),
                }
            } else {
                Err(RouteError::WrongDaemon)
            },
            _ => Err(RouteError::WrongDaemon),
        }
    }
}

/// Tells whether two device IDs are the same.
pub fn same_device(a: &DeviceId, b: &DeviceId) -> (r: bool)
    ensures
        r == (*a == *b),
{
    proof {
        crate::ident::lemma_device_id_by_bytes(*a, *b);
    }
    *a == *b
}

/// Tells whether a device is in the roster.
pub fn is_known(roster: &Vec<DeviceId>, device: &DeviceId) -> (r: bool)
    ensures
        r == spec_known(roster@, *device),
{
    let mut i: usize = 0;
    while i < roster.len()
        invariant
            i <= roster@.len(),
            forall|j: int| 0 <= j < i ==> roster@[j] != *device,
        decreases roster@.len() - i,
    {
        if same_device(&roster[i], device) {
            return true;
        }
        i += 1;
    }
    false
}

/// The device that a map names first for an object.
pub fn primary(map: &StorageMap, object_id: &ObjectId) -> (r: Option<DeviceId>)
    requires
        map.wf(),
    ensures
        r == spec_primary(*map, object_id@),
        r is Some,
{
    let group_id = map.object_to_group(object_id);
    map.group_to_first_device(&group_id)
}

/// Every object has a daemon that serves it: a well-formed map names a first
/// device for every object.
pub proof fn lemma_primary_exists(map: StorageMap, object_id: Seq<u8>)
    requires
        map.wf(),
    ensures
        spec_primary(map, object_id) is Some,
{
    crate::storage_map::lemma_first_device_exists(map, spec_object_group(object_id, map.groups));
}

/// The devices that a map names for the group after the first, if the
/// daemon knows them all.
pub fn get_secondaries(map: &StorageMap, roster: &Vec<DeviceId>, group_id: &GroupId) -> (r: Result<
    Vec<DeviceId>,
    RouteError,
>)
    requires
        map.wf(),
    ensures
        if spec_all_known(roster@, spec_group_secondaries(*map, group_id.0)) {
            r matches Ok(found) && found@ == spec_group_secondaries(*map, group_id.0)
        } else {
            r == Err::<Vec<DeviceId>, RouteError>(RouteError::NoAddress)
        },
{
    let devices = map.group_to_devices(group_id, map.replicas as usize);
    let ghost all = devices@;
    let ghost wanted = spec_after_first(all);
    let mut secondaries: Vec<DeviceId> = Vec::new();
    let mut i: usize = 1;
    if devices.len() == 0 {
        return Ok(secondaries);
    }
    assert(secondaries@ =~= all.subrange(1, 1));
    while i < devices.len()
        invariant
            1 <= i <= devices@.len(),
            all == devices@,
            wanted == all.subrange(1, all.len() as int),
            wanted == spec_group_secondaries(*map, group_id.0),
            secondaries@ == all.subrange(1, i as int),
            forall|j: int| 0 <= j < i - 1 ==> spec_known(roster@, #[trigger] wanted[j]),
        decreases devices@.len() - i,
    {
        if !is_known(roster, &devices[i]) {
            assert(wanted[i - 1] == devices@[i as int]);
            assert(!spec_known(roster@, wanted[i - 1]));
            return Err(RouteError::NoAddress);
        }
        secondaries.push(devices[i]);
        assert(wanted[i - 1] == devices@[i as int]);
        assert(secondaries@ =~= all.subrange(1, i + 1));
        i += 1;
    }
    assert(secondaries@ =~= wanted);
    Ok(secondaries)
}

/// Decides where the daemon `this` is to serve a request for an object of a
/// pool.
pub fn route(pool: &Pool, this: &DeviceId, roster: &Vec<DeviceId>, object_id: &ObjectId) -> (r: Result<
    Location,
    RouteError,
>)
    requires
        pool.wf(),
    ensures
        match spec_route(*pool, *this, roster@, object_id@) {
            Ok(location) => r matches Ok(found) && found@ == location,
            Err(e) => r == Err::<Location, RouteError>(e),
        },
{
    // Check that we are responsible for this object
    match pool {
        Pool::Normal(map) => {
            let group_id = map.object_to_group(object_id);
            let target_device = map.group_to_first_device(&group_id);
            if is_device(&target_device, this) {
                let secondaries = get_secondaries(map, roster, &group_id)?;
                Ok(Location::HereOrFallback(None, secondaries))
            } else {
                Err(RouteError::WrongDaemon)
            }
        },
        Pool::TransitionPrepare { current, next } => {
            // We are waiting for the transition
            // During that time both locations will be getting requests from
            // clients, so keep handling them at the old location
            let current_group_id = current.object_to_group(object_id);
            let current_device = current.group_to_first_device(&current_group_id);
            if is_device(&current_device, this) {
                let secondaries = get_secondaries(current, roster, &current_group_id)?;
                return Ok(Location::HereOrFallback(None, secondaries));
            }
            let next_device = primary(next, object_id);
            if is_device(&next_device, this) {
                return match current_device {
                    Some(target) => if is_known(roster, &target) {
                        Ok(Location::Forward(target))
                    } else {
                        Err(RouteError::NoAddress)
                    },
                    None => Err(RouteError::NoAddress),
                };
            }
            Err(RouteError::WrongDaemon)
        },
        Pool::Transition { previous, current } => {
            // We are in transition
            // We have given enough time to clients to stop sending to the old
            // location, start handling requests at new location
            let current_group_id = current.object_to_group(object_id);
            let current_device = current.group_to_first_device(&current_group_id);
            if is_device(&current_device, this) {
                let previous_device = primary(previous, object_id);
                let fallback = match previous_device {
                    Some(device) => if same_device(&device, this) {
                        None
                    } else if is_known(roster, &device) {
                        Some(device)
                    } else {
                        return Err(RouteError::NoAddress);
                    },
                    None => None,
                };
                let secondaries = get_secondaries(current, roster, &current_group_id)?;
                Ok(Location::HereOrFallback(fallback, secondaries))
            } else {
                Err(RouteError::WrongDaemon)
            }
        },
    }
}

/// Tells whether a device was found and is the given one.
fn is_device(found: &Option<DeviceId>, device: &DeviceId) -> (r: bool)
    ensures
        r == (*found == Some(*device)),
{
    match found {
        Some(id) => same_device(id, device),
        None => false,
    }
}

/// The daemon that serves requests for an object from its own storage, if
/// there is one.
pub open spec fn spec_server(pool: Pool, object_id: Seq<u8>) -> Option<DeviceId> {
    spec_primary(pool.serving_map(), object_id)
}

/// Every object of a pool with well-formed maps has a daemon that serves it.
pub proof fn lemma_server_exists(pool: Pool, object_id: Seq<u8>)
    requires
        pool.wf(),
    ensures
        spec_server(pool, object_id) is Some,
{
    lemma_primary_exists(pool.serving_map(), object_id);
}

/// At most one daemon serves an object from its own storage: two daemons
/// that both find that they are to serve a request for the same object, under
/// the same maps, are the same daemon.
pub proof fn lemma_one_server(
    pool: Pool,
    a: DeviceId,
    roster_a: Seq<DeviceId>,
    b: DeviceId,
    roster_b: Seq<DeviceId>,
    object_id: Seq<u8>,
)
    requires
        spec_route(pool, a, roster_a, object_id) matches Ok(LocationView::HereOrFallback(_, _)),
        spec_route(pool, b, roster_b, object_id) matches Ok(LocationView::HereOrFallback(_, _)),
    ensures
        a == b,
        spec_server(pool, object_id) == Some(a),
{
}

/// A request is forwarded only while a change is prepared, only by the
/// daemon that the next map names first, and only to the daemon that serves
/// the object; that daemon serves the request if it knows the secondaries.
pub proof fn lemma_forward_reaches_server(
    pool: Pool,
    sender: DeviceId,
    roster: Seq<DeviceId>,
    target: DeviceId,
    target_roster: Seq<DeviceId>,
    object_id: Seq<u8>,
)
    requires
        spec_route(pool, sender, roster, object_id) == Ok::<LocationView, RouteError>(
            LocationView::Forward(target),
        ),
    ensures
        pool is TransitionPrepare,
        spec_primary(pool->next, object_id) == Some(sender),
        spec_server(pool, object_id) == Some(target),
        target != sender,
        spec_known(roster, target),
        spec_all_known(target_roster, spec_secondaries(pool.serving_map(), object_id)) ==> spec_route(
            pool,
            target,
            target_roster,
            object_id,
        ) == Ok::<LocationView, RouteError>(
            LocationView::HereOrFallback(None, spec_secondaries(pool.serving_map(), object_id)),
        ),
{
}

/// A daemon that is neither the one that serves an object nor, while a
/// change is prepared, the one that the next map names first, turns down
/// every request for the object.
pub proof fn lemma_misdirected(pool: Pool, this: DeviceId, roster: Seq<DeviceId>, object_id: Seq<u8>)
    requires
        spec_server(pool, object_id) != Some(this),
        pool matches Pool::TransitionPrepare { next, .. } ==> spec_primary(next, object_id) != Some(
            this,
        ),
    ensures
        spec_route(pool, this, roster, object_id) == Err::<LocationView, RouteError>(
            RouteError::WrongDaemon,
        ),
{
}

/// Through a change of maps the daemon that serves an object moves once:
/// preparing the change leaves it where the old map has it, making the
/// change moves it to where the new map has it, and ending the change
/// leaves it there.
pub proof fn lemma_server_moves_once(old_map: StorageMap, new_map: StorageMap, object_id: Seq<u8>)
    ensures
        spec_server(Pool::Normal(old_map), object_id) == spec_primary(old_map, object_id),
        spec_server(Pool::TransitionPrepare { current: old_map, next: new_map }, object_id)
            == spec_primary(old_map, object_id),
        spec_server(Pool::Transition { previous: old_map, current: new_map }, object_id)
            == spec_primary(new_map, object_id),
        spec_server(Pool::Normal(new_map), object_id) == spec_primary(new_map, object_id),
{
}

/// A pool of a daemon, under its name.
pub struct NamedPool {
    pub name: PoolName,
    pub pool: Pool,
}

/// What a storage daemon knows: who it is, the pools it serves and the
/// peers it can reach.
pub struct StorageDaemon {
    /// The random ID for this storage daemon.
    device_id: DeviceId,
    /// Storage pools.
    pools: Vec<NamedPool>,
    /// All the storage daemons that this one can reach.
    storage_daemons: Vec<DeviceId>,
}

/// The pool of the given name: the first under that name in the list.
pub open spec fn spec_find_pool(pools: Seq<NamedPool>, name: Seq<char>) -> Option<Pool>
    decreases pools.len(),
{
    if pools.len() == 0 {
        None
    } else if pools[0].name@ == name {
        Some(pools[0].pool)
    } else {
        spec_find_pool(pools.subrange(1, pools.len() as int), name)
    }
}

/// The maps of all the pools are well formed.
pub open spec fn spec_pools_wf(pools: Seq<NamedPool>) -> bool {
    forall|i: int| 0 <= i < pools.len() ==> (#[trigger] pools[i]).pool.wf()
}

proof fn lemma_find_pool_from(pools: Seq<NamedPool>, name: Seq<char>, from: int)
    requires
        0 <= from <= pools.len(),
        forall|j: int| 0 <= j < from ==> (#[trigger] pools[j]).name@ != name,
    ensures
        spec_find_pool(pools, name) == spec_find_pool(pools.subrange(from, pools.len() as int), name),
    decreases from,
{
    if from == 0 {
        assert(pools.subrange(0, pools.len() as int) =~= pools);
    } else {
        lemma_find_pool_from(pools, name, from - 1);
        let before = pools.subrange(from - 1, pools.len() as int);
        assert(before[0] == pools[from - 1]);
        assert(before.subrange(1, before.len() as int) =~= pools.subrange(from, pools.len() as int));
    }
}

impl StorageDaemon {
    /// The ID of the daemon.
    pub closed spec fn id(&self) -> DeviceId {
        self.device_id
    }

    /// The pools of the daemon, with their names.
    pub closed spec fn pools(&self) -> Seq<NamedPool> {
        self.pools@
    }

    /// The peers that the daemon can reach.
    pub closed spec fn roster(&self) -> Seq<DeviceId> {
        self.storage_daemons@
    }

    /// The maps of all the pools of the daemon are well formed.
    pub open spec fn wf(&self) -> bool {
        spec_pools_wf(self.pools())
    }

    /// A daemon without pools or peers.
    pub fn new(device_id: DeviceId) -> (r: StorageDaemon)
        ensures
            r.wf(),
            r.id() == device_id,
            r.pools() == Seq::<NamedPool>::empty(),
            r.roster() == Seq::<DeviceId>::empty(),
    {
        StorageDaemon { device_id, pools: Vec::new(), storage_daemons: Vec::new() }
    }

    /// The ID of the daemon.
    pub fn device_id(&self) -> (r: DeviceId)
        ensures
            r == self.id(),
    {
        self.device_id
    }

    /// Makes a peer known to the daemon.
    pub fn add_storage_daemon(&mut self, device_id: DeviceId)
        ensures
            final(self).id() == old(self).id(),
            final(self).pools() == old(self).pools(),
            final(self).roster() == old(self).roster().push(device_id),
    {
        self.storage_daemons.push(device_id);
    }

    /// Puts a pool under a name: in place of the pool that is found under
    /// the name, if there is one, and after the other pools otherwise. The
    /// pool that was found under the name is handed back.
    pub fn set_pool(&mut self, name: PoolName, pool: Pool) -> (r: Option<Pool>)
        requires
            old(self).wf(),
            pool.wf(),
        ensures
            final(self).wf(),
            final(self).id() == old(self).id(),
            final(self).roster() == old(self).roster(),
            r == spec_find_pool(old(self).pools(), name@),
            spec_find_pool(final(self).pools(), name@) == Some(pool),
            forall|other: Seq<char>|
                other != name@ ==> spec_find_pool(final(self).pools(), other) == spec_find_pool(
                    old(self).pools(),
                    other,
                ),
    {
        let found = self.pool_index(&name);
        let ghost before = self.pools@;
        match found {
            Some(i) => {
                let old_entry = self.pools.remove(i);
                self.pools.insert(i, NamedPool { name, pool });
                proof {
                    let after = self.pools@;
                    assert(after =~= before.update(i as int, NamedPool { name, pool }));
                    lemma_find_pool_from(before, name@, i as int);
                    lemma_find_pool_from(after, name@, i as int);
                    assert(before.subrange(i as int, before.len() as int)[0] == before[i as int]);
                    assert(after.subrange(i as int, after.len() as int)[0] == after[i as int]);
                    assert forall|other: Seq<char>| other != name@ implies spec_find_pool(
                        after,
                        other,
                    ) == spec_find_pool(before, other) by {
                        lemma_find_pool_update(before, i as int, NamedPool { name, pool }, other);
                    }
                }
                Some(old_entry.pool)
            },
            None => {
                self.pools.push(NamedPool { name, pool });
                proof {
                    let after = self.pools@;
                    lemma_find_pool_from(before, name@, before.len() as int);
                    lemma_find_pool_from(after, name@, before.len() as int);
                    assert(after.subrange(before.len() as int, after.len() as int)[0]
                        == NamedPool { name, pool });
                    assert forall|other: Seq<char>| other != name@ implies spec_find_pool(
                        after,
                        other,
                    ) == spec_find_pool(before, other) by {
                        lemma_find_pool_push(before, NamedPool { name, pool }, other);
                    }
                }
                None
            },
        }
    }

    /// Finds the first pool under a name.
    fn pool_index(&self, name: &PoolName) -> (r: Option<usize>)
        ensures
            match r {
                Some(i) => i < self.pools@.len() && self.pools@[i as int].name@ == name@
                    && spec_find_pool(self.pools@, name@) == Some(self.pools@[i as int].pool)
                    && forall|j: int| 0 <= j < i ==> (#[trigger] self.pools@[j]).name@ != name@,
                None => spec_find_pool(self.pools@, name@) is None && forall|j: int|
                    0 <= j < self.pools@.len() ==> (#[trigger] self.pools@[j]).name@ != name@,
            },
    {
        let mut i: usize = 0;
        while i < self.pools.len()
            invariant
                i <= self.pools@.len(),
                forall|j: int| 0 <= j < i ==> (#[trigger] self.pools@[j]).name@ != name@,
            decreases self.pools@.len() - i,
        {
            if self.pools[i].name.0 == name.0 {
                proof {
                    lemma_find_pool_from(self.pools@, name@, i as int);
                    assert(self.pools@.subrange(i as int, self.pools@.len() as int)[0]
                        == self.pools@[i as int]);
                }
                return Some(i);
            }
            i += 1;
        }
        proof {
            lemma_find_pool_from(self.pools@, name@, i as int);
        }
        None
    }

    /// Decides where a request for an object of a pool is to be served.
    pub fn get_location(&self, pool_name: &PoolName, object_id: &ObjectId) -> (r: Result<
        Location,
        RouteError,
    >)
        requires
            self.wf(),
        ensures
            match spec_get_location(*self, pool_name@, object_id@) {
                Ok(location) => r matches Ok(found) && found@ == location,
                Err(e) => r == Err::<Location, RouteError>(e),
            },
    {
        match self.pool_index(pool_name) {
            Some(i) => route(&self.pools[i].pool, &self.device_id, &self.storage_daemons, object_id),
            None => Err(RouteError::UnknownPool),
        }
    }
}

/// Where a daemon is to serve a request for an object of a pool.
pub open spec fn spec_get_location(daemon: StorageDaemon, pool_name: Seq<char>, object_id: Seq<u8>) -> Result<
    LocationView,
    RouteError,
> {
    match spec_find_pool(daemon.pools(), pool_name) {
        Some(pool) => spec_route(pool, daemon.id(), daemon.roster(), object_id),
        None => Err(RouteError::UnknownPool),
    }
}

proof fn lemma_find_pool_update(pools: Seq<NamedPool>, at: int, entry: NamedPool, other: Seq<char>)
    requires
        0 <= at < pools.len(),
        pools[at].name@ == entry.name@,
        other != entry.name@,
    ensures
        spec_find_pool(pools.update(at, entry), other) == spec_find_pool(pools, other),
    decreases pools.len(),
{
    let after = pools.update(at, entry);
    if at == 0 {
        assert(after.subrange(1, after.len() as int) =~= pools.subrange(1, pools.len() as int));
    } else {
        assert(after[0] == pools[0]);
        assert(after.subrange(1, after.len() as int) =~= pools.subrange(
            1,
            pools.len() as int,
        ).update(at - 1, entry));
        lemma_find_pool_update(pools.subrange(1, pools.len() as int), at - 1, entry, other);
    }
}

proof fn lemma_find_pool_push(pools: Seq<NamedPool>, entry: NamedPool, other: Seq<char>)
    requires
        other != entry.name@,
    ensures
        spec_find_pool(pools.push(entry), other) == spec_find_pool(pools, other),
    decreases pools.len(),
{
    let after = pools.push(entry);
    if pools.len() == 0 {
        assert(after.subrange(1, after.len() as int) =~= pools);
    } else {
        assert(after[0] == pools[0]);
        assert(after.subrange(1, after.len() as int) =~= pools.subrange(
            1,
            pools.len() as int,
        ).push(entry));
        lemma_find_pool_push(pools.subrange(1, pools.len() as int), entry, other);
    }
}

/// Why a request got no reply.
#[derive(Debug)]
pub enum RequestError {
    /// The datagram holds no request.
    Invalid(ParseError),
    /// The request is not to be served by this daemon.
    Misrouted(RouteError),
    /// The write ends beyond what the machine can address.
    OutOfRange,
    /// The backend failed.
    Storage(StorageError),
}

/// What is to be done about a request after the daemon has looked at it.
#[derive(Debug)]
pub enum Handled {
    /// The request was served from the daemon's own storage. The reply goes
    /// to the client. The request is to be passed on to the peers listed,
    /// which are to do the same to their storage.
    Reply { reply: Vec<u8>, pass_on: Vec<DeviceId> },
    /// The request is to be forwarded to a peer, and the peer's reply sent on
    /// to the client under the counter of the client's request.
    Forward { peer: DeviceId, client_counter: u32 },
}

impl OperationView {
    /// The operation reads and does not write.
    pub open spec fn is_read(self) -> bool {
        self is ReadObject || self is ReadPart
    }
}

/// What a read finds in the contents; nothing for an operation that writes.
pub open spec fn spec_read_result(contents: Contents, request: RequestView) -> Option<Seq<u8>> {
    match request.operation {
        OperationView::ReadObject { object_id } => spec_read_object(
            contents,
            request.pool,
            object_id,
        ),
        OperationView::ReadPart { object_id, offset, len } => spec_read_part(
            contents,
            request.pool,
            object_id,
            offset as int,
            len as int,
        ),
        _ => None,
    }
}

/// The contents after a request was served.
pub open spec fn spec_contents_after(contents: Contents, request: RequestView) -> Contents {
    match request.operation {
        OperationView::WriteObject { object_id, data } => spec_write_object(
            contents,
            request.pool,
            object_id,
            data,
        ),
        OperationView::WritePart { object_id, offset, data } => spec_write_part(
            contents,
            request.pool,
            object_id,
            offset as int,
            data,
        ),
        OperationView::DeleteObject { object_id } => spec_delete_object(
            contents,
            request.pool,
            object_id,
        ),
        _ => contents,
    }
}

/// The reply to a request that was served: what a read found, under the
/// counter of the request, or the counter alone for a write or a delete.
pub open spec fn spec_reply(contents: Contents, request: RequestView) -> Seq<u8> {
    if request.operation.is_read() {
        spec_read_reply(request.counter, spec_read_result(contents, request))
    } else {
        spec_ack(request.counter)
    }
}

/// The peers that a served request is passed on to: none for a read, the
/// secondaries for a write, and for a delete the secondaries and then the
/// daemon that held the object before a change of maps, if there is one.
pub open spec fn spec_pass_on(
    operation: OperationView,
    fallback: Option<DeviceId>,
    secondaries: Seq<DeviceId>,
) -> Seq<DeviceId> {
    if operation.is_read() {
        Seq::empty()
    } else if operation is DeleteObject && fallback is Some {
        secondaries.push(fallback->0)
    } else {
        secondaries
    }
}

/// A write fits the machine when its end can be addressed.
pub open spec fn spec_in_range(operation: OperationView) -> bool {
    operation matches OperationView::WritePart { offset, data, .. } ==> offset + data.len()
        <= usize::MAX
}

/// Serves a request from the daemon's own storage.
fn serve<B: StorageBackend>(
    backend: &mut B,
    request: &Request,
    fallback: Option<DeviceId>,
    secondaries: Vec<DeviceId>,
) -> (r: Result<Handled, RequestError>)
    ensures
        match r {
            Ok(Handled::Reply { reply, pass_on }) => {
                &&& spec_in_range(request@.operation)
                &&& reply@ == spec_reply(old(backend).contents(), request@)
                &&& pass_on@ == spec_pass_on(request@.operation, fallback, secondaries@)
                &&& final(backend).contents() == spec_contents_after(
                    old(backend).contents(),
                    request@,
                )
                &&& fallback is Some && request@.operation.is_read() ==> spec_read_result(
                    old(backend).contents(),
                    request@,
                ) is Some
            },
            Ok(Handled::Forward { peer, client_counter }) => {
                &&& fallback == Some(peer)
                &&& client_counter == request.counter
                &&& request@.operation.is_read()
                &&& spec_read_result(old(backend).contents(), request@) is None
                &&& final(backend).contents() == old(backend).contents()
            },
            Err(RequestError::OutOfRange) => !spec_in_range(request@.operation)
                && final(backend).contents() == old(backend).contents(),
            Err(RequestError::Storage(_)) => spec_in_range(request@.operation),
            Err(_) => false,
        },
{
    let counter = request.counter;
    match &request.operation {
        Operation::ReadObject { object_id } => {
            let object = match backend.read_object(&request.pool, object_id) {
                Ok(object) => object,
                Err(e) => {
                    return Err(RequestError::Storage(e));
                },
            };
            read_outcome(counter, object, fallback)
        },
        Operation::ReadPart { object_id, offset, len } => {
            let object = match backend.read_part(
                &request.pool,
                object_id,
                *offset as usize,
                *len as usize,
            ) {
                Ok(object) => object,
                Err(e) => {
                    return Err(RequestError::Storage(e));
                },
            };
            read_outcome(counter, object, fallback)
        },
        Operation::WriteObject { object_id, data } => {
            match backend.write_object(&request.pool, object_id, data.as_slice()) {
                Ok(()) => {},
                Err(e) => {
                    return Err(RequestError::Storage(e));
                },
            }
            Ok(Handled::Reply { reply: encode_ack(counter), pass_on: secondaries })
        },
        Operation::WritePart { object_id, offset, data } => {
            if *offset as u64 > usize::MAX as u64 - data.len() as u64 {
                return Err(RequestError::OutOfRange);
            }
            match backend.write_part(&request.pool, object_id, *offset as usize, data.as_slice()) {
                Ok(()) => {},
                Err(e) => {
                    return Err(RequestError::Storage(e));
                },
            }
            Ok(Handled::Reply { reply: encode_ack(counter), pass_on: secondaries })
        },
        Operation::DeleteObject { object_id } => {
            match backend.delete_object(&request.pool, object_id) {
                Ok(()) => {},
                Err(e) => {
                    return Err(RequestError::Storage(e));
                },
            }
            let mut pass_on = secondaries;
            match fallback {
                Some(previous) => {
                    pass_on.push(previous);
                },
                None => {},
            }
            Ok(Handled::Reply { reply: encode_ack(counter), pass_on })
        },
    }
}

/// What is to be done once a read has looked into the daemon's own storage:
/// a reply, unless the object is not there and there is a daemon to fall
/// back on.
fn read_outcome(counter: u32, object: Option<Vec<u8>>, fallback: Option<DeviceId>) -> (r: Result<
    Handled,
    RequestError,
>)
    ensures
        match (object, fallback) {
            (None, Some(peer)) => r matches Ok(Handled::Forward { peer: to, client_counter })
                && to == peer && client_counter == counter,
            _ => r matches Ok(Handled::Reply { reply, pass_on }) && reply@ == spec_read_reply(
                counter,
                spec_found(object),
            ) && pass_on@ == Seq::<DeviceId>::empty(),
        },
{
    match (&object, fallback) {
        (None, Some(peer)) => Ok(Handled::Forward { peer, client_counter: counter }),
        _ => Ok(Handled::Reply { reply: encode_read_reply(counter, &object), pass_on: Vec::new() }),
    }
}

/// Looks at a request and does what is to be done about it here.
///
/// A datagram that holds no request, and a request that this daemon is not
/// to serve, change nothing and get no reply. A request that is to be
/// forwarded changes nothing here. A request that is to be served is handed
/// to the backend; a read that finds nothing is forwarded if there is a
/// daemon to fall back on.
pub fn handle_client_request<B: StorageBackend>(
    daemon: &StorageDaemon,
    backend: &mut B,
    msg: &[u8],
) -> (r: Result<Handled, RequestError>)
    requires
        daemon.wf(),
    ensures
        spec_handled(*daemon, old(backend).contents(), msg@, r, final(backend).contents()),
{
    let request = match parse_request(msg) {
        Ok(request) => request,
        Err(e) => {
            return Err(RequestError::Invalid(e));
        },
    };
    let object_id = operation_object(&request.operation);
    match daemon.get_location(&request.pool, object_id) {
        Ok(Location::HereOrFallback(fallback, secondaries)) => serve(
            backend,
            &request,
            fallback,
            secondaries,
        ),
        Ok(Location::Forward(peer)) => Ok(Handled::Forward { peer, client_counter: request.counter }),
        Err(e) => Err(RequestError::Misrouted(e)),
    }
}

/// The object that an operation is about.
pub fn operation_object(operation: &Operation) -> (r: &ObjectId)
    ensures
        r@ == operation@.object_id(),
{
    match operation {
        Operation::ReadObject { object_id } => object_id,
        Operation::ReadPart { object_id, .. } => object_id,
        Operation::WriteObject { object_id, .. } => object_id,
        Operation::WritePart { object_id, .. } => object_id,
        Operation::DeleteObject { object_id } => object_id,
    }
}

/// What handling a datagram comes to, for a daemon with the given storage:
/// the outcome `r`, and the contents of the storage afterwards.
pub open spec fn spec_handled(
    daemon: StorageDaemon,
    before: Contents,
    msg: Seq<u8>,
    r: Result<Handled, RequestError>,
    after: Contents,
) -> bool {
    match spec_parse_request(msg) {
        Err(e) => r matches Err(RequestError::Invalid(found)) && found == e && after == before,
        Ok(request) => match spec_get_location(
            daemon,
            request.pool,
            request.operation.object_id(),
        ) {
            Err(e) => r matches Err(RequestError::Misrouted(found)) && found == e && after
                == before,
            Ok(LocationView::Forward(target)) => r matches Ok(
                Handled::Forward { peer, client_counter },
            ) && peer == target && client_counter == request.counter && after == before,
            Ok(LocationView::HereOrFallback(fallback, secondaries)) => {
                if !spec_in_range(request.operation) {
                    r matches Err(RequestError::OutOfRange) && after == before
                } else if fallback is Some && request.operation.is_read() && spec_read_result(
                    before,
                    request,
                ) is None {
                    ||| r matches Err(RequestError::Storage(_))
                    ||| r matches Ok(Handled::Forward { peer, client_counter }) && Some(peer)
                        == fallback && client_counter == request.counter && after == before
                } else {
                    ||| r matches Err(RequestError::Storage(_))
                    ||| r matches Ok(Handled::Reply { reply, pass_on }) && reply@ == spec_reply(
                        before,
                        request,
                    ) && pass_on@ == spec_pass_on(request.operation, fallback, secondaries)
                        && after == spec_contents_after(before, request)
                }
            },
        },
    }
}

/// An object that was written is read back through the protocol: when a
/// daemon has served a request that replaces an object, and then serves a
/// request that reads that object, the reply holds what was written.
pub proof fn lemma_read_after_write(
    daemon: StorageDaemon,
    before: Contents,
    write: RequestView,
    written: Result<Handled, RequestError>,
    between: Contents,
    read: RequestView,
    answered: Result<Handled, RequestError>,
    after: Contents,
    object_id: Seq<u8>,
    data: Seq<u8>,
)
    requires
        spec_handled(daemon, before, spec_encode_request(write), written, between),
        spec_handled(daemon, between, spec_encode_request(read), answered, after),
        spec_encodable(write),
        spec_encodable(read),
        written is Ok,
        answered matches Ok(Handled::Reply { .. }),
        write.pool == read.pool,
        write.operation == (OperationView::WriteObject { object_id, data }),
        read.operation == (OperationView::ReadObject { object_id }),
    ensures
        written matches Ok(Handled::Reply { reply, .. }) && reply@ == spec_ack(write.counter),
        answered matches Ok(Handled::Reply { reply, .. }) && reply@ == spec_read_reply(
            read.counter,
            Some(data),
        ),
        after == between,
{
    lemma_parse_encode(write);
    lemma_parse_encode(read);
}

/// An object that was deleted is not read back through the protocol: when a
/// daemon has served a request that deletes an object, and then answers a
/// request that reads that object, the reply says that the object is not
/// there.
pub proof fn lemma_read_after_delete(
    daemon: StorageDaemon,
    before: Contents,
    delete: RequestView,
    deleted: Result<Handled, RequestError>,
    between: Contents,
    read: RequestView,
    answered: Result<Handled, RequestError>,
    after: Contents,
    object_id: Seq<u8>,
)
    requires
        spec_handled(daemon, before, spec_encode_request(delete), deleted, between),
        spec_handled(daemon, between, spec_encode_request(read), answered, after),
        spec_encodable(delete),
        spec_encodable(read),
        deleted is Ok,
        answered matches Ok(Handled::Reply { .. }),
        delete.pool == read.pool,
        delete.operation == (OperationView::DeleteObject { object_id }),
        read.operation.is_read(),
        read.operation.object_id() == object_id,
    ensures
        answered matches Ok(Handled::Reply { reply, .. }) && reply@ == spec_read_reply(
            read.counter,
            None,
        ),
{
    lemma_parse_encode(delete);
    lemma_parse_encode(read);
}

/// Writing into an object that is not there, through the protocol, makes an
/// object of zeros up to the offset with the data after them: that is what
/// a request that reads the object is answered with.
pub proof fn lemma_read_after_write_part_missing(
    daemon: StorageDaemon,
    before: Contents,
    write: RequestView,
    written: Result<Handled, RequestError>,
    between: Contents,
    read: RequestView,
    answered: Result<Handled, RequestError>,
    after: Contents,
    object_id: Seq<u8>,
    offset: u32,
    data: Seq<u8>,
)
    requires
        spec_handled(daemon, before, spec_encode_request(write), written, between),
        spec_handled(daemon, between, spec_encode_request(read), answered, after),
        spec_encodable(write),
        spec_encodable(read),
        written is Ok,
        answered matches Ok(Handled::Reply { .. }),
        write.pool == read.pool,
        write.operation == (OperationView::WritePart { object_id, offset, data }),
        read.operation == (OperationView::ReadObject { object_id }),
        !before.contains_key((write.pool, object_id)),
    ensures
        answered matches Ok(Handled::Reply { reply, .. }) && reply@ == spec_read_reply(
            read.counter,
            Some(Seq::new(offset as nat, |i: int| 0u8) + data),
        ),
{
    lemma_parse_encode(write);
    lemma_parse_encode(read);
    crate::storage::lemma_write_part_missing(before, write.pool, object_id, offset as int, data);
}

/// A request that is forwarded gets the reply that it would have got
/// directly: the reply of the daemon that serves it to the forwarded
/// request, put under the counter of the client's request, is the reply of
/// that daemon to the client's request itself.
pub proof fn lemma_forwarded_reply(contents: Contents, request: RequestView, peer_counter: u32)
    ensures
        spec_with_counter(
            spec_reply(contents, RequestView { counter: peer_counter, ..request }),
            request.counter,
        ) == Some(spec_reply(contents, request)),
        spec_contents_after(contents, RequestView { counter: peer_counter, ..request })
            == spec_contents_after(contents, request),
{
    let forwarded = RequestView { counter: peer_counter, ..request };
    let from_peer = spec_reply(contents, forwarded);
    let direct = spec_reply(contents, request);
    crate::bytes::lemma_be_round_trip(peer_counter);
    crate::bytes::lemma_be_round_trip(request.counter);
    assert(spec_read_result(contents, forwarded) == spec_read_result(contents, request));
    assert(from_peer.len() >= 4);
    assert(spec_with_counter(from_peer, request.counter)->0 =~= direct);
}

/// The requests that a daemon has forwarded to one peer and that wait for
/// their replies.
pub struct PeerDaemon<T> {
    counter: u32,
    response_channels: HashMap<u32, T>,
}

/// A request as it goes out to a peer.
#[derive(Debug)]
pub struct Forwarded {
    /// The counter under which the reply is waited for.
    pub counter: u32,
    /// The request, under that counter.
    pub request: Vec<u8>,
}

impl<T> PeerDaemon<T> {
    /// The counter that the next request to the peer gets.
    pub closed spec fn next_counter(&self) -> u32 {
        self.counter
    }

    /// Who waits for the reply to which request, by the counter of the
    /// request.
    pub closed spec fn pending(&self) -> Map<u32, T> {
        self.response_channels@
    }

    /// Every request that waits for its reply has a counter that was given
    /// out.
    pub open spec fn wf(&self) -> bool {
        forall|counter: u32| #[trigger]
            self.pending().contains_key(counter) ==> counter < self.next_counter()
    }

    /// A peer to which nothing has been forwarded yet.
    pub fn new() -> (r: PeerDaemon<T>)
        ensures
            r.wf(),
            r.next_counter() == 0,
            r.pending() == Map::<u32, T>::empty(),
    {
        PeerDaemon { counter: 0, response_channels: HashMap::new() }
    }

    /// Gets a request ready to be forwarded: gives it a counter of its own,
    /// and notes who waits for the reply.
    ///
    /// A message too short to hold a counter is not forwarded, nor is any
    /// once the counters have run out; the one who would have waited is
    /// handed back.
    pub fn begin_forward(&mut self, msg: &[u8], waiter: T) -> (r: Result<Forwarded, T>)
        requires
            old(self).wf(),
        ensures
            final(self).wf(),
            match r {
                Ok(forwarded) => {
                    &&& msg@.len() >= 4 && old(self).next_counter() < u32::MAX
                    &&& forwarded.counter == old(self).next_counter()
                    &&& Some(forwarded.request@) == spec_with_counter(msg@, forwarded.counter)
                    &&& final(self).next_counter() == old(self).next_counter() + 1
                    &&& final(self).pending() == old(self).pending().insert(
                        forwarded.counter,
                        waiter,
                    )
                    &&& !old(self).pending().contains_key(forwarded.counter)
                },
                Err(back) => {
                    &&& msg@.len() < 4 || old(self).next_counter() == u32::MAX
                    &&& back == waiter
                    &&& final(self).next_counter() == old(self).next_counter()
                    &&& final(self).pending() == old(self).pending()
                },
            },
    {
        if self.counter == u32::MAX {
            return Err(waiter);
        }
        // Get a request ID to read the response, and assemble the request
        let counter = self.counter;
        let request = match with_counter(msg, counter) {
            Some(request) => request,
            None => {
                return Err(waiter);
            },
        };
        self.counter = counter + 1;

        // Register our counter to get the response
        let _ = self.response_channels.insert(counter, waiter);
        assert forall|k: u32| #[trigger] self.pending().contains_key(k) implies k
            < self.next_counter() by {
            if k != counter {
                assert(old(self).pending().contains_key(k));
            }
        }
        Ok(Forwarded { counter, request })
    }

    /// Takes in a reply from the peer: finds who waits for it, by the
    /// counter at its head, and lets go of the request.
    ///
    /// A reply that nobody waits for, among them the second reply to one
    /// request, finds nobody and changes nothing.
    pub fn take_reply(&mut self, reply: &[u8]) -> (r: Option<T>)
        requires
            old(self).wf(),
        ensures
            final(self).wf(),
            final(self).next_counter() == old(self).next_counter(),
            match spec_number_at(reply@, 0) {
                Some(counter) => {
                    &&& final(self).pending() == old(self).pending().remove(counter)
                    &&& r == if old(self).pending().contains_key(counter) {
                        Some(old(self).pending()[counter])
                    } else {
                        None
                    }
                },
                None => r is None && final(self).pending() == old(self).pending(),
            },
    {
        match crate::wire::message_counter(reply) {
            Some(counter) => self.close(counter),
            None => None,
        }
    }

    /// Lets go of a request, when its reply has not come in time or is no
    /// longer wanted. Whoever waited for it is handed back.
    pub fn close(&mut self, counter: u32) -> (r: Option<T>)
        requires
            old(self).wf(),
        ensures
            final(self).wf(),
            final(self).next_counter() == old(self).next_counter(),
            final(self).pending() == old(self).pending().remove(counter),
            r == if old(self).pending().contains_key(counter) {
                Some(old(self).pending()[counter])
            } else {
                None
            },
    {
        let taken = self.response_channels.remove(&counter);
        assert(self.response_channels@ =~= old(self).response_channels@.remove(counter));
        assert forall|k: u32| #[trigger] self.pending().contains_key(k) implies k
            < self.next_counter() by {
            assert(old(self).pending().contains_key(k));
        }
        taken
    }
}

/// The reply of a peer, as it goes on to the client: under the counter of
/// the client's request.
pub fn relay_reply(reply: &[u8], client_counter: u32) -> (r: Option<Vec<u8>>)
    ensures
        crate::wire::spec_bytes_of(r) == spec_with_counter(reply@, client_counter),
{
    with_counter(reply, client_counter)
}

} // verus!
