//! The client's side of the request plane: to which daemon a request goes,
//! under which counter, and who waits for its reply.
//!
//! Datagrams get lost. A client sends a request again and again, under the
//! same counter, until the reply comes in; the reply finds whoever waits for
//! it by the daemon it comes from and the counter at its head. A second
//! reply to the same request finds nobody and is dropped.

use std::collections::HashMap;
use vstd::prelude::*;

use crate::daemon::{primary, same_device, spec_primary};
use crate::ident::{DeviceId, PoolName};
use crate::storage_map::StorageMap;
use crate::wire::{
    encode_request, message_counter, spec_encodable, spec_encode_request, spec_number_at,
    Operation, OperationView, Request, RequestView,
};

verus! {

broadcast use vstd::std_specs::hash::group_hash_axioms;

/// How long a client waits for a reply before it sends the request again, in
/// milliseconds.
pub const TIMEOUT: u64 = 200;

/// Where a daemon is reached: an IPv6 address, or an IPv4 address mapped
/// into one, and a port.
#[derive(Clone, Copy, Debug)]
pub struct PeerAddress {
    pub ip: [u8; 16],
    pub port: u16,
}

/// A storage daemon as a client knows it.
pub struct StorageDaemon {
    pub device_id: DeviceId,
    pub address: PeerAddress,
    /// The counter that the next request to the daemon gets.
    pub client_counter: u32,
}

/// What a client knows and what it waits for.
pub struct ClientInner<T> {
    /// The single pool we care about.
    pool: PoolName,
    /// The storage map for the pool we care about.
    pool_config: StorageMap,
    /// The storage daemons.
    storage_daemons: Vec<StorageDaemon>,
    /// Who waits for the reply to which request.
    response_channels: HashMap<u64, T>,
}

/// A request as it goes out to a daemon.
#[derive(Debug)]
pub struct Outgoing {
    /// Where the request goes.
    pub address: PeerAddress,
    /// The counter of the request, which the reply will bear.
    pub counter: u32,
    /// The bytes of the request.
    pub request: Vec<u8>,
}

/// Why a request does not go out.
#[derive(Debug, PartialEq, Eq, Structural, Clone, Copy)]
pub enum ClientError {
    /// The name of the pool or of the object is too long to be written.
    NameTooLong,
    /// The client does not know the daemon that the storage map names.
    UnknownDevice,
    /// The counters for the daemon have run out.
    CounterExhausted,
}

/// A request that did not go out, and the one who would have waited for its
/// reply.
pub struct Refused<T> {
    pub error: ClientError,
    pub waiter: T,
}

/// The key under which the one who waits for a reply is found: the place of
/// the daemon in the client's list, and the counter of the request.
pub open spec fn spec_pending_key(daemon: int, counter: u32) -> u64 {
    (daemon * 0x1_0000_0000 + counter) as u64
}

/// The place of the first daemon with the given ID in the list.
pub open spec fn spec_daemon_by_id(daemons: Seq<StorageDaemon>, device_id: DeviceId) -> Option<int> {
    if exists|i: int| 0 <= i < daemons.len() && (#[trigger] daemons[i]).device_id == device_id {
        Some(
            choose|i: int|
                0 <= i < daemons.len() && (#[trigger] daemons[i]).device_id == device_id
                    && forall|j: int| 0 <= j < i ==> (#[trigger] daemons[j]).device_id != device_id,
        )
    } else {
        None
    }
}

/// The place of the first daemon with the given address in the list.
pub open spec fn spec_daemon_by_address(daemons: Seq<StorageDaemon>, address: PeerAddress) -> Option<
    int,
> {
    if exists|i: int| 0 <= i < daemons.len() && (#[trigger] daemons[i]).address == address {
        Some(
            choose|i: int|
                0 <= i < daemons.len() && (#[trigger] daemons[i]).address == address && forall|
                    j: int,
                |
                    0 <= j < i ==> (#[trigger] daemons[j]).address != address,
        )
    } else {
        None
    }
}

/// The place in the list of the daemon that a request about an object goes
/// to, or why the request does not go out. The daemon is the one that the
/// map names first for the object; a well-formed map names one for every
/// object.
pub open spec fn spec_target(
    pool: Seq<char>,
    map: StorageMap,
    daemons: Seq<StorageDaemon>,
    operation: OperationView,
) -> Result<int, ClientError> {
    let probe = RequestView { counter: 0, pool, operation };
    if !spec_encodable(probe) {
        Err(ClientError::NameTooLong)
    } else {
        match spec_daemon_by_id(daemons, spec_primary(map, operation.object_id())->0) {
            None => Err(ClientError::UnknownDevice),
            Some(i) => if daemons[i].client_counter == u32::MAX {
                Err(ClientError::CounterExhausted)
            } else {
                Ok(i)
            },
        }
    }
}

/// The key of the one who waits for a reply, by the address it comes from
/// and the counter at its head. A reply from an address that the client
/// does not know, or too short to hold a counter, has none.
pub open spec fn spec_reply_key(daemons: Seq<StorageDaemon>, sender: PeerAddress, msg: Seq<u8>) -> Option<
    u64,
> {
    match (spec_daemon_by_address(daemons, sender), spec_number_at(msg, 0)) {
        (Some(i), Some(counter)) => Some(spec_pending_key(i, counter)),
        _ => None,
    }
}

/// Tells whether two addresses are the same.
pub fn same_address(a: &PeerAddress, b: &PeerAddress) -> (r: bool)
    ensures
        r == (*a == *b),
{
    if a.port != b.port {
        return false;
    }
    let mut i: usize = 0;
    while i < 16
        invariant
            i <= 16,
            forall|j: int| 0 <= j < i ==> a.ip@[j] == b.ip@[j],
        decreases 16 - i,
    {
        if a.ip[i] != b.ip[i] {
            return false;
        }
        i += 1;
    }
    assert(a.ip =~= b.ip);
    true
}

impl<T> ClientInner<T> {
    /// The name of the pool.
    pub closed spec fn pool(&self) -> Seq<char> {
        self.pool@
    }

    /// The storage map of the pool.
    pub closed spec fn map(&self) -> StorageMap {
        self.pool_config
    }

    /// The daemons that the client knows.
    pub closed spec fn daemons(&self) -> Seq<StorageDaemon> {
        self.storage_daemons@
    }

    /// Who waits for the reply to which request.
    pub closed spec fn pending(&self) -> Map<u64, T> {
        self.response_channels@
    }

    /// The storage map is well formed, the daemons can be counted in 32
    /// bits, and every request that waits for its reply went to a daemon
    /// that the client knows, under a counter that was given out.
    pub open spec fn wf(&self) -> bool {
        &&& self.map().wf()
        &&& self.daemons().len() <= u32::MAX
        &&& forall|key: u64| #[trigger]
            self.pending().contains_key(key) ==> key / 0x1_0000_0000 < self.daemons().len() && key
                % 0x1_0000_0000 < self.daemons()[key as int / 0x1_0000_0000].client_counter
    }

    /// A client of a pool that knows no daemon yet.
    pub fn new(pool: PoolName, pool_config: StorageMap) -> (r: ClientInner<T>)
        requires
            pool_config.wf(),
        ensures
            r.wf(),
            r.pool() == pool@,
            r.map() == pool_config,
            r.daemons() == Seq::<StorageDaemon>::empty(),
            r.pending() == Map::<u64, T>::empty(),
    {
        ClientInner {
            pool,
            pool_config,
            storage_daemons: Vec::new(),
            response_channels: HashMap::new(),
        }
    }

    /// Replaces the storage map. The map that was in use is handed back.
    pub fn set_map(&mut self, pool_config: StorageMap) -> (r: StorageMap)
        requires
            old(self).wf(),
            pool_config.wf(),
        ensures
            final(self).wf(),
            r == old(self).map(),
            final(self).map() == pool_config,
            final(self).pool() == old(self).pool(),
            final(self).daemons() == old(self).daemons(),
            final(self).pending() == old(self).pending(),
    {
        let mut replaced = pool_config;
        core::mem::swap(&mut self.pool_config, &mut replaced);
        assert forall|key: u64| #[trigger] self.pending().contains_key(key) implies key
            / 0x1_0000_0000 < self.daemons().len() && key % 0x1_0000_0000
            < self.daemons()[key as int / 0x1_0000_0000].client_counter by {
            assert(old(self).pending().contains_key(key));
        }
        replaced
    }

    /// Makes a daemon known to the client, with no request sent to it yet.
    /// A client that knows as many daemons as can be counted takes no more.
    pub fn add_storage_daemon(&mut self, device_id: DeviceId, address: PeerAddress) -> (r: bool)
        requires
            old(self).wf(),
        ensures
            final(self).wf(),
            final(self).pool() == old(self).pool(),
            final(self).map() == old(self).map(),
            final(self).pending() == old(self).pending(),
            r == (old(self).daemons().len() < u32::MAX),
            r ==> final(self).daemons() == old(self).daemons().push(
                StorageDaemon { device_id, address, client_counter: 0 },
            ),
            !r ==> final(self).daemons() == old(self).daemons(),
    {
        if self.storage_daemons.len() >= u32::MAX as usize {
            return false;
        }
        self.storage_daemons.push(StorageDaemon { device_id, address, client_counter: 0 });
        assert forall|key: u64| #[trigger] self.pending().contains_key(key) implies key
            / 0x1_0000_0000 < self.daemons().len() && key % 0x1_0000_0000
            < self.daemons()[key as int / 0x1_0000_0000].client_counter by {
            assert(old(self).pending().contains_key(key));
        }
        true
    }

    /// Finds the first daemon with the given ID.
    fn daemon_by_id(&self, device_id: &DeviceId) -> (r: Option<usize>)
        ensures
            match r {
                Some(i) => i < self.daemons().len() && spec_daemon_by_id(self.daemons(), *device_id)
                    == Some(i as int),
                None => spec_daemon_by_id(self.daemons(), *device_id) is None,
            },
    {
        let mut i: usize = 0;
        while i < self.storage_daemons.len()
            invariant
                i <= self.storage_daemons@.len(),
                forall|j: int| 0 <= j < i ==> (#[trigger] self.storage_daemons@[j]).device_id != *device_id,
            decreases self.storage_daemons@.len() - i,
        {
            if same_device(&self.storage_daemons[i].device_id, device_id) {
                proof {
                    let daemons = self.storage_daemons@;
                    let found = spec_daemon_by_id(daemons, *device_id);
                    assert(daemons[i as int].device_id == *device_id);
                    let first = found->0;
                    if first < i {
                        assert(daemons[first].device_id != *device_id);
                    } else if i < first {
                        assert(daemons[i as int].device_id != *device_id);
                    }
                }
                return Some(i);
            }
            i += 1;
        }
        None
    }

    /// Finds the first daemon with the given address.
    fn daemon_by_address(&self, address: &PeerAddress) -> (r: Option<usize>)
        ensures
            match r {
                Some(i) => i < self.daemons().len() && spec_daemon_by_address(
                    self.daemons(),
                    *address,
                ) == Some(i as int),
                None => spec_daemon_by_address(self.daemons(), *address) is None,
            },
    {
        let mut i: usize = 0;
        while i < self.storage_daemons.len()
            invariant
                i <= self.storage_daemons@.len(),
                forall|j: int| 0 <= j < i ==> (#[trigger] self.storage_daemons@[j]).address != *address,
            decreases self.storage_daemons@.len() - i,
        {
            if same_address(&self.storage_daemons[i].address, address) {
                proof {
                    let daemons = self.storage_daemons@;
                    let found = spec_daemon_by_address(daemons, *address);
                    assert(daemons[i as int].address == *address);
                    let first = found->0;
                    if first < i {
                        assert(daemons[first].address != *address);
                    } else if i < first {
                        assert(daemons[i as int].address != *address);
                    }
                }
                return Some(i);
            }
            i += 1;
        }
        None
    }
}

/// Computes the key under which the one who waits for a reply is found.
fn pending_key(daemon: usize, counter: u32) -> (r: u64)
    requires
        daemon <= u32::MAX,
    ensures
        r == spec_pending_key(daemon as int, counter),
        r / 0x1_0000_0000 == daemon,
        r % 0x1_0000_0000 == counter,
{
    daemon as u64 * 0x1_0000_0000 + counter as u64
}

/// A key stands for one daemon and one counter.
pub proof fn lemma_pending_key(daemon: int, counter: u32)
    requires
        0 <= daemon <= u32::MAX,
    ensures
        spec_pending_key(daemon, counter) / 0x1_0000_0000 == daemon,
        spec_pending_key(daemon, counter) % 0x1_0000_0000 == counter,
{
}

impl<T> ClientInner<T> {
    /// Gets a request ready to go out: finds the daemon that holds the
    /// object, gives the request the daemon's next counter, writes it, and
    /// notes who waits for the reply.
    ///
    /// Where the request cannot go out, nothing changes, and the one who
    /// would have waited is handed back.
    pub fn begin_request(&mut self, operation: Operation, waiter: T) -> (r: Result<
        Outgoing,
        Refused<T>,
    >)
        requires
            old(self).wf(),
        ensures
            final(self).wf(),
            final(self).pool() == old(self).pool(),
            final(self).map() == old(self).map(),
            match spec_target(
                old(self).pool(),
                old(self).map(),
                old(self).daemons(),
                operation@,
            ) {
                Ok(i) => {
                    let daemon = old(self).daemons()[i];
                    let key = spec_pending_key(i, daemon.client_counter);
                    &&& r matches Ok(outgoing)
                    &&& outgoing.address == daemon.address
                    &&& outgoing.counter == daemon.client_counter
                    &&& outgoing.request@ == spec_encode_request(
                        RequestView {
                            counter: daemon.client_counter,
                            pool: old(self).pool(),
                            operation: operation@,
                        },
                    )
                    &&& final(self).daemons() == old(self).daemons().update(
                        i,
                        StorageDaemon {
                            client_counter: (daemon.client_counter + 1) as u32,
                            ..daemon
                        },
                    )
                    &&& !old(self).pending().contains_key(key)
                    &&& final(self).pending() == old(self).pending().insert(key, waiter)
                },
                Err(e) => {
                    &&& r matches Err(refused)
                    &&& refused.error == e
                    &&& refused.waiter == waiter
                    &&& final(self).daemons() == old(self).daemons()
                    &&& final(self).pending() == old(self).pending()
                },
            },
    {
        if self.pool.0.as_str().as_bytes().len() > u32::MAX as usize
            || crate::daemon::operation_object(&operation).0.len() > u32::MAX as usize {
            return Err(Refused { error: ClientError::NameTooLong, waiter });
        }
        let device_id = primary(&self.pool_config, crate::daemon::operation_object(&operation)).unwrap();
        let i = match self.daemon_by_id(&device_id) {
            Some(i) => i,
            None => {
                return Err(Refused { error: ClientError::UnknownDevice, waiter });
            },
        };
        let counter = self.storage_daemons[i].client_counter;
        if counter == u32::MAX {
            return Err(Refused { error: ClientError::CounterExhausted, waiter });
        }
        let address = self.storage_daemons[i].address;
        self.storage_daemons.set(
            i,
            StorageDaemon { device_id: self.storage_daemons[i].device_id, address, client_counter: counter + 1 },
        );

        // Assemble the request
        let request = Request { counter, pool: PoolName(self.pool.0.clone()), operation };
        let bytes = encode_request(&request);

        // Register our counter to get response
        let key = pending_key(i, counter);
        assert(!old(self).pending().contains_key(key));
        let _ = self.response_channels.insert(key, waiter);
        assert forall|k: u64| #[trigger] self.pending().contains_key(k) implies k / 0x1_0000_0000
            < self.daemons().len() && k % 0x1_0000_0000 < self.daemons()[k as int
            / 0x1_0000_0000].client_counter by {
            if k != key {
                assert(old(self).pending().contains_key(k));
            }
        }
        Ok(Outgoing { address, counter, request: bytes })
    }

    /// Takes in a reply: finds who waits for it, by the address it comes
    /// from and the counter at its head, and lets go of the request.
    ///
    /// A reply that nobody waits for finds nobody and changes nothing: a
    /// reply too short to hold a counter, a reply from an address that the
    /// client does not know, the second reply to one request.
    pub fn receive(&mut self, sender: &PeerAddress, msg: &[u8]) -> (r: Option<T>)
        requires
            old(self).wf(),
        ensures
            final(self).wf(),
            spec_received(old(self).daemons(), old(self).pending(), *sender, msg@, r, final(self).pending()),
            final(self).pool() == old(self).pool(),
            final(self).map() == old(self).map(),
            final(self).daemons() == old(self).daemons(),
    {
        let counter = match message_counter(msg) {
            Some(counter) => counter,
            None => {
                return None;
            },
        };
        self.cancel(sender, counter)
    }

    /// Lets go of a request whose reply is no longer waited for. Whoever
    /// waited is handed back; a reply that comes in later finds nobody.
    pub fn cancel(&mut self, address: &PeerAddress, counter: u32) -> (r: Option<T>)
        requires
            old(self).wf(),
        ensures
            final(self).wf(),
            final(self).pool() == old(self).pool(),
            final(self).map() == old(self).map(),
            final(self).daemons() == old(self).daemons(),
            match spec_daemon_by_address(old(self).daemons(), *address) {
                Some(i) => {
                    let key = spec_pending_key(i, counter);
                    &&& final(self).pending() == old(self).pending().remove(key)
                    &&& r == if old(self).pending().contains_key(key) {
                        Some(old(self).pending()[key])
                    } else {
                        None
                    }
                },
                None => r is None && final(self).pending() == old(self).pending(),
            },
    {
        let i = match self.daemon_by_address(address) {
            Some(i) => i,
            None => {
                return None;
            },
        };
        let key = pending_key(i, counter);
        let taken = self.response_channels.remove(&key);
        assert(self.response_channels@ =~= old(self).response_channels@.remove(key));
        assert forall|k: u64| #[trigger] self.pending().contains_key(k) implies k / 0x1_0000_0000
            < self.daemons().len() && k % 0x1_0000_0000 < self.daemons()[k as int
            / 0x1_0000_0000].client_counter by {
            assert(old(self).pending().contains_key(k));
        }
        taken
    }
}

/// What taking in a reply comes to: who is found, and who still waits
/// afterwards.
pub open spec fn spec_received<T>(
    daemons: Seq<StorageDaemon>,
    before: Map<u64, T>,
    sender: PeerAddress,
    msg: Seq<u8>,
    r: Option<T>,
    after: Map<u64, T>,
) -> bool {
    match spec_reply_key(daemons, sender, msg) {
        Some(key) => {
            &&& after == before.remove(key)
            &&& r == if before.contains_key(key) {
                Some(before[key])
            } else {
                None
            }
        },
        None => r is None && after == before,
    }
}

/// A reply is delivered at most once: when the same reply comes in a second
/// time, nobody is found and nothing changes.
pub proof fn lemma_duplicate_reply_dropped<T>(
    daemons: Seq<StorageDaemon>,
    before: Map<u64, T>,
    sender: PeerAddress,
    msg: Seq<u8>,
    first: Option<T>,
    between: Map<u64, T>,
    second: Option<T>,
    after: Map<u64, T>,
)
    requires
        spec_received(daemons, before, sender, msg, first, between),
        spec_received(daemons, between, sender, msg, second, after),
    ensures
        second is None,
        after == between,
{
    match spec_reply_key(daemons, sender, msg) {
        Some(key) => {
            assert(between.remove(key) =~= between);
        },
        None => {},
    }
}

/// The requests that a client has sent to one daemon and that wait for
/// their replies have different counters: a request that goes out gets a
/// counter under which nothing waits.
pub proof fn lemma_counters_are_fresh<T>(client: ClientInner<T>, daemon: int, counter: u32)
    requires
        client.wf(),
        0 <= daemon < client.daemons().len(),
        client.pending().contains_key(spec_pending_key(daemon, counter)),
    ensures
        counter < client.daemons()[daemon].client_counter,
{
    lemma_pending_key(daemon, counter);
}

} // verus!
